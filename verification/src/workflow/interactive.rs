//! The keywords offered for selection.
use vstd::prelude::*;
use crate::libs::counts::{keys_distinct, occurrences, pair_views};
use crate::libs::errors::Error;
use crate::libs::keywords::{
    all_keywords, extract_keywords_and_count_from_filenames, ranked, ranks_before,
    sort_by_count_and_keyword_length,
};
use crate::text::string_views;

verus! {

/// The keywords worth offering: those that occur more than once among the
/// keywords of the file names (the space does not separate keywords here), with
/// their counts, ordered as [`sort_by_count_and_keyword_length`] orders them; an
/// error where there is none.
pub fn candidate_keywords(filenames: &Vec<String>) -> (r: Result<Vec<(String, usize)>, Error>)
    requires
        all_keywords(string_views(filenames@), false).len() <= usize::MAX,
    ensures
        r is Err <==> forall|k: Seq<char>|
            #![trigger occurrences(all_keywords(string_views(filenames@), false), k)]
            occurrences(all_keywords(string_views(filenames@), false), k) <= 1,
        r matches Err(e) ==> e is NoKeywordsFound,
        r matches Ok(v) ==> {
            &&& keys_distinct(pair_views(v@))
            &&& ranked(pair_views(v@))
            &&& forall|i: int|
                0 <= i < v@.len() ==> #[trigger] v@[i].1 as nat == occurrences(
                    all_keywords(string_views(filenames@), false),
                    v@[i].0@,
                ) && v@[i].1 > 1
            &&& forall|k: Seq<char>|
                #![trigger occurrences(all_keywords(string_views(filenames@), false), k)]
                occurrences(all_keywords(string_views(filenames@), false), k) > 1 ==> exists|i: int|
                    0 <= i < v@.len() && v@[i].0@ == k
        },
{
    let ghost ks = all_keywords(string_views(filenames@), false);
    let counts = extract_keywords_and_count_from_filenames(filenames, false);
    let ghost m = counts@;
    let sorted = sort_by_count_and_keyword_length(counts);
    let ghost sv = pair_views(sorted@);
    let mut r: Vec<(String, usize)> = Vec::new();
    let ghost mut idx: Seq<int> = Seq::empty();
    let mut i: usize = 0;
    while i < sorted.len()
        invariant
            i <= sorted@.len(),
            sv == pair_views(sorted@),
            r@.len() == idx.len(),
            forall|x: int| 0 <= x < idx.len() ==> 0 <= #[trigger] idx[x] < i,
            forall|a: int, b: int| 0 <= a < b < idx.len() ==> #[trigger] idx[a] < #[trigger] idx[b],
            forall|x: int| 0 <= x < idx.len() ==> #[trigger] pair_views(r@)[x] == sv[idx[x]],
            forall|x: int| 0 <= x < idx.len() ==> (#[trigger] r@[x]).1 > 1,
            forall|t: int| 0 <= t < i && sv[t].1 > 1 ==> exists|x: int| 0 <= x < idx.len() && #[trigger] idx[x] == t,
        decreases sorted@.len() - i,
    {
        if sorted[i].1 > 1 {
            let ghost before = r@;
            r.push((sorted[i].0.clone(), sorted[i].1));
            proof {
                let old_idx = idx;
                idx = idx.push(i as int);
                assert forall|x: int| 0 <= x < idx.len() implies #[trigger] pair_views(r@)[x] == sv[idx[x]] by {
                    if x < idx.len() - 1 {
                        assert(r@[x] == before[x]);
                        assert(pair_views(r@)[x] == pair_views(before)[x]);
                    }
                }
                assert forall|t: int| 0 <= t < i + 1 && sv[t].1 > 1 implies exists|x: int|
                    0 <= x < idx.len() && #[trigger] idx[x] == t by {
                    if t == i {
                        assert(idx[idx.len() - 1] == t);
                    } else {
                        let x = choose|x: int| 0 <= x < old_idx.len() && #[trigger] old_idx[x] == t;
                        assert(idx[x] == old_idx[x]);
                    }
                }
            }
        }
        i = i + 1;
    }
    proof {
        assert forall|x: int| 0 <= x < r@.len() implies #[trigger] r@[x].1 as nat == occurrences(ks, r@[x].0@)
            && r@[x].1 > 1 by {
            assert(pair_views(r@)[x] == (r@[x].0@, r@[x].1));
            assert(sorted@[idx[x]].0@ == sv[idx[x]].0);
        }
        assert(keys_distinct(pair_views(r@))) by {
            let rv = pair_views(r@);
            assert forall|a: int, b: int| 0 <= a < rv.len() && 0 <= b < rv.len() && a != b implies #[trigger] rv[a].0
                != #[trigger] rv[b].0 by {
                assert(rv[a] == sv[idx[a]] && rv[b] == sv[idx[b]]);
                if a < b {
                    assert(idx[a] < idx[b]);
                } else {
                    assert(idx[b] < idx[a]);
                }
            }
        }
        assert(ranked(pair_views(r@))) by {
            let rv = pair_views(r@);
            assert forall|a: int, b: int| 0 <= a < b < rv.len() implies !ranks_before(#[trigger] rv[b], #[trigger] rv[a]) by {
                assert(rv[a] == sv[idx[a]] && rv[b] == sv[idx[b]]);
                assert(idx[a] < idx[b]);
            }
        }
        assert forall|k: Seq<char>| #[trigger] occurrences(ks, k) > 1 implies exists|x: int|
            0 <= x < r@.len() && r@[x].0@ == k by {
            assert(m.contains_key(k));
            let t = choose|t: int| 0 <= t < sorted@.len() && sorted@[t].0@ == k;
            assert(sv[t] == (sorted@[t].0@, sorted@[t].1));
            let x = choose|x: int| 0 <= x < idx.len() && idx[x] == t;
            assert(pair_views(r@)[x] == (r@[x].0@, r@[x].1));
        }
    }
    if r.len() == 0 {
        proof {
            assert forall|k: Seq<char>| #[trigger] occurrences(ks, k) <= 1 by {
                if occurrences(ks, k) > 1 {
                    let x = choose|x: int| 0 <= x < r@.len() && r@[x].0@ == k;
                }
            }
        }
        return Err(Error::NoKeywordsFound);
    }
    proof {
        let k = r@[0].0@;
        assert(occurrences(ks, k) > 1);
    }
    Ok(r)
}

} // verus!
