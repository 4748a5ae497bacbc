//! How often each keyword occurs: a small map from keywords to counts.
use vstd::prelude::*;

verus! {

/// The map that `pairs` describes, later pairs overriding earlier ones.
pub open spec fn map_of(pairs: Seq<(Seq<char>, usize)>) -> Map<Seq<char>, nat>
    decreases pairs.len(),
{
    if pairs.len() == 0 {
        Map::empty()
    } else {
        map_of(pairs.drop_last()).insert(pairs.last().0, pairs.last().1 as nat)
    }
}

/// No key occurs twice in `pairs`.
pub open spec fn keys_distinct(pairs: Seq<(Seq<char>, usize)>) -> bool {
    forall|i: int, j: int|
        0 <= i < pairs.len() && 0 <= j < pairs.len() && i != j ==> #[trigger] pairs[i].0
            != #[trigger] pairs[j].0
}

/// The keys of `pairs` are the keys of its map, and each key maps to its count.
pub proof fn lemma_map_of(pairs: Seq<(Seq<char>, usize)>)
    requires
        keys_distinct(pairs),
    ensures
        map_of(pairs).dom().finite(),
        map_of(pairs).dom().len() == pairs.len(),
        forall|i: int|
            0 <= i < pairs.len() ==> #[trigger] map_of(pairs).contains_key(pairs[i].0)
                && map_of(pairs)[pairs[i].0] == pairs[i].1 as nat,
        forall|k: Seq<char>|
            #[trigger] map_of(pairs).contains_key(k) ==> exists|i: int|
                0 <= i < pairs.len() && pairs[i].0 == k,
    decreases pairs.len(),
{
    if pairs.len() > 0 {
        let prev = pairs.drop_last();
        assert(keys_distinct(prev)) by {
            assert forall|i: int, j: int|
                0 <= i < prev.len() && 0 <= j < prev.len() && i != j implies #[trigger] prev[i].0
                != #[trigger] prev[j].0 by {
                assert(prev[i] == pairs[i] && prev[j] == pairs[j]);
            }
        }
        lemma_map_of(prev);
        let last = pairs.last();
        assert(!map_of(prev).contains_key(last.0)) by {
            if map_of(prev).contains_key(last.0) {
                let i = choose|i: int| 0 <= i < prev.len() && prev[i].0 == last.0;
                assert(pairs[i].0 == pairs[pairs.len() - 1].0);
            }
        }
        assert forall|i: int| 0 <= i < pairs.len() implies #[trigger] map_of(
            pairs,
        ).contains_key(pairs[i].0) && map_of(pairs)[pairs[i].0] == pairs[i].1 as nat by {
            if i < pairs.len() - 1 {
                assert(prev[i] == pairs[i]);
                assert(pairs[i].0 != pairs[pairs.len() - 1].0);
            }
        }
        assert forall|k: Seq<char>| #[trigger] map_of(pairs).contains_key(k) implies exists|i: int|
            0 <= i < pairs.len() && pairs[i].0 == k by {
            if k != last.0 {
                let i = choose|i: int| 0 <= i < prev.len() && prev[i].0 == k;
                assert(pairs[i] == prev[i]);
            } else {
                assert(pairs[pairs.len() - 1].0 == k);
            }
        }
    }
}

/// Replacing the count of a present key changes only that key's count.
proof fn lemma_map_of_update(pairs: Seq<(Seq<char>, usize)>, i: int, c: usize)
    requires
        keys_distinct(pairs),
        0 <= i < pairs.len(),
    ensures
        keys_distinct(pairs.update(i, (pairs[i].0, c))),
        map_of(pairs.update(i, (pairs[i].0, c))) == map_of(pairs).insert(pairs[i].0, c as nat),
    decreases pairs.len(),
{
    let upd = pairs.update(i, (pairs[i].0, c));
    assert(keys_distinct(upd)) by {
        assert forall|a: int, b: int|
            0 <= a < upd.len() && 0 <= b < upd.len() && a != b implies #[trigger] upd[a].0
            != #[trigger] upd[b].0 by {
            assert(upd[a].0 == pairs[a].0 && upd[b].0 == pairs[b].0);
        }
    }
    let prev = pairs.drop_last();
    if i == pairs.len() - 1 {
        assert(upd.drop_last() == prev);
        assert(map_of(upd) == map_of(prev).insert(pairs[i].0, c as nat));
        assert(map_of(pairs).insert(pairs[i].0, c as nat) =~= map_of(prev).insert(
            pairs[i].0,
            c as nat,
        ));
    } else {
        assert(keys_distinct(prev)) by {
            assert forall|a: int, b: int|
                0 <= a < prev.len() && 0 <= b < prev.len() && a != b implies #[trigger] prev[a].0
                != #[trigger] prev[b].0 by {
                assert(prev[a] == pairs[a] && prev[b] == pairs[b]);
            }
        }
        lemma_map_of_update(prev, i, c);
        assert(upd.drop_last() == prev.update(i, (prev[i].0, c)));
        assert(upd.last() == pairs.last());
        assert(pairs[i].0 != pairs.last().0);
        assert(map_of(upd) =~= map_of(pairs).insert(pairs[i].0, c as nat));
    }
}

/// Keywords and how often each occurs. No keyword is held twice.
pub struct KeywordCounts {
    entries: Vec<(String, usize)>,
}

/// The entries of a vector of keyword and count pairs, by view.
pub open spec fn pair_views(v: Seq<(String, usize)>) -> Seq<(Seq<char>, usize)> {
    v.map_values(|e: (String, usize)| (e.0@, e.1))
}

impl KeywordCounts {
    /// The entries, in the order in which their keywords were first inserted.
    pub closed spec fn pairs(self) -> Seq<(Seq<char>, usize)> {
        pair_views(self.entries@)
    }

    #[verifier::type_invariant]
    closed spec fn well_formed(self) -> bool {
        keys_distinct(pair_views(self.entries@))
    }
}

impl View for KeywordCounts {
    type V = Map<Seq<char>, nat>;

    closed spec fn view(&self) -> Map<Seq<char>, nat> {
        map_of(pair_views(self.entries@))
    }
}

impl KeywordCounts {
    /// An empty map.
    pub fn new() -> (r: KeywordCounts)
        ensures
            r@ == Map::<Seq<char>, nat>::empty(),
    {
        let r = KeywordCounts { entries: Vec::new() };
        assert(pair_views(r.entries@) =~= Seq::<(Seq<char>, usize)>::empty());
        r
    }

    /// The number of keywords held.
    pub fn len(&self) -> (n: usize)
        ensures
            n == self@.len(),
    {
        proof {
            use_type_invariant(self);
            lemma_map_of(self.pairs());
        }
        self.entries.len()
    }

    /// Where `key` stands among the entries, if it is held.
    fn position(&self, key: &String) -> (r: Option<usize>)
        ensures
            r matches Some(i) ==> i < self.pairs().len() && self.pairs()[i as int].0 == key@,
            r is None ==> !self@.contains_key(key@),
    {
        proof {
            use_type_invariant(self);
            lemma_map_of(self.pairs());
        }
        let mut i: usize = 0;
        while i < self.entries.len()
            invariant
                i <= self.entries@.len(),
                self.pairs() == pair_views(self.entries@),
                forall|j: int| 0 <= j < i ==> self.pairs()[j].0 != key@,
            decreases self.entries@.len() - i,
        {
            if self.entries[i].0 == *key {
                return Some(i);
            }
            i = i + 1;
        }
        None
    }

    /// The count of `key`, if it is held.
    pub fn get(&self, key: &String) -> (r: Option<usize>)
        ensures
            r matches Some(c) ==> self@.contains_key(key@) && self@[key@] == c as nat,
            r is None ==> !self@.contains_key(key@),
    {
        proof {
            use_type_invariant(self);
            lemma_map_of(self.pairs());
        }
        match self.position(key) {
            Some(i) => {
                assert(self.pairs()[i as int] == (self.entries@[i as int].0@, self.entries@[i as int].1));
                assert(map_of(self.pairs()).contains_key(self.pairs()[i as int].0));
                Some(self.entries[i].1)
            },
            None => None,
        }
    }

    /// Sets the count of `key`, as `HashMap::insert` does: a held key keeps its
    /// place and takes the new count, a new key is added.
    pub fn insert(&mut self, key: String, count: usize)
        ensures
            final(self)@ == old(self)@.insert(key@, count as nat),
    {
        proof {
            use_type_invariant(&*self);
            lemma_map_of(self.pairs());
        }
        match self.position(&key) {
            Some(i) => {
                proof {
                    lemma_map_of_update(self.pairs(), i as int, count);
                }
                let ghost before = self.entries@;
                let mut entries: Vec<(String, usize)> = Vec::new();
                std::mem::swap(&mut entries, &mut self.entries);
                let k = entries[i].0.clone();
                entries.set(i, (k, count));
                assert(pair_views(entries@) =~= pair_views(before).update(
                    i as int,
                    (pair_views(before)[i as int].0, count),
                ));
                self.entries = entries;
            },
            None => {
                let ghost before = self.entries@;
                let ghost kv = key@;
                let mut entries: Vec<(String, usize)> = Vec::new();
                std::mem::swap(&mut entries, &mut self.entries);
                entries.push((key, count));
                assert(pair_views(entries@) =~= pair_views(before).push((kv, count)));
                assert(keys_distinct(pair_views(entries@))) by {
                    let ps = pair_views(entries@);
                    assert forall|a: int, b: int|
                        0 <= a < ps.len() && 0 <= b < ps.len() && a != b implies #[trigger] ps[a].0
                        != #[trigger] ps[b].0 by {
                        if a < ps.len() - 1 && b < ps.len() - 1 {
                            assert(ps[a] == pair_views(before)[a] && ps[b] == pair_views(before)[b]);
                        } else if a == ps.len() - 1 {
                            assert(map_of(pair_views(before)).contains_key(ps[b].0));
                        } else {
                            assert(map_of(pair_views(before)).contains_key(ps[a].0));
                        }
                    }
                }
                assert(pair_views(entries@).drop_last() == pair_views(before));
                self.entries = entries;
            },
        }
    }

    /// Adds one to the count of `key`; a new key starts at one.
    pub fn increment(&mut self, key: &String)
        requires
            old(self)@.contains_key(key@) ==> old(self)@[key@] < usize::MAX,
        ensures
            final(self)@ == old(self)@.insert(
                key@,
                if old(self)@.contains_key(key@) {
                    old(self)@[key@] + 1
                } else {
                    1
                },
            ),
    {
        match self.get(key) {
            Some(c) => self.insert(key.clone(), c + 1),
            None => self.insert(key.clone(), 1),
        }
    }

    /// The map that the pairs give when inserted in order, as `HashMap::from_iter`
    /// builds it: where a keyword repeats, its last count stands.
    pub fn from_pairs(pairs: Vec<(String, usize)>) -> (r: KeywordCounts)
        ensures
            r@ == map_of(pair_views(pairs@)),
    {
        let mut r = KeywordCounts::new();
        let mut i: usize = 0;
        while i < pairs.len()
            invariant
                i <= pairs@.len(),
                r@ == map_of(pair_views(pairs@).take(i as int)),
            decreases pairs@.len() - i,
        {
            let ghost ps = pair_views(pairs@);
            assert(ps.take(i + 1).drop_last() == ps.take(i as int));
            assert(ps.take(i + 1).last() == (pairs@[i as int].0@, pairs@[i as int].1));
            r.insert(pairs[i].0.clone(), pairs[i].1);
            i = i + 1;
        }
        assert(pair_views(pairs@).take(pairs@.len() as int) == pair_views(pairs@));
        r
    }

    /// The entries as keyword and count pairs, each keyword once.
    pub fn to_vec(&self) -> (r: Vec<(String, usize)>)
        ensures
            pair_views(r@) == self.pairs(),
            keys_distinct(pair_views(r@)),
            self@ == map_of(pair_views(r@)),
            self@.dom().finite(),
            self@.len() == r@.len(),
    {
        proof {
            use_type_invariant(self);
            lemma_map_of(self.pairs());
        }
        let mut r: Vec<(String, usize)> = Vec::new();
        let mut i: usize = 0;
        while i < self.entries.len()
            invariant
                i <= self.entries@.len(),
                self.pairs() == pair_views(self.entries@),
                pair_views(r@) == self.pairs().take(i as int),
            decreases self.entries@.len() - i,
        {
            let ghost before = r@;
            let e = (self.entries[i].0.clone(), self.entries[i].1);
            r.push(e);
            assert(pair_views(r@) =~= self.pairs().take(i + 1)) by {
                assert(pair_views(r@) =~= pair_views(before).push(self.pairs()[i as int]));
            }
            i = i + 1;
        }
        assert(self.pairs().take(self.entries@.len() as int) == self.pairs());
        r
    }
}

/// The counts of the keywords in `ks`, one by one as `ks` lists them.
pub open spec fn tally(ks: Seq<Seq<char>>) -> Map<Seq<char>, nat>
    decreases ks.len(),
{
    if ks.len() == 0 {
        Map::empty()
    } else {
        let m = tally(ks.drop_last());
        let k = ks.last();
        m.insert(
            k,
            if m.contains_key(k) {
                m[k] + 1
            } else {
                1
            },
        )
    }
}

/// How many times `k` occurs in `ks`.
pub open spec fn occurrences(ks: Seq<Seq<char>>, k: Seq<char>) -> nat
    decreases ks.len(),
{
    if ks.len() == 0 {
        0
    } else {
        occurrences(ks.drop_last(), k) + if ks.last() == k {
            1nat
        } else {
            0nat
        }
    }
}

/// The tally holds exactly the keywords that occur, each with the number of its
/// occurrences.
pub proof fn lemma_tally_occurrences(ks: Seq<Seq<char>>)
    ensures
        forall|k: Seq<char>|
            #![trigger tally(ks).contains_key(k)]
            #![trigger occurrences(ks, k)]
            tally(ks).contains_key(k) <==> occurrences(ks, k) > 0,
        forall|k: Seq<char>| #[trigger] tally(ks).contains_key(k) ==> tally(ks)[k] == occurrences(ks, k),
        forall|k: Seq<char>| #[trigger] tally(ks).contains_key(k) ==> tally(ks)[k] <= ks.len(),
    decreases ks.len(),
{
    if ks.len() > 0 {
        let p = ks.drop_last();
        lemma_tally_occurrences(p);
        assert forall|k: Seq<char>| #[trigger] tally(ks).contains_key(k) <==> occurrences(ks, k) > 0 by {
            assert(tally(p).contains_key(k) <==> occurrences(p, k) > 0);
        }
        assert forall|k: Seq<char>| #[trigger] tally(ks).contains_key(k) implies tally(ks)[k]
            == occurrences(ks, k) && tally(ks)[k] <= ks.len() by {
            assert(tally(p).contains_key(k) <==> occurrences(p, k) > 0);
        }
    }
}

/// The count of `k` in `m`; 0 where `m` does not hold `k`.
pub open spec fn count_in(m: Map<Seq<char>, nat>, k: Seq<char>) -> nat {
    if m.contains_key(k) {
        m[k]
    } else {
        0
    }
}

/// The occurrences in two lists one after the other are the sum of their occurrences.
pub proof fn lemma_occurrences_concat(a: Seq<Seq<char>>, b: Seq<Seq<char>>, k: Seq<char>)
    ensures
        occurrences(a + b, k) == occurrences(a, k) + occurrences(b, k),
    decreases b.len(),
{
    if b.len() == 0 {
        assert(a + b == a);
    } else {
        assert((a + b).drop_last() == a + b.drop_last());
        assert((a + b).last() == b.last());
        lemma_occurrences_concat(a, b.drop_last(), k);
    }
}

/// The tally of two lists one after the other is the sum of their tallies, key by key.
pub proof fn lemma_tally_concat(a: Seq<Seq<char>>, b: Seq<Seq<char>>)
    ensures
        forall|k: Seq<char>|
            #[trigger] count_in(tally(a + b), k) == count_in(tally(a), k) + count_in(tally(b), k),
{
    lemma_tally_occurrences(a);
    lemma_tally_occurrences(b);
    lemma_tally_occurrences(a + b);
    assert forall|k: Seq<char>| #[trigger] count_in(tally(a + b), k) == count_in(tally(a), k)
        + count_in(tally(b), k) by {
        lemma_occurrences_concat(a, b, k);
    }
}

} // verus!
