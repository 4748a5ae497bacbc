use group_files_into_dir::libs::counts::KeywordCounts;
use group_files_into_dir::libs::keywords::{
    dirname_to_keyword_regexen, extract_keywords, extract_keywords_and_count_from_filenames,
    extract_keywords_from_camel_case, keyword_pattern_string, sort_by_count_and_keyword_length,
    try_dirname_to_keyword_regexen,
};
use std::collections::HashMap;

fn to_map(counts: &KeywordCounts) -> HashMap<String, usize> {
    counts.to_vec().into_iter().collect()
}

#[test]
fn test_extract_keywords_wo_spaces() {
    let filename = "(000)[111](222) [333(444)] (9)(00){zzz} aaa_bbb-ccc ddd,eee.txt".to_string();
    let result = extract_keywords(&filename, false);
    assert_eq!(
        result,
        vec!["000", "111", "222", "333(444)", "00", "zzz", "aaa", "bbb", "ccc ddd", "eee"]
    );
}

#[test]
fn test_extract_keywords_w_spaces() {
    let filename = "(000)[111](222) [333(444)] (9)(00){zzz} aaa_bbb-ccc ddd,eee.txt".to_string();
    let result = extract_keywords(&filename, true);
    assert_eq!(
        result,
        vec!["000", "111", "222", "333(444)", "00", "zzz", "aaa", "bbb", "ccc", "ddd", "eee"]
    );
}

#[test]
fn keywords_test_extract_from_filenames() {
    let filenames = vec![
        "(000)[111](222) [333(444)] (9)(00){zzz} aaa_bbb-ccc ddd,eee.txt".to_string(),
        "(000)[111](222) [444(555)] (9)(00){zzz} aaa_bbb-ccc ddd,fff.txt".to_string(),
        "(000)[111](222) [555(666)] (9)(00){zzz} aaa_bbb-ccc ddd,ggg.txt".to_string(),
    ];
    let result = extract_keywords_and_count_from_filenames(&filenames, true);
    let expected = HashMap::from_iter(vec![
        ("000".to_string(), 3),
        ("111".to_string(), 3),
        ("222".to_string(), 3),
        ("zzz".to_string(), 3),
        ("00".to_string(), 3),
        ("333(444)".to_string(), 1),
        ("444(555)".to_string(), 1),
        ("555(666)".to_string(), 1),
        ("aaa".to_string(), 3),
        ("bbb".to_string(), 3),
        ("ccc".to_string(), 3),
        ("ddd".to_string(), 3),
        ("eee".to_string(), 1),
        ("fff".to_string(), 1),
        ("ggg".to_string(), 1),
    ]);
    assert_eq!(to_map(&result), expected);
}

#[test]
fn test_sort_by_count_and_keyword_length() {
    let keyword_hash = KeywordCounts::from_pairs(vec![
        ("0".to_string(), 100),
        ("1111".to_string(), 10),
        ("222".to_string(), 10),
        ("zz".to_string(), 10),
        ("ああ".to_string(), 10),
        ("aaaaa".to_string(), 3),
        ("bbbb".to_string(), 3),
        ("ccc".to_string(), 3),
        ("dd".to_string(), 3),
        ("eeeee".to_string(), 1),
        ("いい".to_string(), 1),
        ("gg".to_string(), 1),
    ]);
    let result = sort_by_count_and_keyword_length(keyword_hash);

    let expected = vec![
        ("0".to_string(), 100),
        ("ああ".to_string(), 10),
        ("1111".to_string(), 10),
        ("222".to_string(), 10),
        ("zz".to_string(), 10),
        ("aaaaa".to_string(), 3),
        ("bbbb".to_string(), 3),
        ("ccc".to_string(), 3),
        ("dd".to_string(), 3),
        ("いい".to_string(), 1),
        ("eeeee".to_string(), 1),
        ("gg".to_string(), 1),
    ];
    assert_eq!(result, expected);
}

#[test]
fn test_extract_keywords_from_camel_case() {
    let filename = "camelCase FileName Could BeParsed".to_string();
    let result = extract_keywords_from_camel_case(&filename);
    assert_eq!(
        result,
        vec!["camel", "Case", "File", "Name", "Could", "Be", "Parsed"]
    );
}

#[test]
fn test_dirname_to_keyword_regexen() {
    let dirname = "inquiry_[a_company] (2024)".to_string();
    let result = dirname_to_keyword_regexen(&dirname);

    let result_str = result.iter().map(|re| re.as_str()).collect::<Vec<&str>>();

    let expected = vec![
        r"[\(\[\{\-_, ]?inquiry[\)\]\}\-_, ]",
        r"[\(\[\{\-_, ]?a_company[\)\]\}\-_, ]",
        r"[\(\[\{\-_, ]?2024[\)\]\}\-_, ]",
    ];

    assert!(result_str.iter().all(|x| expected.contains(&x)));
}

#[test]
fn camel_case_leading_capital_gives_empty_first_word() {
    let result = extract_keywords_from_camel_case(&"CamelCase".to_string());
    assert_eq!(result, vec!["", "Camel", "Case"]);
    let joined: String = result.concat();
    assert_eq!(joined, "CamelCase");
}

#[test]
fn camel_case_words_rejoin_to_name_without_spaces() {
    let name = "a Big_fileName 2024".to_string();
    let result = extract_keywords_from_camel_case(&name);
    assert_eq!(result.concat(), name.replace(' ', ""));
}

#[test]
fn extension_is_removed_only_when_alphanumeric() {
    assert_eq!(extract_keywords(&"report_final.tar.gz".to_string(), false), vec!["report", "final.tar"]);
    assert_eq!(extract_keywords(&"notes_v1.tx-t".to_string(), false), vec!["notes", "v1.tx", "t"].into_iter().filter(|k| k.chars().count() > 1).collect::<Vec<_>>());
    assert_eq!(extract_keywords(&"archive.".to_string(), false), vec!["archive."]);
    assert_eq!(extract_keywords(&".hidden".to_string(), false), Vec::<String>::new());
}

#[test]
fn brackets_match_shortest_and_not_across_lines() {
    // content must hold at least one character, so "()" swallows the next ')'
    assert_eq!(extract_keywords(&"x()) ab".to_string(), true), vec![")", "ab"].into_iter().filter(|k| k.chars().count() > 1).collect::<Vec<_>>());
    assert_eq!(extract_keywords(&"(ab)(cd)".to_string(), false), vec!["ab", "cd"]);
    assert_eq!(extract_keywords(&"(a\nb)".to_string(), false), vec!["(a\nb)"]);
    assert_eq!(extract_keywords(&"[unclosed".to_string(), false), vec!["[unclosed"]);
}

#[test]
fn pieces_are_trimmed_of_unicode_white_space() {
    assert_eq!(extract_keywords(&"\u{3000}ab\u{a0}_cd ".to_string(), false), vec!["ab", "cd"]);
}

#[test]
fn single_characters_are_not_keywords() {
    assert_eq!(extract_keywords(&"a_b-c,(d)[e]".to_string(), true), Vec::<String>::new());
    assert_eq!(extract_keywords(&"é_ab".to_string(), true), vec!["ab"]);
}

#[test]
fn counts_follow_occurrences() {
    let filenames = vec!["ab_ab_cd.txt".to_string(), "cd_ef.md".to_string()];
    let counts = extract_keywords_and_count_from_filenames(&filenames, false);
    assert_eq!(counts.get(&"ab".to_string()), Some(2));
    assert_eq!(counts.get(&"cd".to_string()), Some(2));
    assert_eq!(counts.get(&"ef".to_string()), Some(1));
    assert_eq!(counts.get(&"txt".to_string()), None);
    assert_eq!(counts.len(), 3);
}

#[test]
fn sort_orders_by_first_lowercase_letter_at_equal_length() {
    let counts = KeywordCounts::from_pairs(vec![
        ("Bb".to_string(), 2),
        ("aa".to_string(), 2),
        ("CC".to_string(), 2),
        ("zzz".to_string(), 1),
    ]);
    let result = sort_by_count_and_keyword_length(counts);
    assert_eq!(
        result,
        vec![
            ("aa".to_string(), 2),
            ("Bb".to_string(), 2),
            ("CC".to_string(), 2),
            ("zzz".to_string(), 1),
        ]
    );
}

#[test]
fn try_dirname_regexen_refuses_invalid_patterns() {
    assert!(try_dirname_to_keyword_regexen(&"ab(c".to_string()).is_none());
    let ok = try_dirname_to_keyword_regexen(&"inquiry".to_string()).unwrap();
    assert_eq!(ok.len(), 1);
    assert!(ok[0].is_match("inquiry_2021.txt"));
    assert!(!ok[0].is_match("inquiry.txt"));
}

#[test]
fn keyword_pattern_with_optional_end_matches_bare_keyword() {
    let p = keyword_pattern_string(&"inquiry".to_string(), true);
    assert_eq!(p, r"[\(\[\{\-_, ]?inquiry[\)\]\}\-_, ]?");
}

#[test]
fn no_keyword_outside_brackets_holds_a_delimiter() {
    let name = "[a-b] x1-y2_z3,w4 v5.txt".to_string();
    let without_space = extract_keywords(&name, false);
    assert_eq!(without_space, vec!["a-b", "x1", "y2", "z3", "w4 v5"]);
    let with_space = extract_keywords(&name, true);
    assert_eq!(with_space, vec!["a-b", "x1", "y2", "z3", "w4", "v5"]);
    for k in &with_space[1..] {
        assert!(!k.contains([',', '-', '_', ' ']));
    }
}

#[test]
fn space_splits_keywords_found_without_it() {
    let name = "(ab cd)[ef] x y_gh  ij , k  lm.txt".to_string();
    let without = extract_keywords(&name, false);
    let with = extract_keywords(&name, true);
    assert_eq!(without, vec!["ab cd", "ef", "x y", "gh  ij", "k  lm"]);
    let mut expected: Vec<String> = without[..2].to_vec();
    for k in &without[2..] {
        for p in k.split(' ') {
            let p = p.trim();
            if p.chars().count() > 1 {
                expected.push(p.to_string());
            }
        }
    }
    assert_eq!(with, expected);
}

#[test]
fn counts_add_over_name_lists() {
    let a = vec!["ab_cd.txt".to_string()];
    let b = vec!["cd_ef.txt".to_string(), "ab.md".to_string()];
    let ab: Vec<String> = a.iter().chain(b.iter()).cloned().collect();
    let ca = extract_keywords_and_count_from_filenames(&a, false);
    let cb = extract_keywords_and_count_from_filenames(&b, false);
    let cab = extract_keywords_and_count_from_filenames(&ab, false);
    for k in ["ab", "cd", "ef", "zz"] {
        let k = k.to_string();
        assert_eq!(
            cab.get(&k).unwrap_or(0),
            ca.get(&k).unwrap_or(0) + cb.get(&k).unwrap_or(0)
        );
    }
}
