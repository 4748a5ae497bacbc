use group_files_into_dir::libs::extract_keywords::{
    extract_file_basename, extract_keywords, extract_keywords_from_filenames,
};
use std::collections::HashMap;

#[test]
fn test_extract_keywords() {
    let filename = "(000)[111](222) [333(444)] (9)(00){zzz} aaa_bbb-ccc ddd,eee.txt".to_string();
    let result = extract_keywords(&filename);
    assert_eq!(
        result,
        vec!["000", "111", "222", "333(444)", "00", "zzz", "aaa", "bbb", "ccc", "ddd", "eee"]
    );
}

#[test]
fn extract_keywords_test_extract_from_filenames() {
    let filenames = vec![
        "(000)[111](222) [333(444)] (9)(00){zzz} aaa_bbb-ccc ddd,eee.txt".to_string(),
        "(000)[111](222) [444(555)] (9)(00){zzz} aaa_bbb-ccc ddd,fff.txt".to_string(),
        "(000)[111](222) [555(666)] (9)(00){zzz} aaa_bbb-ccc ddd,ggg.txt".to_string(),
    ];
    let result = extract_keywords_from_filenames(&filenames);
    let expected = HashMap::from_iter(vec![
        ("000".to_string(), 3),
        ("111".to_string(), 3),
        ("222".to_string(), 3),
        ("00".to_string(), 3),
        ("zzz".to_string(), 3),
        ("333(444)".to_string(), 1),
        ("444(555)".to_string(), 1),
        ("555(666)".to_string(), 1),
        ("aaa".to_string(), 3),
        ("bbb".to_string(), 3),
        ("ccc".to_string(), 3),
        ("ddd".to_string(), 3),
        ("eee".to_string(), 1),
        ("fff".to_string(), 1),
        ("ggg".to_string(), 1),
    ]);
    let result: HashMap<String, usize> = result.to_vec().into_iter().collect();
    assert_eq!(result, expected);
}

#[test]
fn basename_drops_only_the_last_extension() {
    assert_eq!(extract_file_basename(&"a.b.txt".to_string()), "a.b");
    assert_eq!(extract_file_basename(&"noext".to_string()), "noext");
    assert_eq!(extract_file_basename(&"x.日本".to_string()), "x.日本");
}

#[test]
fn plain_rules_keep_untrimmed_pieces_and_count_characters() {
    // a keyword holds more than one character, whatever its length in bytes
    assert_eq!(extract_keywords(&"é_ab".to_string()), vec!["ab"]);
    assert_eq!(extract_keywords(&"(あ) b.txt".to_string()), Vec::<String>::new());
    assert_eq!(extract_keywords_from_filenames(&vec!["(あ) b.txt".to_string()]).len(), 0);
    assert_eq!(extract_keywords(&"ab\tcd_e".to_string()), vec!["ab\tcd"]);
}
