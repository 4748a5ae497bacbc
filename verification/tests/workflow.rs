use group_files_into_dir::cli::{select_mode, Args, Mode};
use group_files_into_dir::libs::errors::Error;
use group_files_into_dir::workflow::dirs_as_keywords::{dir_matchers, plan_dir_moves};
use group_files_into_dir::workflow::interactive::candidate_keywords;

#[test]
fn candidates_are_keywords_seen_more_than_once() {
    let filenames = vec![
        "inquiry_2021-01-01.txt".to_string(),
        "inquiry_2022-01-01.txt".to_string(),
        "invoice_2021-02-01.txt".to_string(),
        "invoice_2022-02-01.txt".to_string(),
        "questionnaire_2021-03-01.txt".to_string(),
    ];
    let expect = vec!["01", "2021", "inquiry", "invoice", "2022", "02"];
    let result = candidate_keywords(&filenames).unwrap();
    assert!(result.iter().all(|(k, c)| expect.contains(&k.as_str()) && *c > 1));
    assert_eq!(result[0], ("01".to_string(), 7));
    assert_eq!(result[1], ("2021".to_string(), 3));
    assert_eq!(result.len(), expect.len());
}

#[test]
fn no_repeated_keyword_is_an_error() {
    let filenames = vec!["alpha.txt".to_string(), "beta.txt".to_string()];
    assert!(matches!(candidate_keywords(&filenames), Err(Error::NoKeywordsFound)));
}

#[test]
fn directories_take_their_files() {
    let dirs = vec!["inquiry".to_string(), "invoice".to_string()];
    let files = vec![
        "inquiry_2021-01-01.txt".to_string(),
        "invoice_2021-01-01.txt".to_string(),
        "questionnaire_2021-01-01.txt".to_string(),
    ];
    let matchers = dir_matchers(&dirs).unwrap().unwrap();
    let plan = plan_dir_moves(&files, &matchers);
    assert_eq!(
        plan,
        vec![
            ("inquiry_2021-01-01.txt".to_string(), "inquiry".to_string()),
            ("invoice_2021-01-01.txt".to_string(), "invoice".to_string()),
        ]
    );
}

#[test]
fn no_directory_is_an_error_and_bad_pattern_is_none() {
    assert!(matches!(dir_matchers(&vec![]), Err(Error::NoKeywordsFound)));
    assert!(dir_matchers(&vec!["ab(c".to_string()]).unwrap().is_none());
}

#[test]
fn modes() {
    let args = Args { keywords: Some("a,b".to_string()), path: ".".to_string(), verbose: false, dir_as_keyword: true };
    assert!(matches!(select_mode(&args), Mode::UseKeywords(k) if k == "a,b"));
    let args = Args { keywords: None, path: ".".to_string(), verbose: false, dir_as_keyword: true };
    assert!(matches!(select_mode(&args), Mode::DirsAsKeywords));
    let args = Args { keywords: None, path: ".".to_string(), verbose: false, dir_as_keyword: false };
    assert!(matches!(select_mode(&args), Mode::Interactive));
}
