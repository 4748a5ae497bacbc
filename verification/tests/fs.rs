use group_files_into_dir::libs::errors::Error;
use group_files_into_dir::libs::fs::{
    check_path, filename_matches_keyword, lists_as_dir, lists_as_file, missing_base_error, normalize_terminal_path, parse_path,
    plan_keyword_moves, MoveLog, MoveOutcome,
};
use group_files_into_dir::libs::stdout::Tone;
use std::path::PathBuf;

#[test]
fn test_check_path_return_error_unless_path_exists() {
    if let Err(e) = parse_path("hogehoge".to_string()) {
        assert_eq!(e.to_string(), "io error: path hogehoge does not exist");
    };
}

#[test]
fn test_check_path_can_parse_windows_terminal_path() {
    if let Ok(pathbuf) = parse_path("path\"".to_string()) {
        assert_eq!(PathBuf::from(pathbuf), PathBuf::from("path"));
    };
}

#[test]
fn existing_path_is_accepted() {
    assert_eq!(parse_path(".".to_string()).unwrap(), ".");
}

#[test]
fn check_path_reports_missing_path() {
    let e = check_path("nowhere".to_string(), false).unwrap_err();
    assert_eq!(e.to_string(), "io error: path nowhere does not exist");
    assert_eq!(check_path("here".to_string(), true).unwrap(), "here");
    assert_eq!(normalize_terminal_path("a\"\"".to_string(), true), "a");
    assert_eq!(
        missing_base_error(&"base".to_string()).to_string(),
        "io error: path base is not exists"
    );
}

#[test]
fn matching_ignores_case() {
    assert!(filename_matches_keyword(&"Invoice_1.TXT".to_string(), &"INVOICE".to_string()));
    assert!(!filename_matches_keyword(&"invoice_1.txt".to_string(), &"inquiry".to_string()));
}

#[test]
fn plan_skips_names_equal_to_a_keyword() {
    let files = vec![
        "inquiry_1.txt".to_string(),
        "inquiry".to_string(),
        "inquiry_invoice.pdf".to_string(),
        "questionnaire_1.xls".to_string(),
    ];
    let keywords = vec!["inquiry".to_string(), "invoice".to_string()];
    let plan = plan_keyword_moves(&files, &keywords);
    assert_eq!(
        plan,
        vec![
            ("inquiry_1.txt".to_string(), "inquiry".to_string()),
            ("inquiry_invoice.pdf".to_string(), "inquiry".to_string()),
            ("inquiry_invoice.pdf".to_string(), "invoice".to_string()),
        ]
    );
}

#[test]
fn move_log_records_and_reports() {
    let mut log = MoveLog::new();
    let f = "a_1.txt".to_string();
    let d = "a1".to_string();
    let n = log.record(&f, &d, MoveOutcome::Moved("base/a1/a_1.txt".to_string()), true).unwrap().unwrap();
    assert_eq!(n.tone, Tone::Info);
    assert_eq!(n.text, "moved: a_1.txt → base/a1/a_1.txt");
    let n = log.record(&f, &d, MoveOutcome::SourceMissing, true).unwrap().unwrap();
    assert_eq!(n.text, "already moved: a_1.txt");
    assert_eq!(n.tone, Tone::Warning);
    let n = log.record(&f, &d, MoveOutcome::DestinationExists, false).unwrap().unwrap();
    assert_eq!(n.text, "already exists: a_1.txt");
    assert!(log.record(&"b".to_string(), &d, MoveOutcome::Moved("x".to_string()), false).unwrap().is_none());
    assert_eq!(log.moved_files(), vec!["base/a1/a_1.txt".to_string(), "x".to_string()]);
    assert_eq!(log.updated_dir_count(), 1);
    let e = log.record(&f, &d, MoveOutcome::RenameFailed("denied".to_string()), false).unwrap_err();
    assert_eq!(e.to_string(), "move file error: denied");
    let e = log
        .record(&f, &d, MoveOutcome::DirectoryFailed(Error::IOError("full".to_string())), false)
        .unwrap_err();
    assert_eq!(e.to_string(), "io error: full");
    assert_eq!(log.moved_files().len(), 2);
}

#[test]
fn keyword_plan_moves_six_of_seven_files() {
    let files: Vec<String> = [
        "inquiry_1.txt",
        "inquiry_2.md",
        "invoice_1.txt",
        "invoice_2.md",
        "invoice_3.pdf",
        "inquiry_invoice.pdf",
        "questionnaire_1.xls",
    ]
    .iter()
    .map(|s| s.to_string())
    .collect();
    let keywords = vec![String::from("inquiry"), String::from("invoice")];
    let plan = plan_keyword_moves(&files, &keywords);
    assert_eq!(plan.len(), 7);
    let mut log = MoveLog::new();
    let mut gone: Vec<String> = vec![];
    for (file, keyword) in plan {
        let outcome = if gone.contains(&file) {
            MoveOutcome::SourceMissing
        } else {
            gone.push(file.clone());
            MoveOutcome::Moved(format!("{}/{}", keyword, file))
        };
        log.record(&file, &keyword, outcome, false).unwrap();
    }
    assert_eq!(log.moved_files().len(), 6);
    assert_eq!(log.updated_dir_count(), 2);
}

#[test]
fn path_plan_keeps_names_equal_to_keywords() {
    let files = vec!["dir/Inquiry".to_string(), "dir/other".to_string()];
    let keywords = vec!["inquiry".to_string()];
    assert_eq!(
        group_files_into_dir::libs::fs::plan_path_moves(&files, &keywords),
        vec![("dir/Inquiry".to_string(), "inquiry".to_string())]
    );
    assert_eq!(
        plan_keyword_moves(&vec!["inquiry".to_string()], &keywords),
        Vec::<(String, String)>::new()
    );
}

#[test]
fn hidden_entries_are_not_listed() {
    assert!(lists_as_file(&"a.txt".to_string(), false));
    assert!(!lists_as_file(&".a.txt".to_string(), false));
    assert!(!lists_as_file(&"dir".to_string(), true));
    assert!(lists_as_dir(&"dir".to_string(), true));
    assert!(!lists_as_dir(&".git".to_string(), true));
    assert!(!lists_as_dir(&"a.txt".to_string(), false));
}
