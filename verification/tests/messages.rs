use group_files_into_dir::libs::errors::Error;
use group_files_into_dir::libs::stdout::{already_exists, already_moved, error, moved, print_result, Tone};

#[test]
fn error_messages() {
    assert_eq!(Error::MoveFileError("x".to_string()).to_string(), "move file error: x");
    assert_eq!(Error::KeywordLengthError("y".to_string()).to_string(), "keyword length error: y");
    assert_eq!(Error::IOError("z".to_string()).to_string(), "io error: z");
    assert_eq!(Error::NoKeywordsFound.to_string(), "no keywords found");
}

#[test]
fn result_lines() {
    let n = print_result(2, &Ok(vec![]));
    assert_eq!((n.tone, n.text.as_str()), (Tone::Info, "no files are moved."));
    let n = print_result(12, &Ok(vec!["a".to_string(); 105]));
    assert_eq!((n.tone, n.text.as_str()), (Tone::Success, "moved 105 files to 12 directories."));
    let n = print_result(0, &Ok(vec!["a".to_string()]));
    assert_eq!(n.text, "moved 1 files to 0 directories.");
    let n = print_result(1, &Err(Error::NoKeywordsFound));
    assert_eq!((n.tone, n.text.as_str()), (Tone::Error, "no keywords found"));
}

#[test]
fn file_lines() {
    assert_eq!(already_moved("f".to_string()).text, "already moved: f");
    assert_eq!(already_exists("f".to_string()).text, "already exists: f");
    assert_eq!(moved("f".to_string(), "d/f".to_string()).text, "moved: f → d/f");
    assert_eq!(error("boom".to_string()).tone, Tone::Error);
}
