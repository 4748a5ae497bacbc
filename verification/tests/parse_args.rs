use group_files_into_dir::libs::errors::Error;
use group_files_into_dir::libs::parse_args::parse_args as parse_keyword_args;
use group_files_into_dir::parse_args::{parse_args, parse_args_for_platform};

#[test]
fn parse_args_test_parse_args_ok() -> Result<(), Error> {
    let keywords = parse_keyword_args("aa,bb,cc".to_string())?;
    assert_eq!(
        keywords,
        vec!["aa".to_string(), "bb".to_string(), "cc".to_string()]
    );

    let (keywords, path) = parse_args("aa,bb,cc".to_string(), "path".to_string())?;
    println!("{:?}, {:?}", keywords, path);
    assert_eq!(
        keywords,
        vec!["aa".to_string(), "bb".to_string(), "cc".to_string()]
    );
    assert_eq!(path, "path".to_string());
    Ok(())
}

#[test]
fn parse_args_test_parse_args_keyword_is_too_short() {
    if let Err(e) = parse_keyword_args("a,b,c".to_string()) {
        assert_eq!(
            e.to_string(),
            "keyword length error: keyword length must be more than 2"
        );
    };
    if let Err(e) = parse_args("a,b,c".to_string(), "path".to_string()) {
        assert_eq!(
            e.to_string(),
            "keyword length error: keyword length must be more than 2"
        );
    };
}

#[test]
fn test_parse_args_keyword_can_parse_windows_terminal_path() {
    if let Err(e) = parse_args("a,b,c".to_string(), "path\"".to_string()) {
        assert_eq!(
            e.to_string(),
            "keyword length error: keyword length must be more than 2"
        );
    };
}

#[test]
fn too_short_keywords_are_refused() {
    assert!(parse_keyword_args("a,b,c".to_string()).is_err());
    assert!(parse_keyword_args("aa,,bb".to_string()).is_err());
    assert!(parse_keyword_args("".to_string()).is_err());
    assert!(parse_keyword_args("aa,b".to_string()).is_err());
    // one non-ASCII character is two bytes long
    assert_eq!(parse_keyword_args("é,ab".to_string()).unwrap(), vec!["é", "ab"]);
}

#[test]
fn accepted_keywords_rejoin_to_argument() {
    let arg = "inquiry,invoice,quote".to_string();
    let keywords = parse_keyword_args(arg.clone()).unwrap();
    assert_eq!(keywords.join(","), arg);
}

#[test]
fn windows_paths_lose_trailing_quotes() {
    let (_, path) = parse_args_for_platform("aa".to_string(), "C:\\dir\\\"\"".to_string(), true).unwrap();
    assert_eq!(path, "C:\\dir\\");
    let (_, path) = parse_args_for_platform("aa".to_string(), "dir\"".to_string(), false).unwrap();
    assert_eq!(path, "dir\"");
}
