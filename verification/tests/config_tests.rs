use hld::error::{Error, GlobResultExt, IOResultExt};
use hld::globs::{recursive_glob, sort_dedup_paths, validate_pattern, validate_patterns};
use hld::logger::{message_header, Level, Logger};
use hld::strategy::{strategy_from_name, Strategy};

#[test]
fn invalid_glob() {
    // an unmatched `[` is a pattern-syntax error naming the pattern, with
    // glob's own position and message
    let r = validate_pattern("foua/[etsin");
    match r {
        Err(Error::GlobPattern { glob, pos, msg }) => {
            assert_eq!(glob, "foua/[etsin");
            assert_eq!(pos, 5);
            assert_eq!(msg, "invalid range pattern");
        },
        _ => panic!("expected a pattern-syntax error"),
    }
    assert!(validate_pattern("*.txt").is_ok());
    assert!(validate_pattern("hop/**/*").is_ok());
}

#[test]
fn invalid_glob_among_many() {
    let patterns = vec!["*.txt".to_string(), "x[".to_string()];
    match validate_patterns(&patterns) {
        Err(Error::GlobPattern { glob, .. }) => assert_eq!(glob, "x["),
        _ => panic!("expected a pattern-syntax error"),
    }
    assert!(validate_patterns(&vec!["*.rs".to_string(), "src/**/*".to_string()]).is_ok());
}

#[test]
fn recursive_pattern() {
    assert_eq!(recursive_glob("hop"), "hop/**/*");
    assert_eq!(recursive_glob("a/b"), "a/b/**/*");
}

#[test]
fn sorting_and_deduplication() {
    let paths = vec![
        "b.txt".to_string(),
        "a.txt".to_string(),
        "c.txt".to_string(),
        "a.txt".to_string(),
        "b.txt".to_string(),
    ];
    let sorted = sort_dedup_paths(&paths);
    assert_eq!(sorted, vec!["a.txt".to_string(), "b.txt".to_string(), "c.txt".to_string()]);
    assert_eq!(sort_dedup_paths(&Vec::new()).len(), 0);
    // byte-wise order puts multi-byte characters after ASCII
    let mixed = vec!["caf\u{e9}".to_string(), "cafz".to_string(), "cafa".to_string()];
    let sorted = sort_dedup_paths(&mixed);
    assert_eq!(
        sorted,
        vec!["cafa".to_string(), "cafz".to_string(), "caf\u{e9}".to_string()]
    );
}

#[test]
fn strategies() {
    assert_eq!(strategy_from_name("hardlink").unwrap(), Strategy::HardLink);
    assert_eq!(strategy_from_name("symlink").unwrap(), Strategy::SymLink);
    assert_eq!(strategy_from_name("reflink").unwrap(), Strategy::RefLink);
    match strategy_from_name("dumb") {
        Err(Error::UnsupportedStrategy { name }) => assert_eq!(name, "dumb"),
        _ => panic!("expected an unsupported-strategy error"),
    }
    assert_eq!(Strategy::HardLink.label(), "hardlink");
    assert_eq!(Strategy::SymLink.label(), "symlink");
    assert_eq!(Strategy::RefLink.label(), "reflink");
}

#[test]
fn log_levels() {
    // the logger lets a message through when its verbosity does not
    // exceed the configured one
    let info = Logger::new();
    assert!(info.enabled(Level::Error));
    assert!(info.enabled(Level::Info));
    assert!(!info.enabled(Level::Debug));
    assert!(!info.enabled(Level::Trace));

    let debug = Logger::new().level(Level::Debug);
    assert!(debug.enabled(Level::Debug));
    assert!(!debug.enabled(Level::Trace));

    let error = Logger::new().level(Level::Error);
    assert!(error.enabled(Level::Error));
    assert!(!error.enabled(Level::Warn));

    let trace = Logger::new().level(Level::Trace);
    assert!(trace.enabled(Level::Trace));
}

#[test]
fn message_headers() {
    assert_eq!(message_header(Level::Info), "");
    assert_eq!(message_header(Level::Error), "error: ");
    assert_eq!(message_header(Level::Warn), "warn: ");
    assert_eq!(message_header(Level::Debug), "debug: ");
    assert_eq!(message_header(Level::Trace), "trace: ");
    assert_eq!(Level::Debug.label(), "debug");
}

#[test]
fn io_errors_carry_their_path() {
    let ok: Result<u32, std::io::Error> = Ok(7);
    assert_eq!(ok.path_ctx("foo.txt").unwrap(), 7);
    let err: Result<u32, std::io::Error> =
        Err(std::io::Error::new(std::io::ErrorKind::PermissionDenied, "denied"));
    match err.path_ctx("foo.txt") {
        Err(Error::PathIo { path, source }) => {
            assert_eq!(path, "foo.txt");
            assert_eq!(source.kind(), std::io::ErrorKind::PermissionDenied);
        },
        _ => panic!("expected a path error"),
    }
}

#[test]
fn glob_errors_carry_their_pattern() {
    let err: Result<u32, glob::PatternError> = glob::Pattern::new("a[").map(|_| 0);
    match err.glob_ctx("a[") {
        Err(Error::GlobPattern { glob, .. }) => assert_eq!(glob, "a["),
        _ => panic!("expected a pattern-syntax error"),
    }
    let ok: Result<u32, glob::PatternError> = Ok(3);
    assert_eq!(ok.glob_ctx("*").unwrap(), 3);
}
