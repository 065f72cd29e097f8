use commit_graph::errors::{
    decimal_string, indent, join, repeat_space, split_lines, Error, ErrorSource, IoFailure,
    IoResultExt, Result, ResultExt,
};

/// An error with the two ways of writing it that `format!` asks for.
struct Shown(Error);

impl std::fmt::Display for Shown {
    fn fmt(&self, f: &mut std::fmt::Formatter) -> std::fmt::Result {
        f.write_str(&self.0.to_display_string())
    }
}

impl std::fmt::Debug for Shown {
    fn fmt(&self, f: &mut std::fmt::Formatter) -> std::fmt::Result {
        f.write_str(&self.0.to_debug_string())
    }
}

#[test]
fn test_error_format() {
    let mut e = Error::blank();

    assert_eq!(format!("{}", Shown(e)), "");

    // Attach messages.

    e = Error::blank();
    e = e.message("Error Message 1");
    e = e.message("Error Message 2");
    let shown = Shown(e);
    assert_eq!(
        format!("{}", &shown),
        r#"Error Message 1
Error Message 2"#
    );
    e = shown.0;

    // Attach error sources.
    e = e.source(Error::blank().message("Inner Error 1"));
    e = e.source(
        Error::blank()
            .message("Inner Error 2")
            .source(Error::blank().message("Nested Error 1")),
    );
    let shown = Shown(e);
    assert_eq!(
        format!("{}", &shown),
        r#"Error Message 1
Error Message 2
Caused by 2 errors:
- Inner Error 1
- Inner Error 2
  Caused by 1 errors:
  - Nested Error 1"#
    );
    e = shown.0;

    // Mark as data corruption.
    e = e.mark_corruption();
    assert_eq!(
        format!("{:?}", &Shown(e)),
        r#"Error Message 1
Error Message 2
(This error is considered as a data corruption)
Caused by 2 errors:
- Inner Error 1
- Inner Error 2
  Caused by 1 errors:
  - Nested Error 1"#
    );
}

#[test]
fn test_result_ext() {
    let result: Result<()> = Err(Error::blank()).corruption();
    assert!(result.unwrap_err().is_corruption());
}

#[test]
fn test_inherit_corruption() {
    assert!(!Error::blank().is_corruption());
    assert!(!Error::blank().source(Error::blank()).is_corruption());
    assert!(Error::blank()
        .source(Error::blank().mark_corruption())
        .is_corruption());
    assert!(Error::blank()
        .source(Error::blank().source(Error::blank().mark_corruption()))
        .is_corruption());
}

#[test]
fn test_io_result_ext() {
    let err = io_result().context("a.txt", "cannot open for reading");
    assert_eq!(
        format!("{}", Shown(err.unwrap_err())),
        r#""a.txt": cannot open for reading
Caused by 1 errors:
- io::Error: something wrong happened"#
    );

    let name = "b.txt";
    let err = io_result().context(name, || format!("cannot open {}", &name));
    assert_eq!(
        format!("{}", Shown(err.unwrap_err())),
        r#""b.txt": cannot open b.txt
Caused by 1 errors:
- io::Error: something wrong happened"#
    );
}

fn io_result() -> std::io::Result<()> {
    Err(std::io::Error::new(
        std::io::ErrorKind::Other,
        "io::Error: something wrong happened",
    ))
}

fn io_failure(kind: std::io::ErrorKind) -> std::io::Result<u8> {
    Err(std::io::Error::new(kind, "short read"))
}

#[test]
fn test_io_corruption_kinds() {
    assert!(io_failure(std::io::ErrorKind::UnexpectedEof)
        .context("log", "read")
        .unwrap_err()
        .is_corruption());
    assert!(io_failure(std::io::ErrorKind::InvalidData)
        .context("log", "read")
        .unwrap_err()
        .is_corruption());
    assert!(!io_failure(std::io::ErrorKind::PermissionDenied)
        .context("log", "read")
        .unwrap_err()
        .is_corruption());
    let fine: std::io::Result<u8> = Ok(7);
    assert_eq!(fine.context("log", "read").ok(), Some(7));
}

#[test]
fn test_io_infallible() {
    let err = io_failure(std::io::ErrorKind::Other).infallible().unwrap_err();
    assert!(!err.is_corruption());
    assert_eq!(
        err.to_display_string(),
        "Unexpected failure\nCaused by 1 errors:\n- short read"
    );
    let fine: std::io::Result<u8> = Ok(9);
    assert_eq!(fine.infallible().ok(), Some(9));
}

#[test]
fn test_from_io_failure() {
    let e = Error::from_io_failure(
        IoFailure::InvalidData,
        "bad".to_string(),
        "Bad".to_string(),
        "x/y",
        "open",
    );
    assert!(e.is_corruption());
    assert_eq!(e.to_display_string(), "\"x/y\": open\nCaused by 1 errors:\n- bad");
    assert_eq!(
        e.to_debug_string(),
        "\"x/y\": open\n(This error is considered as a data corruption)\nCaused by 1 errors:\n- Bad"
    );
    let e = Error::from_io_failure(
        IoFailure::Other,
        "bad".to_string(),
        "Bad".to_string(),
        "x/y",
        "open",
    );
    assert!(!e.is_corruption());
}

#[test]
fn test_indent() {
    assert_eq!(indent("a\nb".to_string(), 0, '-'), "a\nb");
    assert_eq!(indent("a".to_string(), 2, '-'), "- a");
    assert_eq!(indent("a\nb\nc".to_string(), 2, '-'), "- a\n  b\n  c");
    assert_eq!(indent("a\nb".to_string(), 4, '*'), "*   a\n    b");
    assert_eq!(indent("a\r\nb\n".to_string(), 1, '>'), ">a\n b");
    assert_eq!(indent("".to_string(), 3, '-'), "-  ");
}

#[test]
fn test_join() {
    assert_eq!(join(&vec![], ", "), "");
    assert_eq!(join(&vec!["a".to_string()], ", "), "a");
    assert_eq!(
        join(&vec!["a".to_string(), "b".to_string(), "".to_string()], ", "),
        "a, b, "
    );
}

#[test]
fn test_programming_error() {
    let e = Error::programming("bad argument");
    assert!(!e.is_corruption());
    assert_eq!(e.to_display_string(), "ProgrammingError: bad argument");
}

#[test]
fn test_path_errors() {
    let e = Error::corruption("a/b.log", "checksum mismatch");
    assert!(e.is_corruption());
    assert_eq!(e.to_display_string(), "\"a/b.log\": checksum mismatch");
    let e = Error::path("a/b.log", "cannot lock");
    assert!(!e.is_corruption());
    assert_eq!(e.to_display_string(), "\"a/b.log\": cannot lock");
    assert_eq!(e.to_debug_string(), "\"a/b.log\": cannot lock");
}

#[test]
fn test_wrap_and_sources() {
    let cause = ErrorSource {
        display: "disk full".to_string(),
        debug: "DiskFull { free: 0 }".to_string(),
        is_corruption: false,
    };
    let e = Error::wrap(cause, "cannot write");
    assert!(!e.is_corruption());
    assert_eq!(
        e.to_display_string(),
        "cannot write\nCaused by 1 errors:\n- disk full"
    );
    assert_eq!(
        e.to_debug_string(),
        "cannot write\nCaused by 1 errors:\n- DiskFull { free: 0 }"
    );
    let corrupt = ErrorSource {
        display: "bad".to_string(),
        debug: "bad".to_string(),
        is_corruption: true,
    };
    assert!(Error::wrap(corrupt, || "lazy".to_string()).is_corruption());
}

#[test]
fn test_result_ext_context_and_source() {
    let result: Result<u8> = Err(Error::blank().message("first")).context("second");
    assert_eq!(result.unwrap_err().to_display_string(), "first\nsecond");
    let result: Result<u8> = Err(Error::blank().message("outer"))
        .source(Error::blank().message("inner").mark_corruption());
    let err = result.unwrap_err();
    assert!(err.is_corruption());
    assert_eq!(
        err.to_display_string(),
        "outer\nCaused by 1 errors:\n- inner"
    );
    let fine: Result<u8> = Ok(3);
    assert_eq!(fine.corruption().ok(), Some(3));
    let fine: Result<u8> = Ok(4);
    assert_eq!(fine.context("unused").ok(), Some(4));
    let fine: Result<u8> = Ok(5);
    assert_eq!(fine.source(Error::blank()).ok(), Some(5));
}

#[test]
fn test_as_source_keeps_texts() {
    let inner = Error::blank().message("a").message("b").mark_corruption();
    let source = inner.as_source();
    assert_eq!(source.display, "a\nb");
    assert_eq!(
        source.debug,
        "a\nb\n(This error is considered as a data corruption)"
    );
    assert!(source.is_corruption);
    let many = Error::blank()
        .source(Error::blank().message("1"))
        .source(Error::blank().message("2"))
        .source(Error::blank().message("3"))
        .source(Error::blank().message("4"))
        .source(Error::blank().message("5"))
        .source(Error::blank().message("6"))
        .source(Error::blank().message("7"))
        .source(Error::blank().message("8"))
        .source(Error::blank().message("9"))
        .source(Error::blank().message("10"));
    assert!(many
        .to_display_string()
        .starts_with("Caused by 10 errors:\n- 1\n- 2"));
}

#[test]
fn test_decimal_string() {
    assert_eq!(decimal_string(0), "0");
    assert_eq!(decimal_string(7), "7");
    assert_eq!(decimal_string(10), "10");
    assert_eq!(decimal_string(109), "109");
    assert_eq!(decimal_string(1234567890), "1234567890");
    assert_eq!(decimal_string(usize::MAX), usize::MAX.to_string());
}

#[test]
fn test_split_lines() {
    for text in [
        "",
        "a",
        "a\n",
        "a\nb",
        "a\n\nb",
        "\n",
        "\n\n",
        "a\r\nb",
        "a\r\n",
        "a\r",
        "\r\n",
        "\r",
        "a\rb\n",
        "a\r\r\nb",
        "x\u{e9}y\n\u{4e16}\u{754c}\r\nz",
    ] {
        let expected: Vec<String> = text.lines().map(|line| line.to_string()).collect();
        assert_eq!(split_lines(text), expected);
    }
    assert_eq!(split_lines("one\ntwo\r\nthree"), vec!["one", "two", "three"]);
}

#[test]
fn test_repeat_space() {
    assert_eq!(repeat_space(0), "");
    assert_eq!(repeat_space(3), "   ");
}
