use aoc_toolkit::error::Error;
use aoc_toolkit::parser::{Lines, LinesOpt};

fn input_lines() -> Vec<Vec<u8>> {
    [" # Hello", "", "World", "  ", "# Todo ", "Yup  "]
        .iter()
        .map(|s| s.as_bytes().to_vec())
        .collect()
}

fn collected(opts: LinesOpt) -> Vec<String> {
    let lines = Lines::from_lines(input_lines(), opts);
    let mut out = Vec::new();
    let mut iter = lines.iter();
    while let Some(l) = iter.next(&lines) {
        out.push(String::from_utf8(l.clone()).unwrap());
    }
    out
}

#[test]
fn test_raw() {
    assert_eq!(
        collected(LinesOpt::raw()),
        [" # Hello", "", "World", "  ", "# Todo ", "Yup  "]
    );
}

#[test]
fn test_trim() {
    assert_eq!(
        collected(LinesOpt::trim()),
        ["# Hello", "", "World", "", "# Todo", "Yup"]
    );
}

#[test]
fn test_remove_comments() {
    assert_eq!(
        collected(LinesOpt::remove_comments()),
        [" # Hello", "", "World", "  ", "Yup  "]
    );
}

#[test]
fn test_remove_empty() {
    assert_eq!(
        collected(LinesOpt::remove_empty()),
        [" # Hello", "World", "  ", "# Todo ", "Yup  "]
    );
}

#[test]
fn test_trim_remove_comments() {
    assert_eq!(
        collected(LinesOpt::trim().union(LinesOpt::remove_comments())),
        ["", "World", "", "Yup"]
    );
}

#[test]
fn test_trim_remove_empty() {
    assert_eq!(
        collected(LinesOpt::trim().union(LinesOpt::remove_empty())),
        ["# Hello", "World", "# Todo", "Yup"]
    );
}

#[test]
fn test_remove_empty_and_comments() {
    assert_eq!(
        collected(LinesOpt::remove_comments().union(LinesOpt::remove_empty())),
        [" # Hello", "World", "  ", "Yup  "]
    );
}

#[test]
fn test_all() {
    assert_eq!(collected(LinesOpt::all()), ["World", "Yup"]);
}

#[test]
fn test_single_line() {
    let one = Lines::from_lines(vec![b"only".to_vec()], LinesOpt::raw());
    assert_eq!(one.single_line().unwrap(), b"only".to_vec());
    let two = Lines::from_lines(input_lines(), LinesOpt::raw());
    match two.single_line() {
        Err(Error::InvalidInput(msg)) => assert_eq!(msg, "Expected only 1 line, got 6"),
        other => panic!("expected an InvalidInput error, got {other:?}"),
    }
}
