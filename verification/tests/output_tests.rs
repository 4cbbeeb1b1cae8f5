use aoc_toolkit::output::{Mode, Output, YearDayPart};

#[test]
fn label_format() {
    let ydp = YearDayPart::new(2024, 3, 1);
    assert_eq!(ydp.label(), b"2024-03 Part 1".to_vec());
    let ydp = YearDayPart::new(2015, 25, 2);
    assert_eq!(ydp.label(), b"2015-25 Part 2".to_vec());
}

#[test]
fn capture_prefixes_lines() {
    let mut out = Output { mode: Mode::NoOutput };
    out.capture();
    out.start_run(YearDayPart::new(2020, 7, 1));
    out.mode.write_bytes(&b"hello\nworld".to_vec());
    out.ensure_nl();
    let captured = out.get_capture().unwrap();
    assert_eq!(
        String::from_utf8(captured).unwrap(),
        "2020-07 Part 1: hello\n2020-07 Part 1: world\n"
    );
}

#[test]
fn no_capture_outside_capture_mode() {
    let mut out = Output { mode: Mode::NoOutput };
    out.mode.write_bytes(&b"ignored".to_vec());
    assert!(out.get_capture().is_none());
    out.capture();
    assert!(out.get_capture().is_none(), "an empty capture reads as none");
}
