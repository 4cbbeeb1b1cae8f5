use aoc_toolkit::file_scanner::InputFile;

fn parse(name: &str) -> Option<aoc_toolkit::file_scanner::InputFileInfo> {
    InputFile::parse(Vec::new(), &name.as_bytes().to_vec()).map(|f| f.info)
}

#[test]
fn parse_plain_input() {
    let info = parse("input-2015-01.txt").unwrap();
    assert_eq!(info.year, 2015);
    assert_eq!(info.day, 1);
    assert_eq!(info.expect, 0);
    assert!(!info.sample);
    assert_eq!(info.part, 1);
    assert_eq!(info.idx, 0);
}

#[test]
fn parse_sample_part_subtest() {
    let info = parse("input-2023-17-sample-2-b.txt").unwrap();
    assert_eq!(info.year, 2023);
    assert_eq!(info.day, 17);
    assert!(info.sample);
    assert_eq!(info.part, 2);
    assert_eq!(info.idx, 2);
    assert_eq!(info.expect, 0);
}

#[test]
fn parse_expect_file() {
    let info = parse("input-2020-09.expect2").unwrap();
    assert_eq!(info.expect, 2);
    assert_eq!(info.part, 2);

    let info = parse("input-2020-09-sample.expect1").unwrap();
    assert_eq!(info.expect, 1);
    assert!(info.sample);
}

#[test]
fn parse_rejects_bad_names() {
    assert!(parse("notes-2015-01.txt").is_none());
    assert!(parse("input-2015-xx.txt").is_none());
    assert!(parse("input-2015-01.log").is_none());
    assert!(parse("input-01.txt").is_none());
    assert!(parse("").is_none());
}
