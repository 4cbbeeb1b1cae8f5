use aoc_toolkit::md5::{MD5String, MD5};

fn hex(d: &[u8]) -> String {
    d.iter().fold(String::new(), |mut s, b| {
        s.push_str(&format!("{b:02x}"));
        s
    })
}

#[test]
fn md5_known_digests() {
    let tests = [
        ("1", "c4ca4238a0b923820dcc509a6f75849b"),
        (
            "The quick brown fox jumps over the lazy dog",
            "9e107d9d372bb6826bd81d3542a419d6",
        ),
        (
            "The quick brown fox jumps over the lazy dog.",
            "e4d909c290d0fb1ca068ffaddf22cbd0",
        ),
        ("", "d41d8cd98f00b204e9800998ecf8427e"),
    ];
    for (s, e) in tests.iter() {
        let digest = MD5::digest(&s.as_bytes().to_vec());
        let digest_str = hex(&digest);
        assert_eq!(digest_str, *e, "{s:?} did not produce the expected MD5");

        let mut md5string = MD5String::from_str_checked(s).unwrap();
        let new_digest = md5string.digest();
        let new_digest_str = hex(&new_digest);
        assert_eq!(
            digest_str, new_digest_str,
            "{s:?} did not produce the expected MD5 with MD5String {:02x?}",
            md5string.bytes()
        );
    }
}

#[test]
fn md5_compare() {
    const TOP: usize = 4 * 1024;
    let mut buf: Vec<u8> = Vec::with_capacity(TOP);
    for i in 0..TOP {
        let a = MD5::digest(&buf);
        let b = md5::compute(&buf);
        assert_eq!(a.as_slice(), &b.0, "{buf:?}");
        buf.push((i % 0xFF) as u8);
    }
}

#[test]
fn md5_bench_internal() {
    const ITERS: usize = 50_000;
    let payload: Vec<u8> = (0..4 * 1024).map(|i| i as u8).collect();
    println!();

    let start = std::time::Instant::now();
    for _ in 0..ITERS {
        MD5::digest(&payload);
    }
    let elapsed = start.elapsed();
    println!(
        "Internal MD5 processed {ITERS} in {elapsed:?}.  {} iters per second",
        ITERS as f64 / elapsed.as_secs_f64()
    );

    let start = std::time::Instant::now();
    for _ in 0..ITERS {
        md5::compute(&payload);
    }
    let elapsed = start.elapsed();
    println!(
        "MD5 crate processed {ITERS} in {elapsed:?}.  {} iters per second",
        ITERS as f64 / elapsed.as_secs_f64()
    );
}

#[test]
fn md5_string_overrun() {
    let mut m = MD5String::new();
    let long: Vec<u8> = vec![7u8; 56];
    assert!(matches!(
        m.push_bytes(&long),
        Err(aoc_toolkit::error::Error::MD5StringOverrun)
    ));
    let ok: Vec<u8> = vec![7u8; 55];
    assert!(m.push_bytes(&ok).is_ok());
}

#[test]
fn md5_string_ops() {
    let mut m = MD5String::new();
    assert!(m.is_empty());
    m.push_str("abc").unwrap();
    assert_eq!(m.len(), 3);
    m.push('d').unwrap();
    assert_eq!(m.len(), 4);
    let d = m.digest();
    let expect = MD5::digest(&b"abcd".to_vec());
    assert_eq!(d, expect);
    m.truncate(3);
    let d3 = m.digest();
    let expect3 = MD5::digest(&b"abc".to_vec());
    assert_eq!(d3, expect3);
}
