use aoc_toolkit::algorithms::{egcd, gcd, lcm, modexp, modinverse};

#[test]
fn gcd_values() {
    assert_eq!(gcd(12, 18), 6);
    assert_eq!(gcd(18, 12), 6);
    assert_eq!(gcd(7, 7), 7);
    assert_eq!(gcd(0, 5), 5);
    assert_eq!(gcd(5, 0), 5);
    assert_eq!(gcd(17, 13), 1);
}

#[test]
fn lcm_values() {
    assert_eq!(lcm(4, 6), 12);
    assert_eq!(lcm(21, 6), 42);
    assert_eq!(lcm(0, 5), 0);
}

#[test]
fn egcd_bezout() {
    let (g, x, y) = egcd(240, 46);
    assert_eq!(g, 2);
    assert_eq!(240 * x + 46 * y, 2);
    let (g, x, y) = egcd(0, 9);
    assert_eq!((g, x, y), (9, 0, 1));
}

#[test]
fn modinverse_values() {
    assert_eq!(modinverse(3, 11), Some(4));
    assert_eq!(modinverse(2, 4), None);
    let inv = modinverse(17, 3120).unwrap();
    assert_eq!((17 * inv) % 3120, 1);
}

#[test]
fn modexp_values() {
    assert_eq!(modexp(2, 10, 1000), 24);
    assert_eq!(modexp(3, 0, 7), 1);
    assert_eq!(modexp(5, 3, 13), 8);
    assert_eq!(modexp(2, 64, 1_000_000_007), 582344008);
}
