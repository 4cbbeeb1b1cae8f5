//! Number-theory helpers: greatest common divisor, least common
//! multiple, the extended Euclidean algorithm, modular inverses and
//! modular exponentiation.

use vstd::arithmetic::div_mod::{
    lemma_add_mod_noop, lemma_fundamental_div_mod, lemma_mod_multiples_basic,
    lemma_mod_multiples_vanish, lemma_mod_self_0, lemma_mul_mod_noop_general,
    lemma_mul_mod_noop_left, lemma_small_mod,
};
use vstd::arithmetic::power::{lemma_pow_adds, lemma_pow_distributes, pow};
use vstd::prelude::*;

verus! {

/// Greatest common divisor, by Euclid's recurrence.
pub open spec fn gcd_spec(a: nat, b: nat) -> nat
    decreases a,
{
    if a == 0 {
        b
    } else {
        gcd_spec(b % a, a)
    }
}

/// The greatest common divisor divides both of its arguments and is
/// zero only when both are.
pub proof fn lemma_gcd_divides(a: nat, b: nat)
    requires
        a != 0 || b != 0,
    ensures
        gcd_spec(a, b) != 0,
        a % gcd_spec(a, b) == 0,
        b % gcd_spec(a, b) == 0,
    decreases a,
{
    let g = gcd_spec(a, b);
    if a == 0 {
        lemma_mod_self_0(b as int);
        assert(a % g == 0) by {
            lemma_small_mod(0, b);
        }
    } else {
        lemma_gcd_divides(b % a, a);
        assert(a % g == 0);
        assert((b % a) % g == 0);
        lemma_fundamental_div_mod(b as int, a as int);
        let q = b as int / a as int;
        assert(b == a as int * q + (b % a));
        assert((a as int * q) % (g as int) == 0) by {
            lemma_fundamental_div_mod(a as int, g as int);
            let k = a as int / g as int;
            assert(a == g as int * k);
            assert(a as int * q == (k * q) * (g as int)) by (nonlinear_arith)
                requires
                    a == g as int * k,
            ;
            lemma_mod_multiples_basic(k * q, g as int);
        }
        assert(b % g == 0) by {
            lemma_add_mod_noop(a as int * q, (b % a) as int, g as int);
        }
    }
}

/// Greatest common divisor of two machine integers.
pub fn gcd(a: u64, b: u64) -> (r: u64)
    ensures
        r == gcd_spec(a as nat, b as nat),
{
    let mut x = a;
    let mut y = b;
    if x == y {
        proof {
            if x != 0 {
                lemma_mod_self_0(x as int);
                assert(gcd_spec(x as nat, x as nat) == gcd_spec(0, x as nat));
            }
        }
        return x;
    }
    if y > x {
        proof {
            lemma_small_mod(x as nat, y as nat);
            assert(gcd_spec(y as nat, x as nat) == gcd_spec(x as nat, y as nat));
        }
        let t = x;
        x = y;
        y = t;
    }
    while y > 0
        invariant
            y <= x,
            gcd_spec(x as nat, y as nat) == gcd_spec(a as nat, b as nat),
        decreases y,
    {
        let rem = x % y;
        proof {
            // One Euclid step keeps the gcd: gcd(x, y) == gcd(y, x % y).
            let gx = x as nat;
            let gy = y as nat;
            lemma_small_mod(rem as nat, gy);
            if gy < gx {
                lemma_small_mod(gy, gx);
                assert(gcd_spec(gx, gy) == gcd_spec(gy % gx, gx));
                assert(gcd_spec(gy, gx) == gcd_spec(gx % gy, gy));
                assert(gcd_spec(gy, gx % gy) == gcd_spec((gx % gy) % gy, gy));
            } else {
                lemma_mod_self_0(gx as int);
                assert(gcd_spec(gx, gy) == gcd_spec(gy % gx, gx));
                assert(gy % gx == 0) by {
                    lemma_mod_self_0(gy as int);
                }
                assert(gcd_spec(gy, gx % gy) == gcd_spec((gx % gy) % gy, gy));
                assert(gx % gy == 0) by {
                    lemma_mod_self_0(gy as int);
                }
                assert(gcd_spec(0, gy) == gy);
                lemma_small_mod(0, gy);
                assert(gcd_spec(gy, 0) == gcd_spec(0nat % gy, gy));
            }
        }
        x = y;
        y = rem;
    }
    proof {
        if x > 0 {
            lemma_small_mod(0, x as nat);
            assert(gcd_spec(x as nat, 0) == gcd_spec(0nat % x as nat, x as nat));
        }
    }
    x
}

/// Least common multiple, computed as `a * (b / gcd(a, b))`.
pub fn lcm(a: u64, b: u64) -> (r: u64)
    requires
        a != 0 || b != 0,
        a as int * (b as int / gcd_spec(a as nat, b as nat) as int) <= u64::MAX,
    ensures
        r == a as int * (b as int / gcd_spec(a as nat, b as nat) as int),
        a != 0 ==> r % a == 0,
        b != 0 ==> r % b == 0,
{
    proof {
        lemma_gcd_divides(a as nat, b as nat);
    }
    let g = gcd(a, b);
    let q = b / g;
    let r = a * q;
    proof {
        let gi = g as int;
        lemma_fundamental_div_mod(b as int, gi);
        assert(b == gi * q);
        if a != 0 {
            // r == q * a is a multiple of a.
            assert(r == q as int * a as int) by (nonlinear_arith)
                requires
                    r == a as int * q as int,
            ;
            lemma_mod_multiples_basic(q as int, a as int);
        }
        if b != 0 {
            // a is itself a multiple of g, so r == (a / g) * b.
            lemma_fundamental_div_mod(a as int, gi);
            let k = a as int / gi;
            assert(a == gi * k);
            assert(r == k * (b as int)) by (nonlinear_arith)
                requires
                    r == a as int * q as int,
                    a == gi * k,
                    b == gi * q,
            ;
            lemma_mod_multiples_basic(k, b as int);
        }
    }
    r
}

/// An upper bound used for the Bezout coefficients: `max(x, 1)`.
pub open spec fn at_least_one(x: int) -> int {
    if x < 1 {
        1
    } else {
        x
    }
}

/// Extended Euclidean algorithm: returns `(g, x, y)` with
/// `a * x + b * y == g == gcd(a, b)`.
pub fn egcd(a: i128, b: i128) -> (r: (i128, i128, i128))
    requires
        0 <= a <= u64::MAX,
        0 <= b <= u64::MAX,
    ensures
        r.0 == gcd_spec(a as nat, b as nat),
        a as int * r.1 + b as int * r.2 == r.0,
        -at_least_one(b as int) <= r.1 <= at_least_one(b as int),
        -at_least_one(a as int) <= r.2 <= at_least_one(a as int),
        a == 0 ==> r.1 == 0 && r.2 == 1,
    decreases a,
{
    if a == 0 {
        (b, 0, 1)
    } else {
        let rem = b % a;
        proof {
            lemma_fundamental_div_mod(b as int, a as int);
        }
        let (g, x, y) = egcd(rem, a);
        let q = b / a;
        proof {
            let ai = a as int;
            let bi = b as int;
            let qi = q as int;
            let ri = rem as int;
            assert(bi == ai * qi + ri);
            assert(ri * x + ai * y == g);
            // Substitute rem == b - q * a into the Bezout identity.
            assert((bi - ai * qi) * x + ai * y == g);
            assert(ai * (y - qi * x) + bi * x == g) by (nonlinear_arith)
                requires
                    (bi - ai * qi) * x + ai * y == g,
            ;
            // Bound |q * x| by b so the subtraction fits.
            assert(0 <= qi * ai <= bi) by (nonlinear_arith)
                requires
                    bi == ai * qi + ri,
                    0 <= ri < ai,
                    0 < ai,
                    0 <= bi,
            ;
            if rem == 0 {
                assert(x == 0);
                assert(qi * x == 0) by (nonlinear_arith)
                    requires
                        x == 0,
                ;
                assert(-at_least_one(bi) <= y - qi * x <= at_least_one(bi));
            } else {
                // |x| <= a and |y| <= rem, so |y - q * x| <= rem + q * a == b.
                assert(-ai <= x <= ai);
                assert(-ri <= y <= ri);
                assert(-(qi * ai) <= qi * x <= qi * ai) by (nonlinear_arith)
                    requires
                        -ai <= x <= ai,
                        0 <= qi,
                ;
                assert(qi * ai == ai * qi) by (nonlinear_arith);
                assert(qi * ai <= bi);
                assert(-bi <= y - qi * x <= bi);
                assert(-at_least_one(bi) <= y - qi * x <= at_least_one(bi));
            }
        }
        (g, y - q * x, x)
    }
}

/// Modular inverse: `Some(r)` with `(a * r) % m == 1 % m` exactly when
/// `a` and `m` are coprime, `None` otherwise.
pub fn modinverse(a: i128, m: i128) -> (r: Option<i128>)
    requires
        0 <= a <= u64::MAX,
        1 <= m <= u64::MAX,
    ensures
        gcd_spec(a as nat, m as nat) != 1 <==> r is None,
        r matches Some(v) ==> 0 <= v < m && (a as int * v as int) % (m as int) == 1int % (m as int),
{
    let (g, x, y) = egcd(a, m);
    if g != 1 {
        None
    } else {
        let mut v = x;
        let ghost k: int = if x < 0 { 1 } else if x >= m { -1 } else { 0 };
        if v < 0 {
            v = v + m;
        } else if v >= m {
            v = v - m;
        }
        proof {
            assert(v == x + k * m);
            assert(0 <= v < m);
            let ai = a as int;
            let mi = m as int;
            // a * v == 1 + m * (a * k - y), so it reduces to 1 mod m.
            assert(ai * v == 1int + mi * (ai * k - y)) by (nonlinear_arith)
                requires
                    v == x + k * mi,
                    ai * x + mi * y == 1,
            ;
            lemma_mod_multiples_vanish(ai * k - y, 1, mi);
        }
        Some(v)
    }
}

/// Modular exponentiation by repeated squaring.  For a zero exponent
/// the result is `1` even when the modulus is `1`, matching the naive
/// definition `base^0 == 1`.
pub fn modexp(base: u64, exp: u64, modulus: u64) -> (r: u64)
    requires
        modulus >= 1,
    ensures
        exp == 0 ==> r == 1,
        exp > 0 ==> r == pow(base as int, exp as nat) % (modulus as int),
{
    let mut result: u64 = 1;
    let mut b: u64 = base % modulus;
    let mut e: u64 = exp;
    let ghost goal: int = pow(base as int, exp as nat) % (modulus as int);
    proof {
        if exp > 0 {
            vstd::arithmetic::power::lemma_pow_mod_noop(base as int, exp as nat, modulus as int);
        }
    }
    let mut multiplied = false;
    while e > 0
        invariant
            modulus >= 1,
            b < modulus,
            result < modulus || (!multiplied && result == 1),
            exp == 0 ==> result == 1,
            exp > 0 ==> (result * pow(b as int, e as nat)) % (modulus as int) == goal,
            e == 0 && exp > 0 ==> multiplied,
            e <= exp,
        decreases e,
    {
        let ghost old_b = b as int;
        let ghost old_e = e as nat;
        let ghost old_result = result as int;
        let ghost mi = modulus as int;
        if e % 2 == 1 {
            proof {
                vstd::arithmetic::mul::lemma_mul_upper_bound(
                    result as int,
                    u64::MAX as int,
                    b as int,
                    u64::MAX as int,
                );
            }
            result = (((result as u128) * (b as u128)) % (modulus as u128)) as u64;
            multiplied = true;
        }
        let ghost new_result = result as int;
        e = e / 2;
        let ghost half = e as nat;
        proof {
            vstd::arithmetic::mul::lemma_mul_upper_bound(
                b as int,
                u64::MAX as int,
                b as int,
                u64::MAX as int,
            );
        }
        b = (((b as u128) * (b as u128)) % (modulus as u128)) as u64;
        proof {
            assert(b as int == (old_b * old_b) % mi);
            if exp > 0 {
                lemma_pow_split(old_b, old_e);
                lemma_step(old_result, new_result, old_b, old_e, mi, goal);
            }
        }
    }
    proof {
        if exp > 0 {
            assert(pow(b as int, 0) == 1) by {
                vstd::arithmetic::power::lemma_pow0(b as int);
            }
            lemma_small_mod(result as nat, modulus as nat);
        }
    }
    result
}

/// `pow(b, e) == pow(b * b, e / 2) * (b if e is odd else 1)`.
proof fn lemma_pow_split(b: int, e: nat)
    ensures
        e % 2 == 0 ==> pow(b, e) == pow(b * b, (e / 2) as nat),
        e % 2 == 1 ==> pow(b, e) == pow(b * b, (e / 2) as nat) * b,
{
    let h = (e / 2) as nat;
    lemma_pow_distributes(b, b, h);
    assert(pow(b * b, h) == pow(b, h) * pow(b, h));
    lemma_pow_adds(b, h, h);
    assert(pow(b, (h + h) as nat) == pow(b, h) * pow(b, h));
    if e % 2 == 1 {
        assert(e == h + h + 1);
        lemma_pow_adds(b, (h + h) as nat, 1);
        assert(pow(b, e) == pow(b, (h + h) as nat) * pow(b, 1));
        vstd::arithmetic::power::lemma_pow1(b);
    } else {
        assert(e == h + h);
    }
}

/// One squaring step of `modexp` keeps the loop's residue invariant.
/// `r1` is the residue accumulator after an odd bit was folded in.
proof fn lemma_step(r0: int, r1: int, b0: int, e0: nat, m: int, goal: int)
    requires
        m >= 1,
        e0 % 2 == 1 ==> pow(b0, e0) == pow(b0 * b0, (e0 / 2) as nat) * b0,
        e0 % 2 == 0 ==> pow(b0, e0) == pow(b0 * b0, (e0 / 2) as nat),
        (r0 * pow(b0, e0)) % m == goal,
        e0 % 2 == 1 ==> r1 == (r0 * b0) % m,
        e0 % 2 == 0 ==> r1 == r0,
    ensures
        (r1 * pow((b0 * b0) % m, (e0 / 2) as nat)) % m == goal,
{
    let h = (e0 / 2) as nat;
    let p = pow(b0 * b0, h);
    let pm = pow((b0 * b0) % m, h);
    // pow((b0*b0) % m, h) and pow(b0*b0, h) agree modulo m.
    vstd::arithmetic::power::lemma_pow_mod_noop(b0 * b0, h, m);
    assert(pm % m == p % m);
    let a = if e0 % 2 == 1 { (r0 * b0) % m } else { r0 };
    lemma_mul_mod_noop_general(a, pm, m);
    lemma_mul_mod_noop_general(a, p, m);
    assert((a * pm) % m == (a * p) % m);
    if e0 % 2 == 1 {
        lemma_mul_mod_noop_left(r0 * b0, p, m);
        assert(((r0 * b0) * p) % m == goal) by {
            assert((r0 * b0) * p == r0 * (p * b0)) by (nonlinear_arith);
            assert(r0 * (p * b0) == r0 * pow(b0, e0));
        }
        assert((a * p) % m == goal);
    } else {
        assert((a * p) % m == goal);
    }
}

} // verus!
