//! A bit-packed vector: a handful of small values and their count,
//! all packed into one unsigned machine word.

use vstd::arithmetic::div_mod::{
    lemma_fundamental_div_mod, lemma_mod_multiples_basic, lemma_mod_multiples_vanish,
    lemma_small_mod,
};
use vstd::arithmetic::power2::{lemma2_to64, lemma2_to64_rest, lemma_pow2_adds, lemma_pow2_pos, pow2};
use vstd::prelude::*;

verus! {

/// An unsigned word that can back a [`SmallVec`].
pub trait SmallVecBuffer: Sized + Copy {
    /// The word's width in bits.
    spec fn bits() -> u32;

    /// The word's numeric value.
    spec fn v(self) -> int;

    fn to128(self) -> (r: u128)
        ensures
            r == self.v(),
            0 <= self.v() < pow2(Self::bits() as nat),
    ;

    fn from128(x: u128) -> (r: Self)
        requires
            x < pow2(Self::bits() as nat),
        ensures
            r.v() == x,
    ;

    fn zero() -> (r: Self)
        ensures
            r.v() == 0,
    ;

    /// The width as a runtime value.
    fn bits_exec() -> (r: u32)
        ensures
            r == Self::bits(),
    ;

    proof fn bits_facts()
        ensures
            8 <= Self::bits() <= 128,
    ;
}

impl SmallVecBuffer for u8 {
    open spec fn bits() -> u32 {
        8
    }

    open spec fn v(self) -> int {
        self as int
    }

    fn to128(self) -> (r: u128) {
        proof {
            lemma2_to64();
        }
        self as u128
    }

    fn from128(x: u128) -> (r: Self) {
        proof {
            lemma2_to64();
        }
        x as u8
    }

    fn zero() -> (r: Self) {
        0
    }

    fn bits_exec() -> (r: u32) {
        8
    }

    proof fn bits_facts() {
    }
}

impl SmallVecBuffer for u16 {
    open spec fn bits() -> u32 {
        16
    }

    open spec fn v(self) -> int {
        self as int
    }

    fn to128(self) -> (r: u128) {
        proof {
            lemma2_to64();
        }
        self as u128
    }

    fn from128(x: u128) -> (r: Self) {
        proof {
            lemma2_to64();
        }
        x as u16
    }

    fn zero() -> (r: Self) {
        0
    }

    fn bits_exec() -> (r: u32) {
        16
    }

    proof fn bits_facts() {
    }
}

impl SmallVecBuffer for u32 {
    open spec fn bits() -> u32 {
        32
    }

    open spec fn v(self) -> int {
        self as int
    }

    fn to128(self) -> (r: u128) {
        proof {
            lemma2_to64();
        }
        self as u128
    }

    fn from128(x: u128) -> (r: Self) {
        proof {
            lemma2_to64();
        }
        x as u32
    }

    fn zero() -> (r: Self) {
        0
    }

    fn bits_exec() -> (r: u32) {
        32
    }

    proof fn bits_facts() {
    }
}

impl SmallVecBuffer for u64 {
    open spec fn bits() -> u32 {
        64
    }

    open spec fn v(self) -> int {
        self as int
    }

    fn to128(self) -> (r: u128) {
        proof {
            lemma2_to64();
            lemma2_to64_rest();
        }
        self as u128
    }

    fn from128(x: u128) -> (r: Self) {
        proof {
            lemma2_to64();
            lemma2_to64_rest();
        }
        x as u64
    }

    fn zero() -> (r: Self) {
        0
    }

    fn bits_exec() -> (r: u32) {
        64
    }

    proof fn bits_facts() {
    }
}

/// The packed encoding of a list of values: value `i` sits at weight
/// `pow2(lw + lb * i)`.
pub open spec fn encode(s: Seq<u64>, lw: nat, lb: nat) -> int
    decreases s.len(),
{
    if s.len() == 0 {
        0
    } else {
        encode(s.drop_last(), lw, lb) + s.last() * pow2((lw + lb * (s.len() - 1)) as nat)
    }
}

/// The encoding is a multiple of the count field's weight.
proof fn lemma_encode_mod(s: Seq<u64>, lw: nat, lb: nat)
    ensures
        encode(s, lw, lb) % pow2(lw) as int == 0,
        encode(s, lw, lb) >= 0,
    decreases s.len(),
{
    lemma_pow2_pos(lw);
    if s.len() > 0 {
        lemma_encode_mod(s.drop_last(), lw, lb);
        let p = pow2(lw) as int;
        let tailw = pow2((lw + lb * (s.len() - 1)) as nat) as int;
        lemma_pow2_adds(lw, (lb * (s.len() - 1)) as nat);
        lemma_pow2_pos((lb * (s.len() - 1)) as nat);
        lemma_pow2_pos((lw + lb * (s.len() - 1)) as nat);
        let m = pow2((lb * (s.len() - 1)) as nat) as int;
        assert(tailw == p * m);
        let e0 = encode(s.drop_last(), lw, lb);
        let k0 = e0 / p;
        lemma_fundamental_div_mod(e0, p);
        assert(e0 == p * k0);
        assert(e0 + s.last() * tailw == p * (k0 + s.last() * m)) by (nonlinear_arith)
            requires
                e0 == p * k0,
                tailw == p * m,
        ;
        lemma_mod_multiples_basic(k0 + s.last() * m, p);
        assert((p * (k0 + s.last() * m)) % p == ((k0 + s.last() * m) * p) % p) by (nonlinear_arith);
        assert(s.last() * tailw >= 0) by (nonlinear_arith)
            requires
                tailw > 0,
        ;
    }
}

/// The packed value stays below the weight of the next free slot.
proof fn lemma_encode_bound(s: Seq<u64>, lw: nat, lb: nat)
    requires
        forall|i: int| 0 <= i < s.len() ==> (#[trigger] s[i] as int) < pow2(lb),
    ensures
        0 <= encode(s, lw, lb) <= pow2(lw + lb * s.len()) - pow2(lw),
    decreases s.len(),
{
    lemma_pow2_pos(lw);
    if s.len() == 0 {
    } else {
        assert(forall|i: int| 0 <= i < s.drop_last().len() ==> (#[trigger] s.drop_last()[i] as int)
            < pow2(lb));
        lemma_encode_bound(s.drop_last(), lw, lb);
        let n1 = (s.len() - 1) as nat;
        let w = pow2((lw + lb * n1) as nat) as int;
        lemma_pow2_pos((lw + lb * n1) as nat);
        assert(s.last() as int * w <= (pow2(lb) - 1) * w) by (nonlinear_arith)
            requires
                s.last() as int <= pow2(lb) - 1,
                w > 0,
        ;
        assert(s.last() as int * w >= 0) by (nonlinear_arith)
            requires
                w > 0,
        ;
        lemma_pow2_adds((lw + lb * n1) as nat, lb);
        assert(pow2((lw + lb * n1) as nat + lb) == w * pow2(lb));
        assert((lw + lb * n1) as nat + lb == lw + lb * s.len()) by (nonlinear_arith)
            requires
                n1 == s.len() - 1,
        ;
        assert(pow2((lw + lb * n1)) as int + (pow2(lb) - 1) * w == w * pow2(lb)) by (nonlinear_arith)
            requires
                pow2((lw + lb * n1) as nat) == w,
        ;
    }
}

/// The number of binary digits of `n`.
pub open spec fn bit_length(n: nat) -> nat
    decreases n,
{
    if n == 0 {
        0
    } else {
        1 + bit_length(n / 2)
    }
}

/// `n < pow2(bit_length(n))`.
proof fn lemma_bit_length(n: nat)
    ensures
        n < pow2(bit_length(n)),
    decreases n,
{
    if n == 0 {
        lemma2_to64();
    } else {
        lemma_bit_length(n / 2);
        lemma_pow2_adds((bit_length(n) - 1) as nat, 1);
        lemma2_to64();
    }
}

/// Small values have few digits.
proof fn lemma_bit_length_le(n: nat, b: nat)
    requires
        n < pow2(b),
    ensures
        bit_length(n) <= b,
    decreases n,
{
    if n > 0 {
        assert(b >= 1) by {
            if b == 0 {
                lemma2_to64();
            }
        }
        assert(pow2(b) == 2 * pow2((b - 1) as nat)) by {
            lemma_pow2_adds((b - 1) as nat, 1);
            lemma2_to64();
        }
        lemma_bit_length_le(n / 2, (b - 1) as nat);
    }
}

/// The number of digits of a count, executable form.
fn bit_length_exec(n: u32) -> (r: u32)
    ensures
        r == bit_length(n as nat),
        r <= 32,
    decreases n,
{
    if n == 0 {
        0
    } else {
        let rest = bit_length_exec(n / 2);
        proof {
            assert(bit_length(n as nat) <= 32) by {
                lemma2_to64();
                lemma_bit_length_le(n as nat, 32);
            }
        }
        1 + rest
    }
}

/// `pow2` for exponents below 128, executable form.
fn pow2_exec(e: u32) -> (r: u128)
    requires
        e < 128,
    ensures
        r == pow2(e as nat),
        r >= 1,
{
    let mut r: u128 = 1;
    let mut i: u32 = 0;
    proof {
        lemma2_to64();
    }
    while i < e
        invariant
            0 <= i <= e < 128,
            r == pow2(i as nat),
        decreases e - i,
    {
        proof {
            lemma_pow2_adds(i as nat, 1);
            lemma2_to64();
            lemma2_to64_rest();
            assert(pow2(128) == pow2(64) * pow2(64)) by {
                lemma_pow2_adds(64, 64);
            }
            if i as nat + 1 < 128 {
                vstd::arithmetic::power2::lemma_pow2_strictly_increases((i + 1) as nat, 128);
            }
            assert(r * 2 == pow2((i + 1) as nat));
            assert(r * 2 <= u128::MAX);
        }
        r = r * 2;
        i = i + 1;
    }
    proof {
        lemma_pow2_pos(e as nat);
    }
    r
}

/// A list of small values and their count packed into one word of
/// type `T`: the count in the low bits, each `LEN`-bit value above it.
#[derive(Clone, Copy)]
pub struct SmallVec<T: SmallVecBuffer, const LEN: u32> {
    pub buffer: T,
    pub elems: Ghost<Seq<u64>>,
}

/// The number of low bits reserved for the count: eight less the
/// digit count of the slot budget, the layout the packing has always
/// used.
pub open spec fn len_width_spec(bits: u32, lb: u32) -> nat {
    (8 - bit_length((bits / lb) as nat)) as nat
}

impl<T: SmallVecBuffer, const LEN: u32> SmallVec<T, LEN> {
    /// The abstract list the word encodes.
    pub open spec fn view_elems(&self) -> Seq<u64> {
        self.elems@
    }

    pub open spec fn lw(&self) -> nat {
        len_width_spec(T::bits(), LEN)
    }

    pub open spec fn cap_spec(&self) -> nat {
        ((T::bits() - self.lw()) as nat) / (LEN as nat)
    }

    /// The buffer faithfully encodes the count and the values.
    pub open spec fn wf(&self) -> bool {
        &&& 1 <= LEN <= 64
        &&& LEN <= T::bits()
        &&& T::bits() < 128 * LEN
        &&& self.lw() + LEN * self.cap_spec() <= T::bits()
        &&& self.lw() >= 1
        &&& self.elems@.len() <= self.cap_spec()
        &&& forall|i: int|
            0 <= i < self.elems@.len() ==> (#[trigger] self.elems@[i] as int) < pow2(LEN as nat)
        &&& self.buffer.v() == self.elems@.len() + encode(self.elems@, self.lw(), LEN as nat)
        &&& self.elems@.len() < pow2(self.lw())
    }

    /// An empty vector.
    pub fn new() -> (r: Self)
        requires
            1 <= LEN <= 64,
            LEN <= T::bits(),
            T::bits() < 128 * LEN,
        ensures
            r.wf(),
            r.view_elems() =~= Seq::<u64>::empty(),
    {
        proof {
            T::bits_facts();
        }
        let r = SmallVec::<T, LEN> { buffer: T::zero(), elems: Ghost(Seq::empty()) };
        proof {
            let lw = r.lw();
            assert(T::bits() / LEN >= 1) by (nonlinear_arith)
                requires
                    1 <= LEN,
                    LEN <= T::bits(),
            ;
            assert(T::bits() / LEN < 128) by (nonlinear_arith)
                requires
                    LEN >= 1,
                    T::bits() < 128 * LEN,
            ;
            lemma2_to64();
            lemma_bit_length_le((T::bits() / LEN) as nat, 7);
            assert(lw >= 1);
            assert(lw <= 8);
            assert(lw + LEN * r.cap_spec() <= T::bits()) by (nonlinear_arith)
                requires
                    LEN >= 1,
                    r.cap_spec() == ((T::bits() - lw) as nat) / (LEN as nat),
                    lw <= T::bits(),
            ;
            lemma_pow2_pos(lw);
        }
        r
    }

    /// The count mask width, executable form.
    fn len_width() -> (r: u32)
        requires
            LEN >= 1,
            T::bits() < 128 * LEN,
            T::bits() >= 8,
        ensures
            r == len_width_spec(T::bits(), LEN),
            r <= 8,
    {
        proof {
            assert(T::bits() / LEN < 128) by (nonlinear_arith)
                requires
                    LEN >= 1,
                    T::bits() < 128 * LEN,
            ;
            lemma2_to64();
            lemma_bit_length_le((T::bits() / LEN) as nat, 7);
        }
        8 - bit_length_exec(T::bits_exec() / LEN)
    }

    /// The number of values held.
    pub fn len(&self) -> (r: u8)
        requires
            self.wf(),
        ensures
            r == self.view_elems().len(),
    {
        proof {
            T::bits_facts();
            self.lemma_len_extract();
            assert(self.elems@.len() < 256) by {
                vstd::arithmetic::div_mod::lemma_div_nonincreasing(
                    (T::bits() - self.lw()) as int,
                    LEN as int,
                );
            }
        }
        let lw = Self::len_width();
        proof {
            assert(lw < 128);
        }
        let b = self.buffer.to128();
        let m = pow2_exec(lw);
        (b % m) as u8
    }

    pub fn is_empty(&self) -> (r: bool)
        requires
            self.wf(),
        ensures
            r == (self.view_elems().len() == 0),
    {
        self.len() == 0
    }

    /// The number of values the word can hold.
    pub fn capacity(&self) -> (r: u8)
        requires
            self.wf(),
        ensures
            r == self.cap_spec(),
    {
        proof {
            T::bits_facts();
            vstd::arithmetic::div_mod::lemma_div_nonincreasing(
                (T::bits() - self.lw()) as int,
                LEN as int,
            );
        }
        let lw = Self::len_width();
        ((T::bits_exec() - lw) / LEN) as u8
    }

    /// Append a value that fits in `LEN` bits; the vector must have
    /// room for it.
    pub fn push(&mut self, v: u64)
        requires
            old(self).wf(),
            (v as int) < pow2(LEN as nat),
            old(self).view_elems().len() < old(self).cap_spec(),
            old(self).view_elems().len() + 1 < pow2(old(self).lw()),
        ensures
            final(self).wf(),
            final(self).view_elems() =~= old(self).view_elems().push(v),
    {
        proof {
            T::bits_facts();
            self.lemma_fit(self.elems@.len());
        }
        let n = self.len();
        let lw = Self::len_width();
        let fexp = lw + LEN * (n as u32);
        let f = pow2_exec(fexp);
        let b = self.buffer.to128();
        proof {
            lemma_encode_bound(self.elems@, self.lw(), LEN as nat);
            lemma_pow2_pos(self.lw());
            assert(b + v * f + 1 < pow2((self.lw() + LEN * (self.elems@.len() + 1)) as nat)) by {
                let w = pow2((self.lw() + LEN as nat * self.elems@.len()) as nat) as int;
                assert(f == w);
                assert(v as int * w <= (pow2(LEN as nat) - 1) * w) by (nonlinear_arith)
                    requires
                        v as int <= pow2(LEN as nat) - 1,
                        w > 0,
                ;
                lemma_pow2_adds((self.lw() + LEN as nat * self.elems@.len()) as nat, LEN as nat);
                assert((self.lw() + LEN as nat * self.elems@.len()) as nat + LEN as nat == (
                self.lw() + LEN * (self.elems@.len() + 1)) as nat) by (nonlinear_arith);
                assert(w + (pow2(LEN as nat) - 1) * w == w * pow2(LEN as nat)) by (nonlinear_arith);
                assert(b < w);
            }
            self.lemma_fit((self.elems@.len() + 1) as nat);
            assert(v as int * f as int >= 0) by (nonlinear_arith)
                requires
                    f >= 1,
            ;
            lemma_encode_mod(self.elems@, self.lw(), LEN as nat);
            assert(pow2(128) == pow2(64) * pow2(64)) by {
                lemma_pow2_adds(64, 64);
            }
            lemma2_to64_rest();
            if (self.lw() + LEN * (self.elems@.len() + 1)) < 128 {
                vstd::arithmetic::power2::lemma_pow2_strictly_increases(
                    (self.lw() + LEN * (self.elems@.len() + 1)) as nat,
                    128,
                );
            }
            assert(b + (v as int) * (f as int) + 1 <= u128::MAX);
        }
        let newb = b + (v as u128) * f + 1;
        self.buffer = T::from128(newb);
        proof {
            self.elems = Ghost(old(self).elems@.push(v));
            assert(encode(self.elems@, self.lw(), LEN as nat) == encode(
                old(self).elems@,
                self.lw(),
                LEN as nat,
            ) + v * f) by {
                assert(self.elems@.drop_last() =~= old(self).elems@);
            }
        }
    }

    /// Remove and return the most recently pushed value.
    pub fn pop(&mut self) -> (r: Option<u64>)
        requires
            old(self).wf(),
        ensures
            final(self).wf(),
            old(self).view_elems().len() == 0 ==> r is None && *final(self) == *old(self),
            old(self).view_elems().len() > 0 ==> r == Some(old(self).view_elems().last())
                && final(self).view_elems() =~= old(self).view_elems().drop_last(),
    {
        proof {
            T::bits_facts();
        }
        let n = self.len();
        if n == 0 {
            return None;
        }
        let lw = Self::len_width();
        proof {
            self.lemma_fit((self.elems@.len() - 1) as nat);
        }
        let fexp = lw + LEN * ((n - 1) as u32);
        let f = pow2_exec(fexp);
        proof {
            assert(LEN < 128);
        }
        let p = pow2_exec(LEN);
        let b = self.buffer.to128();
        let slot = (b / f) % p;
        let ghost s = self.elems@;
        proof {
            let lwn = self.lw();
            let low = s.len() + encode(s.drop_last(), lwn, LEN as nat);
            assert(b == low + s.last() * f) by {
                assert(encode(s, lwn, LEN as nat) == encode(s.drop_last(), lwn, LEN as nat)
                    + s.last() * pow2((lwn + LEN as nat * (s.len() - 1)) as nat));
            }
            assert(forall|i: int| 0 <= i < s.drop_last().len() ==> (#[trigger] s.drop_last()[i] as int)
                < pow2(LEN as nat));
            lemma_encode_bound(s.drop_last(), lwn, LEN as nat);
            lemma_pow2_pos(lwn);
            assert(0 <= low < f) by {
                assert(encode(s.drop_last(), lwn, LEN as nat) <= pow2(
                    (lwn + LEN as nat * (s.len() - 1)) as nat,
                ) - pow2(lwn));
            }
            assert((b as int) / (f as int) == s.last() as int) by {
                assert(b == f as int * (s.last() as int) + low) by (nonlinear_arith)
                    requires
                        b == low + s.last() * f,
                ;
                vstd::arithmetic::div_mod::lemma_fundamental_div_mod_converse(
                    b as int,
                    f as int,
                    s.last() as int,
                    low,
                );
            }
            lemma_small_mod(s.last() as nat, pow2(LEN as nat));
            assert(slot == s.last());
            assert(s.last() as int * f as int >= 0) by (nonlinear_arith)
                requires
                    f >= 1,
            ;
        }
        let newb = b - slot * f - 1;
        self.buffer = T::from128(newb);
        proof {
            self.elems = Ghost(s.drop_last());
            assert(newb < pow2(T::bits() as nat)) by {
                assert(newb <= b);
            }
            assert(final(self).buffer.v() == final(self).elems@.len() + encode(
                final(self).elems@,
                self.lw(),
                LEN as nat,
            ));
        }
        Some(slot as u64)
    }

    /// The packed values with the count field stripped off.
    pub fn buffer(&self) -> (r: T)
        requires
            self.wf(),
        ensures
            r.v() == (self.buffer.v() - self.view_elems().len()) / pow2(self.lw()) as int,
    {
        proof {
            T::bits_facts();
            self.lemma_len_extract();
        }
        let n = self.len();
        let lw = Self::len_width();
        let b = self.buffer.to128();
        let m = pow2_exec(lw);
        proof {
            lemma_encode_mod(self.elems@, self.lw(), LEN as nat);
            assert(b >= n);
        }
        let shifted = (b - (n as u128)) / m;
        proof {
            assert(shifted <= b);
        }
        T::from128(shifted)
    }

    /// A two-ended walker over the held values.
    pub fn iter(&self) -> (r: SmallVecIter)
        requires
            self.wf(),
        ensures
            r.items@ =~= self.view_elems(),
            r.front == 0,
            r.back == self.view_elems().len(),
    {
        let items = self.values();
        let back = items.len();
        SmallVecIter { items, front: 0, back }
    }

    /// The held values, oldest first.
    pub fn values(&self) -> (r: Vec<u64>)
        requires
            self.wf(),
        ensures
            r@ =~= self.view_elems(),
    {
        let mut tmp = *self;
        let mut rev: Vec<u64> = Vec::new();
        proof {
            T::bits_facts();
        }
        let ghost total = self.elems@.len();
        while !tmp.is_empty()
            invariant
                tmp.wf(),
                self.wf(),
                tmp.elems@ =~= self.elems@.take((total - rev@.len()) as int),
                rev@.len() <= total,
                total == self.elems@.len(),
                forall|k: int|
                    0 <= k < rev@.len() ==> #[trigger] rev@[k] == self.elems@[total - 1 - k],
            decreases tmp.elems@.len(),
        {
            proof {
                assert(tmp.elems@.len() == total - rev@.len());
                assert(tmp.elems@.last() == self.elems@[total - rev@.len() - 1]);
                assert(tmp.elems@.drop_last() =~= self.elems@.take(
                    (total - rev@.len() - 1) as int,
                ));
            }
            let x = tmp.pop();
            match x {
                Some(v) => {
                    rev.push(v);
                }
                None => {
                }
            }
        }
        let mut out: Vec<u64> = Vec::new();
        let mut i: usize = rev.len();
        while i > 0
            invariant
                0 <= i <= rev@.len(),
                rev@.len() == total,
                forall|k: int|
                    0 <= k < rev@.len() ==> #[trigger] rev@[k] == self.elems@[total - 1 - k],
                out@.len() == total - i,
                forall|k: int| 0 <= k < out@.len() ==> #[trigger] out@[k] == self.elems@[k],
            decreases i,
        {
            i = i - 1;
            out.push(rev[i]);
            proof {
                assert(out@[out@.len() - 1] == self.elems@[total - 1 - i]);
            }
        }
        out
    }

    /// Positions up to `k` slots stay inside the word.
    proof fn lemma_fit(&self, k: nat)
        requires
            self.wf(),
            k <= self.cap_spec(),
        ensures
            self.lw() + LEN * k <= T::bits(),
            self.lw() + LEN * k < 128 || (self.lw() + LEN * k == T::bits() && T::bits() <= 128),
            k < self.cap_spec() ==> self.lw() + LEN * k < T::bits(),
            pow2((self.lw() + LEN * k) as nat) <= pow2(T::bits() as nat),
    {
        T::bits_facts();
        assert(LEN * k <= LEN * self.cap_spec()) by (nonlinear_arith)
            requires
                k <= self.cap_spec(),
                LEN >= 0,
        ;
        if k < self.cap_spec() {
            assert(LEN * k + LEN <= LEN * self.cap_spec()) by (nonlinear_arith)
                requires
                    k < self.cap_spec(),
                    LEN >= 1,
            ;
        }
        if self.lw() + LEN * k < T::bits() as nat {
            vstd::arithmetic::power2::lemma_pow2_strictly_increases(
                (self.lw() + LEN * k) as nat,
                T::bits() as nat,
            );
        }
    }

    /// The count field reads back exactly.
    proof fn lemma_len_extract(&self)
        requires
            self.wf(),
        ensures
            self.buffer.v() % pow2(self.lw()) as int == self.elems@.len(),
            (self.buffer.v() - self.elems@.len()) % pow2(self.lw()) as int == 0,
    {
        lemma_encode_mod(self.elems@, self.lw(), LEN as nat);
        lemma_pow2_pos(self.lw());
        let p = pow2(self.lw()) as int;
        let e = encode(self.elems@, self.lw(), LEN as nat);
        let k = e / p;
        lemma_fundamental_div_mod(e, p);
        assert(e == p * k);
        assert((p * k + self.elems@.len()) % p == self.elems@.len() as int % p) by {
            lemma_mod_multiples_vanish(k, self.elems@.len() as int, p);
        }
        lemma_small_mod(self.elems@.len(), pow2(self.lw()));
        assert((p * k) % p == (k * p) % p) by (nonlinear_arith);
        lemma_mod_multiples_basic(k, p);
    }
}

/// Digit counts never exceed the value's own magnitude bound.
proof fn lemma_bit_length_below(n: nat, bound: nat)
    requires
        n <= bound,
    ensures
        bit_length(n) <= bound,
    decreases n,
{
    if n > 0 {
        lemma_bit_length_below(n / 2, (bound - 1) as nat);
    }
}

/// A walker over a [`SmallVec`]'s values that can be advanced from
/// either end.
pub struct SmallVecIter {
    pub items: Vec<u64>,
    pub front: usize,
    pub back: usize,
}

impl SmallVecIter {
    /// The next value from the front, if the ends have not met.
    pub fn next(&mut self) -> (r: Option<u64>)
        requires
            old(self).front <= old(self).back <= old(self).items@.len(),
        ensures
            final(self).items@ == old(self).items@,
            final(self).back == old(self).back,
            old(self).front < old(self).back ==> r == Some(old(self).items@[old(self).front as int])
                && final(self).front == old(self).front + 1,
            old(self).front >= old(self).back ==> r is None && final(self).front == old(self).front,
    {
        if self.front < self.back {
            let v = self.items[self.front];
            self.front = self.front + 1;
            Some(v)
        } else {
            None
        }
    }

    /// The next value from the back, if the ends have not met.
    pub fn next_back(&mut self) -> (r: Option<u64>)
        requires
            old(self).front <= old(self).back <= old(self).items@.len(),
        ensures
            final(self).items@ == old(self).items@,
            final(self).front == old(self).front,
            old(self).front < old(self).back ==> r == Some(
                old(self).items@[old(self).back - 1],
            ) && final(self).back == old(self).back - 1,
            old(self).front >= old(self).back ==> r is None && final(self).back == old(self).back,
    {
        if self.front < self.back {
            self.back = self.back - 1;
            let v = self.items[self.back];
            Some(v)
        } else {
            None
        }
    }
}

} // verus!
