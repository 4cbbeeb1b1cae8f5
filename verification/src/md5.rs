//! The MD5 message digest, with a fixed-capacity single-block string
//! buffer for repeated hashing of short inputs.

use vstd::prelude::*;
use vstd::string::{StrSliceExecFns, StringSliceAdditionalSpecFns};

verus! {

/// A 32-bit word assembled from four little-endian bytes.
pub open spec fn le32_spec(b0: u8, b1: u8, b2: u8, b3: u8) -> u32 {
    (b0 as u32) | ((b1 as u32) << 8) | ((b2 as u32) << 16) | ((b3 as u32) << 24)
}

/// The 32-bit word at byte offset `i` of a message.
pub open spec fn word_at(bytes: Seq<u8>, i: int) -> u32 {
    le32_spec(bytes[i], bytes[i + 1], bytes[i + 2], bytes[i + 3])
}

/// The per-round shift table.
pub open spec fn s_spec(i: int) -> u32 {
    seq![
        7u32, 12, 17, 22, 7, 12, 17, 22, 7, 12, 17, 22, 7, 12, 17, 22,
        5, 9, 14, 20, 5, 9, 14, 20, 5, 9, 14, 20, 5, 9, 14, 20,
        4, 11, 16, 23, 4, 11, 16, 23, 4, 11, 16, 23, 4, 11, 16, 23,
        6, 10, 15, 21, 6, 10, 15, 21, 6, 10, 15, 21, 6, 10, 15, 21,
    ][i]
}

/// The per-round additive constant table.
pub open spec fn k_spec(i: int) -> u32 {
    seq![
        0xd76aa478u32, 0xe8c7b756, 0x242070db, 0xc1bdceee, 0xf57c0faf, 0x4787c62a, 0xa8304613,
        0xfd469501, 0x698098d8, 0x8b44f7af, 0xffff5bb1, 0x895cd7be, 0x6b901122, 0xfd987193,
        0xa679438e, 0x49b40821, 0xf61e2562, 0xc040b340, 0x265e5a51, 0xe9b6c7aa, 0xd62f105d,
        0x02441453, 0xd8a1e681, 0xe7d3fbc8, 0x21e1cde6, 0xc33707d6, 0xf4d50d87, 0x455a14ed,
        0xa9e3e905, 0xfcefa3f8, 0x676f02d9, 0x8d2a4c8a, 0xfffa3942, 0x8771f681, 0x6d9d6122,
        0xfde5380c, 0xa4beea44, 0x4bdecfa9, 0xf6bb4b60, 0xbebfbc70, 0x289b7ec6, 0xeaa127fa,
        0xd4ef3085, 0x04881d05, 0xd9d4d039, 0xe6db99e5, 0x1fa27cf8, 0xc4ac5665, 0xf4292244,
        0x432aff97, 0xab9423a7, 0xfc93a039, 0x655b59c3, 0x8f0ccc92, 0xffeff47d, 0x85845dd1,
        0x6fa87e4f, 0xfe2ce6e0, 0xa3014314, 0x4e0811a1, 0xf7537e82, 0xbd3af235, 0x2ad7d2bb,
        0xeb86d391,
    ][i]
}

/// Left rotation of a word by `s % 32` positions.
pub open spec fn rotl_spec(x: u32, s: u32) -> u32 {
    let sm = s % 32;
    if sm == 0 {
        x
    } else {
        (x << sm) | (x >> ((32 - sm) as u32))
    }
}

/// The nonlinear function of round `i`.
pub open spec fn md5_f(b: u32, c: u32, d: u32, i: int) -> u32 {
    if i < 16 {
        (b & c) | (!b & d)
    } else if i < 32 {
        (d & b) | (!d & c)
    } else if i < 48 {
        b ^ c ^ d
    } else {
        c ^ (b | !d)
    }
}

/// The message word consumed by round `i`.
pub open spec fn md5_g(i: int) -> int {
    if i < 16 {
        i
    } else if i < 32 {
        (5 * i + 1) % 16
    } else if i < 48 {
        (3 * i + 5) % 16
    } else {
        (7 * i) % 16
    }
}

/// One round of the compression function.
pub open spec fn md5_round(st: (u32, u32, u32, u32), chunks: Seq<u32>, i: int) -> (
    u32,
    u32,
    u32,
    u32,
) {
    let f = md5_f(st.1, st.2, st.3, i).wrapping_add(st.0).wrapping_add(k_spec(i)).wrapping_add(
        chunks[md5_g(i)],
    );
    (st.3, st.1.wrapping_add(rotl_spec(f, s_spec(i))), st.1, st.2)
}

/// The state after the first `i` rounds.
pub open spec fn md5_rounds(st: (u32, u32, u32, u32), chunks: Seq<u32>, i: int) -> (
    u32,
    u32,
    u32,
    u32,
)
    decreases i,
{
    if i <= 0 {
        st
    } else {
        md5_round(md5_rounds(st, chunks, i - 1), chunks, i - 1)
    }
}

/// One application of the compression function: 64 rounds and the
/// final feed-forward addition.
pub open spec fn md5_mix_spec(chunks: Seq<u32>, st: (u32, u32, u32, u32)) -> (u32, u32, u32, u32) {
    let r = md5_rounds(st, chunks, 64);
    (
        st.0.wrapping_add(r.0),
        st.1.wrapping_add(r.1),
        st.2.wrapping_add(r.2),
        st.3.wrapping_add(r.3),
    )
}

/// The sixteen words of the 64-byte block starting at `off`.
pub open spec fn block_words(bytes: Seq<u8>, off: int) -> Seq<u32> {
    Seq::new(16, |k: int| word_at(bytes, off + 4 * k))
}

/// The state after compressing the first `n` 64-byte blocks.
pub open spec fn md5_blocks(bytes: Seq<u8>, n: int, st: (u32, u32, u32, u32)) -> (
    u32,
    u32,
    u32,
    u32,
)
    decreases n,
{
    if n <= 0 {
        st
    } else {
        md5_mix_spec(block_words(bytes, 64 * (n - 1)), md5_blocks(bytes, n - 1, st))
    }
}

/// Byte `i` of the little-endian 64-bit message bit length.
pub open spec fn len_byte(l: nat, i: int) -> u8 {
    (((l * 8) as int / vstd::arithmetic::power2::pow2((8 * i) as nat) as int) % 256) as u8
}

/// A message padded to MD5's block format: a `0x80` marker, zeros up
/// to 56 bytes modulo 64, then the bit length in little-endian order.
pub open spec fn md5_padded(msg: Seq<u8>) -> Seq<u8> {
    let l = msg.len() as int;
    let z = (55 - l) % 64;
    msg + seq![0x80u8] + Seq::new(z as nat, |i: int| 0u8) + Seq::new(8, |i: int| len_byte(msg.len(), i))
}

/// The initial state of the digest.
pub open spec fn md5_init() -> (u32, u32, u32, u32) {
    (0x67452301u32, 0xefcdab89u32, 0x98badcfeu32, 0x10325476u32)
}

/// The sixteen output bytes of a final state.
pub open spec fn state_bytes(st: (u32, u32, u32, u32)) -> Seq<u8> {
    word_bytes(st.0) + word_bytes(st.1) + word_bytes(st.2) + word_bytes(st.3)
}

/// The four little-endian bytes of a word.
pub open spec fn word_bytes(w: u32) -> Seq<u8> {
    seq![w as u8, (w >> 8) as u8, (w >> 16) as u8, (w >> 24) as u8]
}

/// The MD5 digest of a whole message.
pub open spec fn md5_spec(msg: Seq<u8>) -> Seq<u8> {
    let padded = md5_padded(msg);
    state_bytes(md5_blocks(padded, padded.len() as int / 64, md5_init()))
}

/// The shift table as a vector.
fn s_table() -> (r: Vec<u32>)
    ensures
        r@.len() == 64,
        forall|i: int| 0 <= i < 64 ==> r@[i] == s_spec(i),
{
    let r: Vec<u32> = vec![
        7u32, 12, 17, 22, 7, 12, 17, 22, 7, 12, 17, 22, 7, 12, 17, 22,
        5, 9, 14, 20, 5, 9, 14, 20, 5, 9, 14, 20, 5, 9, 14, 20,
        4, 11, 16, 23, 4, 11, 16, 23, 4, 11, 16, 23, 4, 11, 16, 23,
        6, 10, 15, 21, 6, 10, 15, 21, 6, 10, 15, 21, 6, 10, 15, 21,
    ];
    r
}

/// The constant table as a vector.
fn k_table() -> (r: Vec<u32>)
    ensures
        r@.len() == 64,
        forall|i: int| 0 <= i < 64 ==> r@[i] == k_spec(i),
{
    let r: Vec<u32> = vec![
        0xd76aa478u32, 0xe8c7b756, 0x242070db, 0xc1bdceee, 0xf57c0faf, 0x4787c62a, 0xa8304613,
        0xfd469501, 0x698098d8, 0x8b44f7af, 0xffff5bb1, 0x895cd7be, 0x6b901122, 0xfd987193,
        0xa679438e, 0x49b40821, 0xf61e2562, 0xc040b340, 0x265e5a51, 0xe9b6c7aa, 0xd62f105d,
        0x02441453, 0xd8a1e681, 0xe7d3fbc8, 0x21e1cde6, 0xc33707d6, 0xf4d50d87, 0x455a14ed,
        0xa9e3e905, 0xfcefa3f8, 0x676f02d9, 0x8d2a4c8a, 0xfffa3942, 0x8771f681, 0x6d9d6122,
        0xfde5380c, 0xa4beea44, 0x4bdecfa9, 0xf6bb4b60, 0xbebfbc70, 0x289b7ec6, 0xeaa127fa,
        0xd4ef3085, 0x04881d05, 0xd9d4d039, 0xe6db99e5, 0x1fa27cf8, 0xc4ac5665, 0xf4292244,
        0x432aff97, 0xab9423a7, 0xfc93a039, 0x655b59c3, 0x8f0ccc92, 0xffeff47d, 0x85845dd1,
        0x6fa87e4f, 0xfe2ce6e0, 0xa3014314, 0x4e0811a1, 0xf7537e82, 0xbd3af235, 0x2ad7d2bb,
        0xeb86d391,
    ];
    r
}

/// Four little-endian bytes packed into a word.
fn le32(b0: u8, b1: u8, b2: u8, b3: u8) -> (r: u32)
    ensures
        r == le32_spec(b0, b1, b2, b3),
{
    (b0 as u32) | ((b1 as u32) << 8u32) | ((b2 as u32) << 16u32) | ((b3 as u32) << 24u32)
}

/// One round's body, shared by the four round loops.
fn md5_tail(
    f0: u32,
    g: usize,
    i: usize,
    chunks: &Vec<u32>,
    ktab: &Vec<u32>,
    stab: &Vec<u32>,
    a: &mut u32,
    b: &mut u32,
    c: &mut u32,
    d: &mut u32,
)
    requires
        i < 64,
        g < 16,
        chunks@.len() == 16,
        ktab@.len() == 64,
        forall|x: int| 0 <= x < 64 ==> ktab@[x] == k_spec(x),
        stab@.len() == 64,
        forall|x: int| 0 <= x < 64 ==> stab@[x] == s_spec(x),
        g as int == md5_g(i as int),
        f0 == md5_f(*old(b), *old(c), *old(d), i as int),
    ensures
        (*final(a), *final(b), *final(c), *final(d)) == md5_round(
            (*old(a), *old(b), *old(c), *old(d)),
            chunks@,
            i as int,
        ),
{
    let f = f0.wrapping_add(*a).wrapping_add(ktab[i]).wrapping_add(chunks[g]);
    let s = stab[i];
    let sm = s % 32;
    let rot = if sm == 0 {
        f
    } else {
        (f << sm) | (f >> (32 - sm))
    };
    proof {
        assert(rot == rotl_spec(f, s));
    }
    *a = *d;
    *d = *c;
    *c = *b;
    *b = (*b).wrapping_add(rot);
}

/// The MD5 compression function: mixes one 16-word block into the
/// running state.
pub fn md5_mix(chunks: &Vec<u32>, a0: &mut u32, b0: &mut u32, c0: &mut u32, d0: &mut u32)
    requires
        chunks@.len() == 16,
    ensures
        (*final(a0), *final(b0), *final(c0), *final(d0)) == md5_mix_spec(
            chunks@,
            (*old(a0), *old(b0), *old(c0), *old(d0)),
        ),
{
    let ktab = k_table();
    let stab = s_table();
    let mut a = *a0;
    let mut b = *b0;
    let mut c = *c0;
    let mut d = *d0;
    let ghost st0 = (*a0, *b0, *c0, *d0);
    let mut i: usize = 0;
    while i < 16
        invariant
            0 <= i <= 16,
            chunks@.len() == 16,
            ktab@.len() == 64,
            forall|x: int| 0 <= x < 64 ==> ktab@[x] == k_spec(x),
            stab@.len() == 64,
            forall|x: int| 0 <= x < 64 ==> stab@[x] == s_spec(x),
            (a, b, c, d) == md5_rounds(st0, chunks@, i as int),
        decreases 16 - i,
    {
        let f = (b & c) | (!b & d);
        md5_tail(f, i, i, chunks, &ktab, &stab, &mut a, &mut b, &mut c, &mut d);
        i = i + 1;
    }
    while i < 32
        invariant
            16 <= i <= 32,
            chunks@.len() == 16,
            ktab@.len() == 64,
            forall|x: int| 0 <= x < 64 ==> ktab@[x] == k_spec(x),
            stab@.len() == 64,
            forall|x: int| 0 <= x < 64 ==> stab@[x] == s_spec(x),
            (a, b, c, d) == md5_rounds(st0, chunks@, i as int),
        decreases 32 - i,
    {
        let f = (d & b) | (!d & c);
        let g = (5 * i + 1) % 16;
        md5_tail(f, g, i, chunks, &ktab, &stab, &mut a, &mut b, &mut c, &mut d);
        i = i + 1;
    }
    while i < 48
        invariant
            32 <= i <= 48,
            chunks@.len() == 16,
            ktab@.len() == 64,
            forall|x: int| 0 <= x < 64 ==> ktab@[x] == k_spec(x),
            stab@.len() == 64,
            forall|x: int| 0 <= x < 64 ==> stab@[x] == s_spec(x),
            (a, b, c, d) == md5_rounds(st0, chunks@, i as int),
        decreases 48 - i,
    {
        let f = b ^ c ^ d;
        let g = (3 * i + 5) % 16;
        md5_tail(f, g, i, chunks, &ktab, &stab, &mut a, &mut b, &mut c, &mut d);
        i = i + 1;
    }
    while i < 64
        invariant
            48 <= i <= 64,
            chunks@.len() == 16,
            ktab@.len() == 64,
            forall|x: int| 0 <= x < 64 ==> ktab@[x] == k_spec(x),
            stab@.len() == 64,
            forall|x: int| 0 <= x < 64 ==> stab@[x] == s_spec(x),
            (a, b, c, d) == md5_rounds(st0, chunks@, i as int),
        decreases 64 - i,
    {
        let f = c ^ (b | !d);
        let g = (7 * i) % 16;
        md5_tail(f, g, i, chunks, &ktab, &stab, &mut a, &mut b, &mut c, &mut d);
        i = i + 1;
    }
    *a0 = (*a0).wrapping_add(a);
    *b0 = (*b0).wrapping_add(b);
    *c0 = (*c0).wrapping_add(c);
    *d0 = (*d0).wrapping_add(d);
}

/// The whole padded form of a message, built as the specification
/// describes it: the message, the `0x80` marker, zeros to 56 bytes
/// modulo 64, then the little-endian 64-bit bit length.
fn build_padded(msg: &Vec<u8>) -> (r: Vec<u8>)
    requires
        msg@.len() < 0x1000_0000_0000_0000,
    ensures
        r@ =~= md5_padded(msg@),
        r@.len() % 64 == 0,
{
    let l = msg.len();
    let mut r: Vec<u8> = Vec::new();
    let mut i: usize = 0;
    while i < l
        invariant
            0 <= i <= l,
            l == msg@.len(),
            r@ =~= msg@.take(i as int),
        decreases l - i,
    {
        r.push(msg[i]);
        i = i + 1;
    }
    proof {
        assert(msg@.take(l as int) =~= msg@);
    }
    r.push(0x80);
    let z = (55usize + 128 - (l % 64)) % 64;
    proof {
        assert((55 + 128 - (l as int % 64)) % 64 == (55 - l as int) % 64) by (nonlinear_arith)
            requires
                l >= 0,
        ;
    }
    let mut j: usize = 0;
    while j < z
        invariant
            0 <= j <= z,
            r@ =~= msg@ + seq![0x80u8] + Seq::new(j as nat, |x: int| 0u8),
        decreases z - j,
    {
        r.push(0);
        j = j + 1;
    }
    let bits = (l as u64) * 8;
    let mut div: u128 = 1;
    let mut k: usize = 0;
    proof {
        vstd::arithmetic::power2::lemma2_to64();
    }
    while k < 8
        invariant
            0 <= k <= 8,
            l == msg@.len(),
            bits == l * 8,
            l < 0x1000_0000_0000_0000,
            z == (55 - l as int) % 64,
            div == vstd::arithmetic::power2::pow2((8 * k) as nat),
            1 <= div <= 0x1_0000_0000_0000_0000,
            r@ =~= msg@ + seq![0x80u8] + Seq::new(z as nat, |x: int| 0u8) + Seq::new(
                k as nat,
                |x: int| len_byte(msg@.len(), x),
            ),
        decreases 8 - k,
    {
        let byte = (((bits as u128) / div) % 256) as u8;
        proof {
            assert(byte == len_byte(msg@.len(), k as int));
        }
        r.push(byte);
        proof {
            vstd::arithmetic::power2::lemma_pow2_adds((8 * k) as nat, 8);
            vstd::arithmetic::power2::lemma2_to64();
            vstd::arithmetic::power2::lemma2_to64_rest();
        }
        div = div * 256;
        k = k + 1;
    }
    proof {
        assert(r@ =~= md5_padded(msg@));
        let l2 = l as int;
        assert(r@.len() == l2 + 1 + (55 - l2) % 64 + 8);
        assert((l2 + 9 + (55 - l2) % 64) % 64 == 0) by (nonlinear_arith)
            requires
                l2 >= 0,
        ;
    }
    r
}

/// The not-yet-compressed remainder of a padded message.
struct Payload {
    padded: Vec<u8>,
    offset: usize,
}

impl Payload {
    spec fn wf(&self) -> bool {
        &&& self.padded@.len() % 64 == 0
        &&& self.offset <= self.padded@.len()
        &&& self.offset % 64 == 0
    }

    spec fn blocks_done(&self) -> int {
        self.offset as int / 64
    }

    /// The padded message for `msg`, with no block consumed yet.
    fn new(msg: &Vec<u8>) -> (r: Self)
        requires
            msg@.len() < 0x1000_0000_0000_0000,
        ensures
            r.wf(),
            r.padded@ =~= md5_padded(msg@),
            r.blocks_done() == 0,
    {
        Payload { padded: build_padded(msg), offset: 0 }
    }

    /// Load the next 64-byte block into `chunks`; false once the whole
    /// padded message has been consumed.
    fn fill(&mut self, chunks: &mut Vec<u32>) -> (more: bool)
        requires
            old(self).wf(),
            old(chunks)@.len() == 16,
        ensures
            final(self).wf(),
            final(self).padded@ == old(self).padded@,
            final(chunks)@.len() == 16,
            more == (old(self).blocks_done() < old(self).padded@.len() as int / 64),
            more ==> final(chunks)@ =~= block_words(
                old(self).padded@,
                64 * old(self).blocks_done(),
            ) && final(self).blocks_done() == old(self).blocks_done() + 1,
            !more ==> *final(self) == *old(self) && final(chunks)@ == old(chunks)@,
    {
        if self.offset >= self.padded.len() {
            proof {
                assert(self.offset == self.padded@.len());
            }
            return false;
        }
        let plen = self.padded.len();
        proof {
            assert(self.offset + 64 <= plen) by (nonlinear_arith)
                requires
                    self.offset < plen,
                    self.offset % 64 == 0,
                    plen % 64 == 0,
            ;
        }
        let off = self.offset;
        let mut k: usize = 0;
        while k < 16
            invariant
                0 <= k <= 16,
                off + 64 <= plen,
                plen == self.padded@.len(),
                chunks@.len() == 16,
                forall|x: int|
                    0 <= x < k ==> #[trigger] chunks@[x] == word_at(self.padded@, off + 4 * x),
            decreases 16 - k,
        {
            proof {
                assert(off + 4 * k + 3 < plen);
            }
            let w = le32(
                self.padded[off + 4 * k],
                self.padded[off + 4 * k + 1],
                self.padded[off + 4 * k + 2],
                self.padded[off + 4 * k + 3],
            );
            chunks.set(k, w);
            k = k + 1;
        }
        self.offset = off + 64;
        proof {
            assert(final(self).offset % 64 == 0);
            assert(chunks@ =~= block_words(self.padded@, off as int));
            assert(64 * (off as int / 64) == off as int) by (nonlinear_arith)
                requires
                    off as int % 64 == 0,
                    off >= 0,
            ;
        }
        true
    }
}

pub struct MD5 {}

impl MD5 {
    /// The MD5 digest of a byte message, as its sixteen output bytes.
    pub fn digest(bytes: &Vec<u8>) -> (r: Vec<u8>)
        requires
            bytes@.len() < 0x1000_0000_0000_0000,
        ensures
            r@ =~= md5_spec(bytes@),
    {
        let mut a0: u32 = 0x67452301;
        let mut b0: u32 = 0xefcdab89;
        let mut c0: u32 = 0x98badcfe;
        let mut d0: u32 = 0x10325476;
        let mut payload = Payload::new(bytes);
        let ghost padded = payload.padded@;
        let mut chunks: Vec<u32> = vec![0u32; 16];
        proof {
            assert(chunks@.len() == 16);
        }
        loop
            invariant
                payload.wf(),
                payload.padded@ == padded,
                chunks@.len() == 16,
                0 <= payload.blocks_done() <= padded.len() as int / 64,
                (a0, b0, c0, d0) == md5_blocks(padded, payload.blocks_done(), md5_init()),
            ensures
                (a0, b0, c0, d0) == md5_blocks(padded, padded.len() as int / 64, md5_init()),
            decreases padded.len() as int / 64 - payload.blocks_done(),
        {
            let more = payload.fill(&mut chunks);
            if !more {
                break;
            }
            md5_mix(&chunks, &mut a0, &mut b0, &mut c0, &mut d0);
        }
        let mut r: Vec<u8> = Vec::new();
        r.push(a0 as u8);
        r.push((a0 >> 8) as u8);
        r.push((a0 >> 16) as u8);
        r.push((a0 >> 24) as u8);
        r.push(b0 as u8);
        r.push((b0 >> 8) as u8);
        r.push((b0 >> 16) as u8);
        r.push((b0 >> 24) as u8);
        r.push(c0 as u8);
        r.push((c0 >> 8) as u8);
        r.push((c0 >> 16) as u8);
        r.push((c0 >> 24) as u8);
        r.push(d0 as u8);
        r.push((d0 >> 8) as u8);
        r.push((d0 >> 16) as u8);
        r.push((d0 >> 24) as u8);
        proof {
            assert(r@ =~= state_bytes((a0, b0, c0, d0)));
        }
        r
    }
}

/// The UTF-8 encoding of a code point, written with plain arithmetic.
pub open spec fn utf8_of(c: nat) -> Seq<u8> {
    if c < 0x80 {
        seq![c as u8]
    } else if c < 0x800 {
        seq![(0xC0 + c / 64) as u8, (0x80 + c % 64) as u8]
    } else if c < 0x10000 {
        seq![(0xE0 + c / 4096) as u8, (0x80 + (c / 64) % 64) as u8, (0x80 + c % 64) as u8]
    } else {
        seq![
            (0xF0 + c / 262144) as u8,
            (0x80 + (c / 4096) % 64) as u8,
            (0x80 + (c / 64) % 64) as u8,
            (0x80 + c % 64) as u8,
        ]
    }
}

/// A fixed-capacity byte buffer sized for a single MD5 block: it holds
/// at most 55 bytes, so one compression round digests it, padding and
/// all.  Repeatedly hashing short strings this way avoids building the
/// padded message again every time.
pub struct MD5String {
    pub bytes: Vec<u8>,
    pub len: usize,
}

impl MD5String {
    /// The buffer is a whole block with room for the padding.
    pub open spec fn wf(&self) -> bool {
        self.bytes@.len() == 64 && self.len <= 55
    }

    /// The bytes stored so far.
    pub open spec fn content(&self) -> Seq<u8> {
        self.bytes@.take(self.len as int)
    }

    /// Everything beyond the stored prefix is still zero, so a digest
    /// sees a correctly padded block.  `truncate_without_zero` gives
    /// this guarantee up deliberately.
    pub open spec fn tail_clean(&self) -> bool {
        forall|i: int| self.len < i < 64 ==> self.bytes@[i] == 0
    }

    /// An empty buffer, pre-marked for an empty digest.
    pub fn new() -> (r: Self)
        ensures
            r.wf(),
            r.tail_clean(),
            r.len_spec() == 0,
            r.content() =~= Seq::<u8>::empty(),
    {
        let mut bytes: Vec<u8> = Vec::new();
        bytes.push(0x80);
        let mut i: usize = 1;
        while i < 64
            invariant
                1 <= i <= 64,
                bytes@.len() == i,
                bytes@[0] == 0x80u8,
                forall|k: int| 1 <= k < i ==> bytes@[k] == 0u8,
            decreases 64 - i,
        {
            bytes.push(0);
            i = i + 1;
        }
        MD5String { bytes, len: 0 }
    }

    pub open spec fn len_spec(&self) -> int {
        self.len as int
    }

    /// The whole backing block.
    pub fn bytes(&self) -> (r: &Vec<u8>)
        ensures
            r@ == self.bytes@,
    {
        &self.bytes
    }

    pub fn len(&self) -> (r: usize)
        ensures
            r == self.len_spec(),
    {
        self.len
    }

    pub fn is_empty(&self) -> (r: bool)
        ensures
            r == (self.len_spec() == 0),
    {
        self.len == 0
    }

    /// Shorten the buffer without clearing the abandoned bytes; a
    /// digest taken before they are overwritten will not match the
    /// shortened content.
    pub fn truncate_without_zero(&mut self, len: usize)
        requires
            len <= old(self).len_spec(),
        ensures
            final(self).len_spec() == len,
            final(self).bytes@ == old(self).bytes@,
    {
        self.len = len;
    }

    /// Shorten the buffer, clearing the abandoned bytes.
    pub fn truncate(&mut self, len: usize)
        requires
            old(self).wf(),
            len <= old(self).len_spec(),
    ensures
            final(self).wf(),
            final(self).len_spec() == len,
            final(self).content() =~= old(self).content().take(len as int),
            old(self).tail_clean() ==> final(self).tail_clean(),
    {
        if len < self.len {
            let mut i: usize = len;
            let top = self.len;
            while i <= top
                invariant
                    len <= i <= top + 1,
                    top <= 55,
                    self.bytes@.len() == 64,
                    self.len == top,
                    forall|k: int| len <= k < i ==> self.bytes@[k] == 0u8,
                    forall|k: int|
                        0 <= k < 64 && !(len <= k < i) ==> self.bytes@[k] == old(self).bytes@[k],
                decreases top + 1 - i,
            {
                self.bytes.set(i, 0);
                i = i + 1;
            }
            self.len = len;
        }
    }

    /// Append raw bytes; fails without changing anything when the
    /// result would not leave room for the digest padding.
    pub fn push_bytes(&mut self, other: &Vec<u8>) -> (r: Result<(), crate::error::Error>)
        requires
            old(self).wf(),
        ensures
            final(self).wf(),
            r is Err <==> old(self).len_spec() + other@.len() > 55,
            r matches Err(e) ==> e is MD5StringOverrun && *final(self) == *old(self),
            r is Ok ==> final(self).content() =~= old(self).content() + other@
                && final(self).len_spec() == old(self).len_spec() + other@.len() && (old(
                self,
            ).tail_clean() ==> final(self).tail_clean()),
    {
        if other.len() > 55 - self.len {
            Err(crate::error::Error::MD5StringOverrun)
        } else {
            let mut i: usize = 0;
            let start = self.len;
            while i < other.len()
                invariant
                    0 <= i <= other@.len(),
                    start + other@.len() <= 55,
                    self.len == start,
                    self.bytes@.len() == 64,
                    forall|k: int| 0 <= k < i ==> self.bytes@[start + k] == other@[k],
                    forall|k: int|
                        0 <= k < 64 && !(start <= k < start + i) ==> self.bytes@[k] == old(
                            self,
                        ).bytes@[k],
                decreases other@.len() - i,
            {
                self.bytes.set(start + i, other[i]);
                i = i + 1;
            }
            self.len = start + other.len();
            Ok(())
        }
    }

    /// Append the UTF-8 bytes of a string slice.
    pub fn push_str(&mut self, s: &str) -> (r: Result<(), crate::error::Error>)
        requires
            old(self).wf(),
        ensures
            final(self).wf(),
            r is Err <==> old(self).len_spec() + s.spec_bytes().len() > 55,
            r matches Err(e) ==> e is MD5StringOverrun && *final(self) == *old(self),
            r is Ok ==> final(self).content() =~= old(self).content() + s.spec_bytes() && (old(
                self,
            ).tail_clean() ==> final(self).tail_clean()),
    {
        let v = s.as_bytes_vec();
        self.push_bytes(&v)
    }

    /// Append one character as its UTF-8 bytes.
    pub fn push(&mut self, ch: char) -> (r: Result<(), crate::error::Error>)
        requires
            old(self).wf(),
        ensures
            final(self).wf(),
            r is Err <==> old(self).len_spec() + utf8_of(ch as nat).len() > 55,
            r matches Err(e) ==> e is MD5StringOverrun && *final(self) == *old(self),
            r is Ok ==> final(self).content() =~= old(self).content() + utf8_of(ch as nat) && (old(
                self,
            ).tail_clean() ==> final(self).tail_clean()),
    {
        let c = ch as u32;
        let mut v: Vec<u8> = Vec::new();
        if c < 0x80 {
            v.push(c as u8);
        } else if c < 0x800 {
            v.push((0xC0 + c / 64) as u8);
            v.push((0x80 + c % 64) as u8);
        } else if c < 0x10000 {
            v.push((0xE0 + c / 4096) as u8);
            v.push((0x80 + (c / 64) % 64) as u8);
            v.push((0x80 + c % 64) as u8);
        } else {
            proof {
                assert(c < 0x110000);
            }
            v.push((0xF0 + c / 262144) as u8);
            v.push((0x80 + (c / 4096) % 64) as u8);
            v.push((0x80 + (c / 64) % 64) as u8);
            v.push((0x80 + c % 64) as u8);
        }
        proof {
            assert(v@ =~= utf8_of(ch as nat));
        }
        self.push_bytes(&v)
    }

    /// The MD5 digest of the stored bytes.  The buffer's own padding
    /// region is written in place, which is what makes the repeated
    /// use cheap.
    pub fn digest(&mut self) -> (r: Vec<u8>)
        requires
            old(self).wf(),
            old(self).tail_clean(),
        ensures
            final(self).wf(),
            final(self).len_spec() == old(self).len_spec(),
            final(self).content() == old(self).content(),
            r@ =~= md5_spec(old(self).content()),
    {
        let l = self.len;
        self.bytes.set(l, 0x80);
        self.bytes.set(56, ((l * 8) % 256) as u8);
        self.bytes.set(57, ((l * 8) / 256) as u8);
        proof {
            let msg = old(self).content();
            let padded = md5_padded(msg);
            assert(msg.len() == l);
            assert((55 - l as int) % 64 == 55 - l as int) by {
                vstd::arithmetic::div_mod::lemma_small_mod((55 - l as int) as nat, 64);
            }
            assert(padded.len() == 64);
            vstd::arithmetic::power2::lemma2_to64();
            assert forall|i: int| 0 <= i < 64 implies self.bytes@[i] == padded[i] by {
                if i < l {
                    assert(padded[i] == msg[i]);
                    assert(msg[i] == old(self).bytes@[i]);
                } else if i == l {
                    assert(padded[i] == 0x80u8);
                } else if i < 56 {
                    assert(padded[i] == 0u8);
                    assert(self.bytes@[i] == old(self).bytes@[i]);
                } else {
                    let k = i - 56;
                    assert(padded[i] == len_byte(msg.len(), k));
                    if i == 56 {
                        assert(vstd::arithmetic::power2::pow2(0) == 1);
                        assert((l as int * 8) / 1 == l as int * 8);
                        assert(len_byte(msg.len(), 0) == ((l * 8) % 256) as u8);
                    } else if i == 57 {
                        assert(vstd::arithmetic::power2::pow2(8) == 256);
                        assert((l as int * 8) / 256 < 256);
                        assert(len_byte(msg.len(), 1) == ((l * 8) / 256) as u8);
                    } else {
                        assert(self.bytes@[i] == old(self).bytes@[i]);
                        assert(old(self).bytes@[i] == 0u8);
                        assert((l as int * 8) / vstd::arithmetic::power2::pow2(
                            (8 * k) as nat,
                        ) as int == 0) by {
                            assert(l as int * 8 < 65536);
                            assert(vstd::arithmetic::power2::pow2((8 * k) as nat) >= 65536) by {
                                if k == 2 {
                                    assert(vstd::arithmetic::power2::pow2(16) == 65536);
                                } else {
                                    vstd::arithmetic::power2::lemma_pow2_strictly_increases(
                                        16,
                                        (8 * k) as nat,
                                    );
                                    assert(vstd::arithmetic::power2::pow2(16) == 65536);
                                }
                            }
                            vstd::arithmetic::div_mod::lemma_basic_div(
                                l as int * 8,
                                vstd::arithmetic::power2::pow2((8 * k) as nat) as int,
                            );
                        }
                        assert(len_byte(msg.len(), k) == 0u8);
                    }
                }
            }
            assert(self.bytes@ =~= padded);
            assert(self.content() =~= old(self).content());
        }
        let mut a0: u32 = 0x67452301;
        let mut b0: u32 = 0xefcdab89;
        let mut c0: u32 = 0x98badcfe;
        let mut d0: u32 = 0x10325476;
        let mut chunks: Vec<u32> = vec![0u32; 16];
        let mut k: usize = 0;
        while k < 16
            invariant
                0 <= k <= 16,
                self.bytes@.len() == 64,
                chunks@.len() == 16,
                forall|x: int|
                    0 <= x < k ==> #[trigger] chunks@[x] == word_at(self.bytes@, 4 * x),
            decreases 16 - k,
        {
            let w = le32(
                self.bytes[4 * k],
                self.bytes[4 * k + 1],
                self.bytes[4 * k + 2],
                self.bytes[4 * k + 3],
            );
            chunks.set(k, w);
            k = k + 1;
        }
        proof {
            assert(chunks@ =~= block_words(self.bytes@, 0));
        }
        md5_mix(&chunks, &mut a0, &mut b0, &mut c0, &mut d0);
        proof {
            let padded = md5_padded(old(self).content());
            assert(md5_blocks(padded, 0, md5_init()) == md5_init());
            assert(md5_blocks(padded, 1, md5_init()) == md5_mix_spec(
                block_words(padded, 0),
                md5_blocks(padded, 0, md5_init()),
            ));
            assert(padded.len() as int / 64 == 1);
        }
        let mut r: Vec<u8> = Vec::new();
        r.push(a0 as u8);
        r.push((a0 >> 8) as u8);
        r.push((a0 >> 16) as u8);
        r.push((a0 >> 24) as u8);
        r.push(b0 as u8);
        r.push((b0 >> 8) as u8);
        r.push((b0 >> 16) as u8);
        r.push((b0 >> 24) as u8);
        r.push(c0 as u8);
        r.push((c0 >> 8) as u8);
        r.push((c0 >> 16) as u8);
        r.push((c0 >> 24) as u8);
        r.push(d0 as u8);
        r.push((d0 >> 8) as u8);
        r.push((d0 >> 16) as u8);
        r.push((d0 >> 24) as u8);
        proof {
            assert(r@ =~= state_bytes((a0, b0, c0, d0)));
        }
        r
    }

    /// A buffer holding the bytes of `s`; fails when `s` is longer
    /// than the single-block capacity.
    pub fn from_str_checked(s: &str) -> (r: Result<Self, crate::error::Error>)
        ensures
            r is Err <==> s.spec_bytes().len() > 55,
            r matches Ok(m) ==> m.wf() && m.tail_clean() && m.content() =~= s.spec_bytes(),
    {
        let mut m = Self::new();
        match m.push_str(s) {
            Ok(_) => Ok(m),
            Err(e) => Err(e),
        }
    }
}

} // verus!
