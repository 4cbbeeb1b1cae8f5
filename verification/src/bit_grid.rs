//! Packed two-dimensional bit grids: one with fixed bounds, and one
//! that grows its bounds on demand as cells are touched.

use vstd::prelude::*;

verus! {

/// Bit `b` of word `w`.
pub open spec fn gw_bit(w: u64, b: u64) -> bool {
    (w >> b) & 1 == 1
}

/// The linear position of `(x, y)` in a row-major grid.
pub open spec fn pos_of(x: int, y: int, min_x: int, min_y: int, width: int) -> int {
    (y - min_y) * width + (x - min_x)
}

/// Positions inside the same grid are distinct for distinct cells.
proof fn lemma_pos_inj(x1: int, y1: int, x2: int, y2: int, min_x: int, min_y: int, width: int)
    requires
        width >= 1,
        min_x <= x1 < min_x + width,
        min_x <= x2 < min_x + width,
        pos_of(x1, y1, min_x, min_y, width) == pos_of(x2, y2, min_x, min_y, width),
    ensures
        x1 == x2 && y1 == y2,
{
    let p = pos_of(x1, y1, min_x, min_y, width);
    assert(y1 == y2 && x1 == x2) by (nonlinear_arith)
        requires
            width >= 1,
            0 <= x1 - min_x < width,
            0 <= x2 - min_x < width,
            (y1 - min_y) * width + (x1 - min_x) == (y2 - min_y) * width + (x2 - min_x),
    ;
}

/// Positions below a word multiple land in an earlier word.
proof fn lemma_div_lt(p: int, k: int)
    requires
        0 <= p,
        k >= 0,
        p < 64 * k,
    ensures
        p / 64 < k,
{
    vstd::arithmetic::div_mod::lemma_fundamental_div_mod(p, 64);
    if p / 64 >= k {
        assert(64 * (p / 64) >= 64 * k) by (nonlinear_arith)
            requires
                p / 64 >= k,
        ;
    }
}

/// A position splits into its word index and bit offset.
proof fn lemma_pos_split(p: int)
    requires
        p >= 0,
    ensures
        p == 64 * (p / 64) + p % 64,
        0 <= p % 64 < 64,
{
    vstd::arithmetic::div_mod::lemma_fundamental_div_mod(p, 64);
}

/// Set or clear one bit of a word vector; every other bit is kept.
fn word_set(words: &mut Vec<u64>, p: usize, set: bool)
    requires
        p / 64 < old(words)@.len(),
    ensures
        final(words)@.len() == old(words)@.len(),
        gw_bit(final(words)@[p as int / 64], (p as u64) % 64) == set,
        forall|q: int|
            0 <= q && q / 64 < old(words)@.len() && q != p ==> gw_bit(
                #[trigger] final(words)@[q / 64],
                (q % 64) as u64,
            ) == gw_bit(old(words)@[q / 64], (q % 64) as u64),
{
    let idx = p / 64;
    let bit = (p % 64) as u64;
    let w = words[idx];
    let neww = if set {
        w | (1u64 << bit)
    } else {
        w & !(1u64 << bit)
    };
    words.set(idx, neww);
    proof {
        assert((((neww >> bit) & 1) == 1) == set && (forall|b2: u64|
            b2 < 64 && b2 != bit ==> ((neww >> b2) & 1) == ((w >> b2) & 1))) by (bit_vector)
            requires
                neww == (if set {
                    w | (1u64 << bit)
                } else {
                    w & !(1u64 << bit)
                }),
                bit < 64,
        ;
        assert forall|q: int|
            0 <= q && q / 64 < old(words)@.len() && q != p implies gw_bit(
            #[trigger] final(words)@[q / 64],
            (q % 64) as u64,
        ) == gw_bit(old(words)@[q / 64], (q % 64) as u64) by {
            if q / 64 == p as int / 64 {
                assert(q % 64 != p as int % 64) by (nonlinear_arith)
                    requires
                        q != p,
                        q / 64 == p as int / 64,
                        q >= 0,
                        p >= 0,
                ;
                let b2 = (q % 64) as u64;
                assert(b2 < 64 && b2 != bit);
                assert(((neww >> b2) & 1) == ((w >> b2) & 1));
            } else {
                assert(final(words)@[q / 64] == old(words)@[q / 64]);
            }
        }
    }
}

/// Read one bit of a word vector.
fn word_get(words: &Vec<u64>, p: usize) -> (r: bool)
    requires
        p / 64 < words@.len(),
    ensures
        r == gw_bit(words@[p as int / 64], (p as u64) % 64),
{
    let idx = p / 64;
    let bit = (p % 64) as u64;
    (words[idx] >> bit) & 1 == 1
}

/// A fixed-bounds packed bit grid.
pub struct BitGridConst {
    pub grid: Vec<u64>,
    pub min_x: i64,
    pub min_y: i64,
    pub width: usize,
    pub height: usize,
}

impl BitGridConst {
    pub open spec fn wf(&self) -> bool {
        &&& self.width % 64 == 0
        &&& 64 <= self.width <= 0x4000
        &&& 1 <= self.height <= 0x4000
        &&& self.grid@.len() == (self.width as int / 64) * self.height
        &&& -0x1000_0000 <= self.min_x <= 0x1000_0000
        &&& -0x1000_0000 <= self.min_y <= 0x1000_0000
    }

    /// The cell `(x, y)` lies inside the grid's bounds.
    pub open spec fn in_bounds(&self, x: int, y: int) -> bool {
        self.min_x <= x < self.min_x + self.width && self.min_y <= y < self.min_y + self.height
    }

    /// The value of cell `(x, y)`.
    pub open spec fn at(&self, x: int, y: int) -> bool {
        let p = pos_of(x, y, self.min_x as int, self.min_y as int, self.width as int);
        gw_bit(self.grid@[p / 64], (p % 64) as u64)
    }

    /// A cleared grid over the given bounds; the width must be a whole
    /// number of words.
    #[verifier::rlimit(100)]
    #[verifier::spinoff_prover]
    pub fn new(min_x: i64, min_y: i64, width: usize, height: usize) -> (r: Self)
        requires
            width % 64 == 0,
            64 <= width <= 0x4000,
            1 <= height <= 0x4000,
            -0x1000_0000 <= min_x <= 0x1000_0000,
            -0x1000_0000 <= min_y <= 0x1000_0000,
        ensures
            r.wf(),
            r.min_x == min_x && r.min_y == min_y && r.width == width && r.height == height,
            forall|x: int, y: int| r.in_bounds(x, y) ==> !(#[trigger] r.at(x, y)),
    {
        proof {
            assert((width as int / 64) * height <= 0x40_0000) by (nonlinear_arith)
                requires
                    width <= 0x4000,
                    height <= 0x4000,
                    width >= 64,
                    height >= 1,
            ;
        }
        let nwords = (width / 64) * height;
        let grid = zero_words(nwords);
        let r = BitGridConst { grid, min_x, min_y, width, height };
        proof {
            assert forall|x: int, y: int| r.in_bounds(x, y) implies !(#[trigger] r.at(x, y)) by {
                let p = pos_of(x, y, min_x as int, min_y as int, width as int);
                lemma_grid_pos_bounds(x, y, min_x as int, min_y as int, width as int, height as int);
                lemma_pos_split(p);
                assert(64 * ((width as int / 64) * height) == width * height) by (nonlinear_arith)
                    requires
                        width as int % 64 == 0,
                        width >= 64,
                ;
                lemma_div_lt(p, (width as int / 64) * height);
                assert(r.grid@[p / 64] == 0u64);
                let b = (p % 64) as u64;
                assert(!gw_bit(0u64, b)) by (bit_vector)
                    requires
                        b < 64,
                ;
            }
        }
        r
    }

    /// Mark cell `(x, y)`.
    pub fn set_bit(&mut self, x: i64, y: i64)
        requires
            old(self).wf(),
            old(self).in_bounds(x as int, y as int),
        ensures
            final(self).wf(),
            final(self).min_x == old(self).min_x && final(self).min_y == old(self).min_y
                && final(self).width == old(self).width && final(self).height == old(self).height,
            final(self).at(x as int, y as int),
            forall|x2: int, y2: int|
                old(self).in_bounds(x2, y2) && !(x2 == x && y2 == y) ==> #[trigger] final(self).at(
                    x2,
                    y2,
                ) == old(self).at(x2, y2),
    {
        self.write_bit(x, y, true);
    }

    /// Clear cell `(x, y)`.
    pub fn clear_bit(&mut self, x: i64, y: i64)
        requires
            old(self).wf(),
            old(self).in_bounds(x as int, y as int),
        ensures
            final(self).wf(),
            final(self).min_x == old(self).min_x && final(self).min_y == old(self).min_y
                && final(self).width == old(self).width && final(self).height == old(self).height,
            !final(self).at(x as int, y as int),
            forall|x2: int, y2: int|
                old(self).in_bounds(x2, y2) && !(x2 == x && y2 == y) ==> #[trigger] final(self).at(
                    x2,
                    y2,
                ) == old(self).at(x2, y2),
    {
        self.write_bit(x, y, false);
    }

    /// Write one cell.
    #[verifier::rlimit(100)]
    #[verifier::spinoff_prover]
    fn write_bit(&mut self, x: i64, y: i64, set: bool)
        requires
            old(self).wf(),
            old(self).in_bounds(x as int, y as int),
        ensures
            final(self).wf(),
            final(self).min_x == old(self).min_x && final(self).min_y == old(self).min_y
                && final(self).width == old(self).width && final(self).height == old(self).height,
            final(self).at(x as int, y as int) == set,
            forall|x2: int, y2: int|
                old(self).in_bounds(x2, y2) && !(x2 == x && y2 == y) ==> #[trigger] final(self).at(
                    x2,
                    y2,
                ) == old(self).at(x2, y2),
    {
        proof {
            lemma_grid_pos_bounds(
                x as int,
                y as int,
                self.min_x as int,
                self.min_y as int,
                self.width as int,
                self.height as int,
            );
        }
        let nx = (x - self.min_x) as usize;
        let ny = (y - self.min_y) as usize;
        proof {
            assert(ny * self.width + nx < 0x2000_0000) by (nonlinear_arith)
                requires
                    0 <= nx < self.width <= 0x4000,
                    0 <= ny < self.height <= 0x4000,
            ;
        }
        let p = ny * self.width + nx;
        proof {
            assert(p as int == pos_of(
                x as int,
                y as int,
                self.min_x as int,
                self.min_y as int,
                self.width as int,
            ));
            lemma_pos_split(p as int);
            lemma_grid_word_bound(p as int, self.width as int, self.height as int);
        }
        word_set(&mut self.grid, p, set);
        proof {
            let mnx = self.min_x as int;
            let mny = self.min_y as int;
            let w = self.width as int;
            let fself = *self;
            assert forall|x2: int, y2: int|
                old(self).in_bounds(x2, y2) && !(x2 == x && y2 == y) implies #[trigger] (fself.at(
                    x2,
                    y2,
                )) == old(self).at(x2, y2) by {
                let q = pos_of(x2, y2, mnx, mny, w);
                lemma_grid_pos_bounds(x2, y2, mnx, mny, w, self.height as int);
                lemma_pos_split(q);
                lemma_grid_word_bound(q, w, self.height as int);
                if q == p {
                    lemma_pos_inj(x2, y2, x as int, y as int, mnx, mny, w);
                } else {
                    assert(gw_bit(fself.grid@[q / 64], (q % 64) as u64) == gw_bit(
                        old(self).grid@[q / 64],
                        (q % 64) as u64,
                    ));
                }
            }
        }
    }

    /// The value of cell `(x, y)`.
    #[verifier::rlimit(100)]
    #[verifier::spinoff_prover]
    pub fn bit_is_set(&self, x: i64, y: i64) -> (r: bool)
        requires
            self.wf(),
            self.in_bounds(x as int, y as int),
        ensures
            r == self.at(x as int, y as int),
    {
        proof {
            lemma_grid_pos_bounds(
                x as int,
                y as int,
                self.min_x as int,
                self.min_y as int,
                self.width as int,
                self.height as int,
            );
        }
        let nx = (x - self.min_x) as usize;
        let ny = (y - self.min_y) as usize;
        proof {
            assert(ny * self.width + nx < 0x2000_0000) by (nonlinear_arith)
                requires
                    0 <= nx < self.width <= 0x4000,
                    0 <= ny < self.height <= 0x4000,
            ;
        }
        let p = ny * self.width + nx;
        proof {
            assert(p as int == pos_of(
                x as int,
                y as int,
                self.min_x as int,
                self.min_y as int,
                self.width as int,
            ));
            lemma_pos_split(p as int);
            lemma_grid_word_bound(p as int, self.width as int, self.height as int);
        }
        word_get(&self.grid, p)
    }

    /// The 3-by-3 neighborhood around `(x, y)` packed into nine bits:
    /// the row above in bits 6 to 8, the cell's own row in bits 3 to
    /// 5, the row below in bits 0 to 2, west to east.
    #[verifier::rlimit(100)]
    #[verifier::spinoff_prover]
    pub fn get_surround(&self, x: i64, y: i64) -> (r: u16)
        requires
            self.wf(),
            self.in_bounds(x as int - 1, y as int - 1),
            self.in_bounds(x as int + 1, y as int + 1),
        ensures
            r == surround_value(
                self.at(x - 1, y - 1),
                self.at(x as int, y - 1),
                self.at(x + 1, y - 1),
                self.at(x - 1, y as int),
                self.at(x as int, y as int),
                self.at(x + 1, y as int),
                self.at(x - 1, y + 1),
                self.at(x as int, y + 1),
                self.at(x + 1, y + 1),
            ),
    {
        let mut r: u16 = 0;
        if self.bit_is_set(x - 1, y - 1) {
            r = r + 64;
        }
        if self.bit_is_set(x, y - 1) {
            r = r + 128;
        }
        if self.bit_is_set(x + 1, y - 1) {
            r = r + 256;
        }
        if self.bit_is_set(x - 1, y) {
            r = r + 8;
        }
        if self.bit_is_set(x, y) {
            r = r + 16;
        }
        if self.bit_is_set(x + 1, y) {
            r = r + 32;
        }
        if self.bit_is_set(x - 1, y + 1) {
            r = r + 1;
        }
        if self.bit_is_set(x, y + 1) {
            r = r + 2;
        }
        if self.bit_is_set(x + 1, y + 1) {
            r = r + 4;
        }
        r
    }

    /// Clear every cell.
    #[verifier::rlimit(100)]
    #[verifier::spinoff_prover]
    pub fn clear(&mut self)
        requires
            old(self).wf(),
        ensures
            final(self).wf(),
            final(self).min_x == old(self).min_x && final(self).min_y == old(self).min_y
                && final(self).width == old(self).width && final(self).height == old(self).height,
            forall|x: int, y: int| final(self).in_bounds(x, y) ==> !(#[trigger] final(self).at(
                x,
                y,
            )),
    {
        let n = self.grid.len();
        self.grid = zero_words(n);
        proof {
            let fself = *self;
            assert forall|x: int, y: int| fself.in_bounds(x, y) implies !(#[trigger] (fself.at(
                x,
                y,
            ))) by {
                let p = pos_of(x, y, self.min_x as int, self.min_y as int, self.width as int);
                lemma_grid_pos_bounds(
                    x,
                    y,
                    self.min_x as int,
                    self.min_y as int,
                    self.width as int,
                    self.height as int,
                );
                lemma_pos_split(p);
                lemma_grid_word_bound(p, self.width as int, self.height as int);
                let b = (p % 64) as u64;
                assert(!gw_bit(0u64, b)) by (bit_vector)
                    requires
                        b < 64,
                ;
            }
        }
    }
}

/// The packed nine-bit neighborhood value.
pub open spec fn surround_value(
    nw: bool,
    n: bool,
    ne: bool,
    w: bool,
    c: bool,
    e: bool,
    sw: bool,
    s: bool,
    se: bool,
) -> u16 {
    ((if sw {
        1u16
    } else {
        0u16
    }) + (if s {
        2u16
    } else {
        0u16
    }) + (if se {
        4u16
    } else {
        0u16
    }) + (if w {
        8u16
    } else {
        0u16
    }) + (if c {
        16u16
    } else {
        0u16
    }) + (if e {
        32u16
    } else {
        0u16
    }) + (if nw {
        64u16
    } else {
        0u16
    }) + (if n {
        128u16
    } else {
        0u16
    }) + (if ne {
        256u16
    } else {
        0u16
    })) as u16
}

/// A position below `width * height` sits in a stored word.
proof fn lemma_grid_word_bound(p: int, width: int, height: int)
    requires
        0 <= p < width * height,
        width % 64 == 0,
        width >= 64,
        height >= 1,
    ensures
        p / 64 < (width / 64) * height,
{
    assert(64 * ((width / 64) * height) == width * height) by (nonlinear_arith)
        requires
            width % 64 == 0,
            width >= 64,
    ;
    lemma_div_lt(p, (width / 64) * height);
}

/// In-bounds cells have positions inside the word storage.
proof fn lemma_grid_pos_bounds(x: int, y: int, min_x: int, min_y: int, width: int, height: int)
    requires
        width >= 1,
        min_x <= x < min_x + width,
        min_y <= y < min_y + height,
    ensures
        0 <= pos_of(x, y, min_x, min_y, width) < width * height,
{
    assert(0 <= (y - min_y) * width + (x - min_x) < width * height) by (nonlinear_arith)
        requires
            width >= 1,
            0 <= x - min_x < width,
            0 <= y - min_y < height,
    ;
}

/// A vector of `n` zero words.
fn zero_words(n: usize) -> (r: Vec<u64>)
    ensures
        r@.len() == n,
        forall|k: int| 0 <= k < n ==> r@[k] == 0u64,
{
    let mut r: Vec<u64> = Vec::new();
    let mut i: usize = 0;
    while i < n
        invariant
            0 <= i <= n,
            r@.len() == i,
            forall|k: int| 0 <= k < i ==> r@[k] == 0u64,
        decreases n - i,
    {
        r.push(0);
        i = i + 1;
    }
    r
}

/// `v` rounded down to a multiple of 64.
pub open spec fn flo64(v: int) -> int {
    64 * (v / 64)
}

/// Rounding down never goes up, and moves with its argument.
proof fn lemma_flo64_le(v: int)
    ensures
        v - 63 <= flo64(v) <= v,
{
    vstd::arithmetic::div_mod::lemma_fundamental_div_mod(v, 64);
}

proof fn lemma_flo64_mono(a: int, b: int)
    requires
        a <= b,
    ensures
        flo64(a) <= flo64(b),
{
    vstd::arithmetic::div_mod::lemma_div_is_ordered(a, b, 64);
    assert(64 * (a / 64) <= 64 * (b / 64)) by (nonlinear_arith)
        requires
            a / 64 <= b / 64,
    ;
}

/// Round an i64 down to a multiple of 64.
fn floor64(v: i64) -> (r: i64)
    requires
        -0x4000_0000 <= v <= 0x4000_0000,
    ensures
        r == flo64(v as int),
        r <= v < r + 64,
{
    proof {
        vstd::arithmetic::div_mod::lemma_fundamental_div_mod(v as int, 64);
    }
    if v >= 0 {
        (v / 64) * 64
    } else {
        let up = ((-v) + 63) / 64;
        proof {
            let vi = v as int;
            assert(-(up as int) == vi / 64) by (nonlinear_arith)
                requires
                    up == ((-vi) + 63) / 64,
                    vi < 0,
                    vi == 64 * (vi / 64) + (vi % 64),
                    0 <= vi % 64 < 64,
            ;
        }
        -(up * 64)
    }
}

/// A bit grid that grows its bounds as cells are touched, keeping a
/// margin around everything that has been set.
pub struct BitGrid {
    pub grid: Vec<u64>,
    pub min: (i64, i64),
    pub max: (i64, i64),
    pub width: usize,
    pub min_set: (i64, i64),
    pub max_set: (i64, i64),
}

/// The coordinate range the grid accepts.  The storage caps each axis
/// at 0x4000 cells so a cell index `y * width + x` stays inside a
/// 32-bit `usize`; allowing for the ten-cell growth margin on both
/// sides and the word alignment of the x axis (up to 127 extra
/// cells), a symmetric window of 0x1F80 always fits under that cap.
pub open spec fn coord_ok(v: int) -> bool {
    -0x1F80 <= v <= 0x1F80
}

impl BitGrid {
    pub open spec fn height(&self) -> int {
        self.max.1 - self.min.1 + 1
    }

    pub open spec fn is_empty_grid(&self) -> bool {
        self.grid@.len() == 0
    }

    /// No cell has been touched yet.
    pub open spec fn untouched(&self) -> bool {
        self.min_set == (i64::MAX, i64::MAX) && self.max_set == (i64::MIN, i64::MIN)
    }

    /// The storage geometry is consistent.
    pub open spec fn geom_wf(&self) -> bool {
        &&& (self.is_empty_grid() ==> self.min == (i64::MAX, i64::MAX) && self.max == (
            i64::MIN,
            i64::MIN,
        ) && self.width == 0)
        &&& (!self.is_empty_grid() ==> {
            &&& self.width % 64 == 0
            &&& 64 <= self.width <= 0x4000
            &&& self.min.0 % 64 == 0
            &&& self.max.0 == self.min.0 + self.width - 1
            &&& self.min.1 <= self.max.1
            &&& 1 <= self.height() <= 0x4000
            &&& self.grid@.len() == (self.width as int / 64) * self.height()
            &&& -0x1000_0000 <= self.min.0 <= 0x1000_0000
            &&& -0x1000_0000 <= self.min.1 <= 0x1000_0000
        })
    }

    /// The touched range is ordered and inside the supported window.
    pub open spec fn sets_ok(&self) -> bool {
        self.untouched() || (coord_ok(self.min_set.0 as int) && coord_ok(self.min_set.1 as int)
            && coord_ok(self.max_set.0 as int) && coord_ok(self.max_set.1 as int)
            && self.min_set.0 <= self.max_set.0 && self.min_set.1 <= self.max_set.1)
    }

    /// The bounds still cover the touched range with its margin.
    pub open spec fn covering(&self) -> bool {
        !self.is_empty_grid() ==> {
            &&& !self.untouched()
            &&& flo64(self.min_set.0 - 10) <= self.min.0
            &&& self.min_set.1 - 10 <= self.min.1
            &&& flo64(self.max_set.0 + 10) + 63 >= self.max.0
            &&& self.max_set.1 + 10 >= self.max.1
        }
    }

    pub open spec fn wf(&self) -> bool {
        &&& self.geom_wf()
        &&& self.sets_ok()
        &&& self.covering()
        &&& (self.is_empty_grid() ==> self.untouched())
    }

    pub open spec fn in_bounds(&self, x: int, y: int) -> bool {
        self.min.0 <= x <= self.max.0 && self.min.1 <= y <= self.max.1
    }

    /// The value of cell `(x, y)`: cells outside the bounds are clear.
    pub open spec fn at(&self, x: int, y: int) -> bool {
        if self.in_bounds(x, y) {
            let p = pos_of(x, y, self.min.0 as int, self.min.1 as int, self.width as int);
            gw_bit(self.grid@[p / 64], (p % 64) as u64)
        } else {
            false
        }
    }

    /// An empty grid with no storage at all.
    pub fn new() -> (r: Self)
        ensures
            r.wf(),
            r.is_empty_grid(),
            forall|x: int, y: int| !(#[trigger] r.at(x, y)),
            r.min == (i64::MAX, i64::MAX),
            r.max == (i64::MIN, i64::MIN),
            r.min_set == (i64::MAX, i64::MAX),
            r.max_set == (i64::MIN, i64::MIN),
            r.width == 0,
    {
        BitGrid {
            grid: Vec::new(),
            min: (i64::MAX, i64::MAX),
            max: (i64::MIN, i64::MIN),
            width: 0,
            min_set: (i64::MAX, i64::MAX),
            max_set: (i64::MIN, i64::MIN),
        }
    }

    /// Grow the storage to the word-aligned hull of everything
    /// touched, with a margin of ten cells on every side, carrying
    /// every set cell over.
    #[verifier::rlimit(100)]
    #[verifier::spinoff_prover]
    fn grow(&mut self)
        requires
            old(self).geom_wf(),
            old(self).sets_ok(),
            old(self).covering(),
            !old(self).untouched(),
        ensures
            final(self).wf(),
            !final(self).is_empty_grid(),
            final(self).min.0 == flo64(old(self).min_set.0 - 10),
            final(self).min.1 == old(self).min_set.1 - 10,
            final(self).max.0 == flo64(old(self).max_set.0 + 10) + 63,
            final(self).max.1 == old(self).max_set.1 + 10,
            final(self).min_set == old(self).min_set,
            final(self).max_set == old(self).max_set,
            !old(self).is_empty_grid() ==> final(self).min.0 <= old(self).min.0
                && final(self).min.1 <= old(self).min.1
                && final(self).max.0 >= old(self).max.0
                && final(self).max.1 >= old(self).max.1,
            forall|x: int, y: int| #[trigger] final(self).at(x, y) == old(self).at(x, y),
    {
        let nmin = (self.min_set.0 - 10, self.min_set.1 - 10);
        let nmax = (self.max_set.0 + 10, self.max_set.1 + 10);
        let new_min = (floor64(nmin.0), nmin.1);
        let new_max = (floor64(nmax.0) + 63, nmax.1);
        let new_width = (new_max.0 - new_min.0 + 1) as usize;
        let new_height = (new_max.1 - new_min.1 + 1) as usize;
        proof {
            assert(new_width as int == 64 * (nmax.0 as int / 64) + 64 - 64 * (nmin.0 as int
                / 64));
            assert(new_width % 64 == 0) by (nonlinear_arith)
                requires
                    new_width as int == 64 * (nmax.0 as int / 64) + 64 - 64 * (nmin.0 as int
                        / 64),
            ;
            assert(64 <= new_width <= 0x4000);
            assert(1 <= new_height <= 0x4000);
            assert((new_width as int / 64) * new_height <= 0x4000 * 0x4000 / 64)
                by (nonlinear_arith)
                requires
                    new_width <= 0x4000,
                    new_height <= 0x4000,
                    new_width >= 64,
                    new_width % 64 == 0,
                    new_height >= 1,
            ;
        }
        let mut new_grid = zero_words((new_width / 64) * new_height);
        let ghost old_self = *self;
        proof {
            if !old_self.is_empty_grid() {
                assert(new_min.0 <= old_self.min.0);
                assert(new_min.1 <= old_self.min.1);
                assert(new_max.0 >= old_self.max.0);
                assert(new_max.1 >= old_self.max.1);
            }
            assert forall|x2: int, y2: int|
                new_min.0 <= x2 <= new_max.0 && new_min.1 <= y2 <= new_max.1 implies !(#[trigger] grid_cell(
                new_grid@,
                x2,
                y2,
                new_min.0 as int,
                new_min.1 as int,
                new_width as int,
            )) by {
                let p = pos_of(x2, y2, new_min.0 as int, new_min.1 as int, new_width as int);
                lemma_grid_pos_bounds(
                    x2,
                    y2,
                    new_min.0 as int,
                    new_min.1 as int,
                    new_width as int,
                    new_height as int,
                );
                lemma_pos_split(p);
                lemma_grid_word_bound(p, new_width as int, new_height as int);
                let b = (p % 64) as u64;
                assert(!gw_bit(0u64, b)) by (bit_vector)
                    requires
                        b < 64,
                ;
            }
        }
        if self.grid.len() > 0 {
            // carry every cell of the old bounds across, one at a time
            let mut y = self.min.1;
            while y <= self.max.1
                invariant
                    old_self.wf(),
                    !old_self.is_empty_grid(),
                    *self == old_self,
                    self.min.1 <= y <= self.max.1 + 1,
                    new_min.0 <= self.min.0,
                    new_min.1 <= self.min.1,
                    new_max.0 >= self.max.0,
                    new_max.1 >= self.max.1,
                    new_min.0 % 64 == 0,
                    new_width % 64 == 0,
                    64 <= new_width <= 0x4000,
                    1 <= new_height <= 0x4000,
                    new_max.0 == new_min.0 + new_width - 1,
                    new_max.1 == new_min.1 + new_height - 1,
                    -0x1000_0000 <= new_min.0 <= 0x1000_0000,
                    -0x1000_0000 <= new_min.1 <= 0x1000_0000,
                    new_grid@.len() == (new_width as int / 64) * new_height,
                    forall|x2: int, y2: int|
                        new_min.0 <= x2 <= new_max.0 && new_min.1 <= y2 <= new_max.1
                            ==> (#[trigger] grid_cell(
                            new_grid@,
                            x2,
                            y2,
                            new_min.0 as int,
                            new_min.1 as int,
                            new_width as int,
                        )) == (old_self.at(x2, y2) && y2 < y),
                decreases self.max.1 + 1 - y,
            {
                let mut x = self.min.0;
                while x <= self.max.0
                    invariant
                        old_self.wf(),
                        !old_self.is_empty_grid(),
                        *self == old_self,
                        self.min.1 <= y <= self.max.1,
                        self.min.0 <= x <= self.max.0 + 1,
                        new_min.0 <= self.min.0,
                        new_min.1 <= self.min.1,
                        new_max.0 >= self.max.0,
                        new_max.1 >= self.max.1,
                        new_min.0 % 64 == 0,
                        new_width % 64 == 0,
                        64 <= new_width <= 0x4000,
                        1 <= new_height <= 0x4000,
                        new_max.0 == new_min.0 + new_width - 1,
                        new_max.1 == new_min.1 + new_height - 1,
                        -0x1000_0000 <= new_min.0 <= 0x1000_0000,
                        -0x1000_0000 <= new_min.1 <= 0x1000_0000,
                        new_grid@.len() == (new_width as int / 64) * new_height,
                        forall|x2: int, y2: int|
                            new_min.0 <= x2 <= new_max.0 && new_min.1 <= y2 <= new_max.1
                                ==> (#[trigger] grid_cell(
                                new_grid@,
                                x2,
                                y2,
                                new_min.0 as int,
                                new_min.1 as int,
                                new_width as int,
                            )) == (old_self.at(x2, y2) && (y2 < y || (y2 == y && x2 < x))),
                    decreases self.max.0 + 1 - x,
                {
                    if self.read_cell(x, y) {
                        let nx = (x - new_min.0) as usize;
                        let ny = (y - new_min.1) as usize;
                        proof {
                            assert(ny * new_width + nx < 0x2000_0000) by (nonlinear_arith)
                                requires
                                    0 <= nx < new_width <= 0x4000,
                                    0 <= ny < new_height <= 0x4000,
                            ;
                        }
                        let p = ny * new_width + nx;
                        proof {
                            assert(p as int == pos_of(
                                x as int,
                                y as int,
                                new_min.0 as int,
                                new_min.1 as int,
                                new_width as int,
                            ));
                            lemma_pos_split(p as int);
                            lemma_grid_pos_bounds(
                                x as int,
                                y as int,
                                new_min.0 as int,
                                new_min.1 as int,
                                new_width as int,
                                new_height as int,
                            );
                            lemma_grid_word_bound(p as int, new_width as int, new_height as int);
                        }
                        let ghost pre = new_grid@;
                        word_set(&mut new_grid, p, true);
                        proof {
                            lemma_cell_update(
                                pre,
                                new_grid@,
                                x as int,
                                y as int,
                                new_min.0 as int,
                                new_min.1 as int,
                                new_width as int,
                                new_height as int,
                                true,
                            );
                        }
                    }
                    x = x + 1;
                }
                y = y + 1;
            }
        }
        self.grid = new_grid;
        self.min = new_min;
        self.max = new_max;
        self.width = new_width;
        proof {
            assert((new_width as int / 64) * new_height >= 1) by (nonlinear_arith)
                requires
                    new_width >= 64,
                    new_height >= 1,
            ;
            let fs = *self;
            assert forall|x: int, y: int| #[trigger] fs.at(x, y) == old_self.at(x, y) by {
                if fs.in_bounds(x, y) {
                    assert(fs.at(x, y) == grid_cell(
                        fs.grid@,
                        x,
                        y,
                        fs.min.0 as int,
                        fs.min.1 as int,
                        fs.width as int,
                    ));
                } else {
                    if !old_self.is_empty_grid() {
                        assert(!old_self.in_bounds(x, y));
                    }
                }
            }
        }
    }
}

/// The value of the cell `(x, y)` within a raw word store.
pub open spec fn grid_cell(
    words: Seq<u64>,
    x: int,
    y: int,
    min_x: int,
    min_y: int,
    width: int,
) -> bool {
    let p = pos_of(x, y, min_x, min_y, width);
    gw_bit(words[p / 64], (p % 64) as u64)
}

/// Writing one cell changes exactly that cell of the store.
proof fn lemma_cell_update(
    pre: Seq<u64>,
    post: Seq<u64>,
    x: int,
    y: int,
    min_x: int,
    min_y: int,
    width: int,
    height: int,
    set: bool,
)
    requires
        width % 64 == 0,
        width >= 64,
        height >= 1,
        pre.len() == (width / 64) * height,
        post.len() == pre.len(),
        min_x <= x < min_x + width,
        min_y <= y < min_y + height,
        gw_bit(
            post[pos_of(x, y, min_x, min_y, width) / 64],
            (pos_of(x, y, min_x, min_y, width) % 64) as u64,
        ) == set,
        forall|q: int|
            0 <= q && q / 64 < pre.len() && q != pos_of(x, y, min_x, min_y, width) ==> gw_bit(
                #[trigger] post[q / 64],
                (q % 64) as u64,
            ) == gw_bit(pre[q / 64], (q % 64) as u64),
    ensures
        grid_cell(post, x, y, min_x, min_y, width) == set,
        forall|x2: int, y2: int|
            min_x <= x2 < min_x + width && min_y <= y2 < min_y + height && !(x2 == x && y2 == y)
                ==> #[trigger] grid_cell(post, x2, y2, min_x, min_y, width) == grid_cell(
                pre,
                x2,
                y2,
                min_x,
                min_y,
                width,
            ),
{
    let p = pos_of(x, y, min_x, min_y, width);
    assert forall|x2: int, y2: int|
        min_x <= x2 < min_x + width && min_y <= y2 < min_y + height && !(x2 == x && y2
            == y) implies #[trigger] grid_cell(post, x2, y2, min_x, min_y, width) == grid_cell(
        pre,
        x2,
        y2,
        min_x,
        min_y,
        width,
    ) by {
        let q = pos_of(x2, y2, min_x, min_y, width);
        lemma_grid_pos_bounds(x2, y2, min_x, min_y, width, height);
        lemma_grid_word_bound(q, width, height);
        if q == p {
            lemma_pos_inj(x2, y2, x, y, min_x, min_y, width);
        }
    }
}

impl BitGrid {
    /// Read one in-bounds cell of the current storage.
    fn read_cell(&self, x: i64, y: i64) -> (r: bool)
        requires
            self.wf(),
            !self.is_empty_grid(),
            self.in_bounds(x as int, y as int),
        ensures
            r == self.at(x as int, y as int),
    {
        let nx = (x - self.min.0) as usize;
        let ny = (y - self.min.1) as usize;
        proof {
            assert(ny * self.width + nx < 0x2000_0000) by (nonlinear_arith)
                requires
                    0 <= nx < self.width <= 0x4000,
                    0 <= ny && ny < self.height() <= 0x4000,
            ;
        }
        let p = ny * self.width + nx;
        proof {
            assert(p as int == pos_of(
                x as int,
                y as int,
                self.min.0 as int,
                self.min.1 as int,
                self.width as int,
            ));
            lemma_grid_pos_bounds(
                x as int,
                y as int,
                self.min.0 as int,
                self.min.1 as int,
                self.width as int,
                self.height(),
            );
            lemma_pos_split(p as int);
            lemma_grid_word_bound(p as int, self.width as int, self.height());
        }
        word_get(&self.grid, p)
    }

    /// The value of cell `(x, y)`; anything outside the grown bounds
    /// is clear.
    pub fn bit_is_set(&self, x: i64, y: i64) -> (r: bool)
        requires
            self.wf(),
        ensures
            r == self.at(x as int, y as int),
    {
        if self.grid.len() == 0 {
            return false;
        }
        if x < self.min.0 || x > self.max.0 || y < self.min.1 || y > self.max.1 {
            return false;
        }
        self.read_cell(x, y)
    }

    /// Mark cell `(x, y)`, growing the bounds (with a margin of ten
    /// cells on each side, rounded to whole words) when it falls
    /// outside them.
    pub fn set_bit(&mut self, x: i64, y: i64)
        requires
            old(self).wf(),
            coord_ok(x as int - 1) && coord_ok(x as int + 1),
            coord_ok(y as int - 1) && coord_ok(y as int + 1),
        ensures
            final(self).wf(),
            final(self).at(x as int, y as int),
            forall|x2: int, y2: int|
                !(x2 == x && y2 == y) ==> #[trigger] final(self).at(x2, y2) == old(self).at(
                    x2,
                    y2,
                ),
            final(self).min_set.0 == min_i64_spec(old(self).min_set.0 as int, x as int),
            final(self).min_set.1 == min_i64_spec(old(self).min_set.1 as int, y as int),
            final(self).max_set.0 == max_i64_spec(old(self).max_set.0 as int, x as int),
            final(self).max_set.1 == max_i64_spec(old(self).max_set.1 as int, y as int),
    {
        self.touch(x, y);
        proof {
            assert(self.in_bounds(x as int, y as int));
        }
        self.write_cell(x, y, true);
    }

    /// Clear cell `(x, y)`; clearing never grows the grid, and a cell
    /// outside the bounds is already clear.
    pub fn clear_bit(&mut self, x: i64, y: i64)
        requires
            old(self).wf(),
        ensures
            final(self).wf(),
            !final(self).at(x as int, y as int),
            forall|x2: int, y2: int|
                !(x2 == x && y2 == y) ==> #[trigger] final(self).at(x2, y2) == old(self).at(
                    x2,
                    y2,
                ),
            final(self).min == old(self).min && final(self).max == old(self).max,
            final(self).width == old(self).width,
            final(self).min_set == old(self).min_set && final(self).max_set == old(self).max_set,
            final(self).grid@.len() == old(self).grid@.len(),
    {
        if self.grid.len() == 0 {
            return ;
        }
        if x < self.min.0 || x > self.max.0 || y < self.min.1 || y > self.max.1 {
            return ;
        }
        self.write_cell(x, y, false);
    }

    /// The nine cells around `(x, y)` packed as in
    /// [`BitGridConst::get_surround`], growing the bounds so the whole
    /// neighborhood exists.
    #[verifier::rlimit(100)]
    #[verifier::spinoff_prover]
    pub fn get_surround(&mut self, x: i64, y: i64) -> (r: u16)
        requires
            old(self).wf(),
            coord_ok(x as int - 2) && coord_ok(x as int + 2),
            coord_ok(y as int - 2) && coord_ok(y as int + 2),
        ensures
            final(self).wf(),
            forall|x2: int, y2: int| #[trigger] final(self).at(x2, y2) == old(self).at(x2, y2),
            r == surround_value(
                old(self).at(x - 1, y - 1),
                old(self).at(x as int, y - 1),
                old(self).at(x + 1, y - 1),
                old(self).at(x - 1, y as int),
                old(self).at(x as int, y as int),
                old(self).at(x + 1, y as int),
                old(self).at(x - 1, y + 1),
                old(self).at(x as int, y + 1),
                old(self).at(x + 1, y + 1),
            ),
    {
        self.touch(x - 1, y - 1);
        self.touch(x + 1, y + 1);
        let mut r: u16 = 0;
        if self.read_cell(x - 1, y - 1) {
            r = r + 64;
        }
        if self.read_cell(x, y - 1) {
            r = r + 128;
        }
        if self.read_cell(x + 1, y - 1) {
            r = r + 256;
        }
        if self.read_cell(x - 1, y) {
            r = r + 8;
        }
        if self.read_cell(x, y) {
            r = r + 16;
        }
        if self.read_cell(x + 1, y) {
            r = r + 32;
        }
        if self.read_cell(x - 1, y + 1) {
            r = r + 1;
        }
        if self.read_cell(x, y + 1) {
            r = r + 2;
        }
        if self.read_cell(x + 1, y + 1) {
            r = r + 4;
        }
        r
    }

    /// Record that `(x, y)` was touched and grow the bounds if it now
    /// falls outside them.
    fn touch(&mut self, x: i64, y: i64)
        requires
            old(self).wf(),
            coord_ok(x as int - 1) && coord_ok(x as int + 1),
            coord_ok(y as int - 1) && coord_ok(y as int + 1),
        ensures
            final(self).wf(),
            !final(self).is_empty_grid(),
            final(self).in_bounds(x as int, y as int),
            forall|x2: int, y2: int| #[trigger] final(self).at(x2, y2) == old(self).at(x2, y2),
            final(self).min_set.0 == min_i64_spec(old(self).min_set.0 as int, x as int),
            final(self).min_set.1 == min_i64_spec(old(self).min_set.1 as int, y as int),
            final(self).max_set.0 == max_i64_spec(old(self).max_set.0 as int, x as int),
            final(self).max_set.1 == max_i64_spec(old(self).max_set.1 as int, y as int),
            !old(self).is_empty_grid() ==> final(self).min.0 <= old(self).min.0
                && final(self).min.1 <= old(self).min.1
                && final(self).max.0 >= old(self).max.0
                && final(self).max.1 >= old(self).max.1,
    {
        if x < self.min_set.0 {
            self.min_set.0 = x;
        }
        if y < self.min_set.1 {
            self.min_set.1 = y;
        }
        if x > self.max_set.0 {
            self.max_set.0 = x;
        }
        if y > self.max_set.1 {
            self.max_set.1 = y;
        }
        proof {
            if !self.is_empty_grid() {
                lemma_flo64_mono(self.min_set.0 - 10, old(self).min_set.0 - 10);
                lemma_flo64_mono(old(self).max_set.0 + 10, self.max_set.0 + 10);
            }
        }
        if self.min_set.0 < self.min.0 || self.max_set.0 > self.max.0 || self.min_set.1
            < self.min.1 || self.max_set.1 > self.max.1 {
            self.grow();
            proof {
                lemma_flo64_le(self.min_set.0 - 10);
                lemma_flo64_le(self.max_set.0 + 10);
            }
        }
    }

    /// Write one in-bounds cell.
    fn write_cell(&mut self, x: i64, y: i64, set: bool)
        requires
            old(self).wf(),
            !old(self).is_empty_grid(),
            old(self).in_bounds(x as int, y as int),
        ensures
            final(self).wf(),
            final(self).at(x as int, y as int) == set,
            forall|x2: int, y2: int|
                !(x2 == x && y2 == y) ==> #[trigger] final(self).at(x2, y2) == old(self).at(
                    x2,
                    y2,
                ),
            final(self).min == old(self).min && final(self).max == old(self).max,
            final(self).width == old(self).width,
            final(self).min_set == old(self).min_set && final(self).max_set == old(self).max_set,
            final(self).grid@.len() == old(self).grid@.len(),
    {
        let nx = (x - self.min.0) as usize;
        let ny = (y - self.min.1) as usize;
        proof {
            assert(ny * self.width + nx < 0x2000_0000) by (nonlinear_arith)
                requires
                    0 <= nx < self.width <= 0x4000,
                    0 <= ny && ny < self.height() <= 0x4000,
            ;
        }
        let p = ny * self.width + nx;
        proof {
            assert(p as int == pos_of(
                x as int,
                y as int,
                self.min.0 as int,
                self.min.1 as int,
                self.width as int,
            ));
            lemma_pos_split(p as int);
            lemma_grid_pos_bounds(
                x as int,
                y as int,
                self.min.0 as int,
                self.min.1 as int,
                self.width as int,
                self.height(),
            );
            lemma_grid_word_bound(p as int, self.width as int, self.height());
        }
        let ghost pre = self.grid@;
        word_set(&mut self.grid, p, set);
        proof {
            lemma_cell_update(
                pre,
                self.grid@,
                x as int,
                y as int,
                self.min.0 as int,
                self.min.1 as int,
                self.width as int,
                self.height(),
                set,
            );
            let fs = *self;
            assert forall|x2: int, y2: int|
                !(x2 == x && y2 == y) implies #[trigger] fs.at(x2, y2) == old(self).at(
                x2,
                y2,
            ) by {
                if fs.in_bounds(x2, y2) {
                    assert(fs.at(x2, y2) == grid_cell(
                        fs.grid@,
                        x2,
                        y2,
                        fs.min.0 as int,
                        fs.min.1 as int,
                        fs.width as int,
                    ));
                }
            }
        }
    }

    /// Clear every cell, keeping the bounds.
    pub fn clear(&mut self)
        requires
            old(self).wf(),
        ensures
            final(self).wf(),
            forall|x: int, y: int| !(#[trigger] final(self).at(x, y)),
            final(self).min == old(self).min && final(self).max == old(self).max,
            final(self).width == old(self).width,
            final(self).min_set == old(self).min_set && final(self).max_set == old(self).max_set,
    {
        let n = self.grid.len();
        self.grid = zero_words(n);
        proof {
            let fs = *self;
            assert forall|x: int, y: int| !(#[trigger] fs.at(x, y)) by {
                if fs.in_bounds(x, y) {
                    let p = pos_of(x, y, fs.min.0 as int, fs.min.1 as int, fs.width as int);
                    lemma_grid_pos_bounds(
                        x,
                        y,
                        fs.min.0 as int,
                        fs.min.1 as int,
                        fs.width as int,
                        fs.height(),
                    );
                    lemma_pos_split(p);
                    lemma_grid_word_bound(p, fs.width as int, fs.height());
                    let b = (p % 64) as u64;
                    assert(!gw_bit(0u64, b)) by (bit_vector)
                        requires
                            b < 64,
                    ;
                }
            }
        }
    }

    /// The number of set bits in the storage.
    pub fn count_set(&self) -> (r: u64)
        requires
            self.wf(),
        ensures
            r == words_pop(self.grid@, self.grid@.len() as int),
    {
        let mut total: u64 = 0;
        let mut i: usize = 0;
        proof {
            assert(self.grid@.len() <= 0x4000 * 0x4000 / 64 || self.grid@.len() == 0)
                by (nonlinear_arith)
                requires
                    self.grid@.len() == 0 || (self.grid@.len() == (self.width as int / 64)
                        * self.height() && 64 <= self.width <= 0x4000 && 1 <= self.height()
                        <= 0x4000),
            ;
        }
        while i < self.grid.len()
            invariant
                self.wf(),
                0 <= i <= self.grid@.len(),
                self.grid@.len() <= 0x40_0000,
                total == words_pop(self.grid@, i as int),
                total <= i * 64,
            decreases self.grid@.len() - i,
        {
            let w = self.grid[i];
            let c = word_count(w);
            proof {
                assert((i + 1) * 64 == i * 64 + 64) by (nonlinear_arith);
            }
            total = total + c;
            i = i + 1;
        }
        total
    }
}

pub open spec fn min_i64_spec(a: int, b: int) -> int {
    if b < a {
        b
    } else {
        a
    }
}

pub open spec fn max_i64_spec(a: int, b: int) -> int {
    if b > a {
        b
    } else {
        a
    }
}

/// The number of set bits among the low `b` bits of a word.
pub open spec fn word_pop(w: u64, b: int) -> int
    decreases b,
{
    if b <= 0 {
        0
    } else {
        word_pop(w, b - 1) + (if gw_bit(w, (b - 1) as u64) {
            1int
        } else {
            0int
        })
    }
}

/// The number of set bits in the first `k` words.
pub open spec fn words_pop(s: Seq<u64>, k: int) -> int
    decreases k,
{
    if k <= 0 {
        0
    } else {
        words_pop(s, k - 1) + word_pop(s[k - 1], 64)
    }
}

/// Count the set bits of one word.
fn word_count(w: u64) -> (r: u64)
    ensures
        r == word_pop(w, 64),
        r <= 64,
{
    let mut r: u64 = 0;
    let mut b: u64 = 0;
    while b < 64
        invariant
            0 <= b <= 64,
            r == word_pop(w, b as int),
            r <= b,
        decreases 64 - b,
    {
        if (w >> b) & 1 == 1 {
            r = r + 1;
        }
        b = b + 1;
    }
    r
}

} // verus!
