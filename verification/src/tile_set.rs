//! Axis-aligned rectangles with inclusive corners, and a set of
//! pairwise-disjoint rectangles that absorbs overlapping insertions by
//! splitting them into their uncovered parts.

use vstd::prelude::*;

verus! {

#[derive(Clone, Copy, Debug, Hash, PartialEq, Eq, Structural)]
pub struct Point {
    pub x: i64,
    pub y: i64,
}

impl Point {
    pub fn new(x: i64, y: i64) -> (r: Self)
        ensures
            r == (Point { x, y }),
    {
        Point { x, y }
    }

    /// The taxicab distance between two points.
    pub fn manhattan_dist(&self, rhs: &Self) -> (r: i64)
        requires
            -i64::MAX <= self.x - rhs.x <= i64::MAX,
            -i64::MAX <= self.y - rhs.y <= i64::MAX,
            crate::point::point_2d::abs_int(self.x - rhs.x) + crate::point::point_2d::abs_int(
                self.y - rhs.y,
            ) <= i64::MAX,
        ensures
            r == crate::point::point_2d::abs_int(self.x - rhs.x)
                + crate::point::point_2d::abs_int(self.y - rhs.y),
    {
        let dx = if self.x >= rhs.x {
            self.x - rhs.x
        } else {
            rhs.x - self.x
        };
        let dy = if self.y >= rhs.y {
            self.y - rhs.y
        } else {
            rhs.y - self.y
        };
        dx + dy
    }
}

/// A rectangle spanning `s` to `e`, both corners included.
#[derive(Clone, Copy, Debug, PartialEq, Eq, Structural)]
pub struct Tile {
    pub s: Point,
    pub e: Point,
}

/// The cell `(x, y)` lies inside the tile.
pub open spec fn in_tile(t: Tile, x: int, y: int) -> bool {
    t.s.x <= x <= t.e.x && t.s.y <= y <= t.e.y
}

/// The tile's corners are ordered, so it holds at least one cell.
pub open spec fn tile_wf(t: Tile) -> bool {
    t.s.x <= t.e.x && t.s.y <= t.e.y
}

/// Two tiles share no cell.
pub open spec fn disjoint(a: Tile, b: Tile) -> bool {
    forall|x: int, y: int| !(#[trigger] in_tile(a, x, y) && #[trigger] in_tile(b, x, y))
}

/// Every cell of `a` lies outside `b`.
pub open spec fn outside(a: Tile, b: Tile) -> bool {
    forall|x: int, y: int| #[trigger] in_tile(a, x, y) ==> !in_tile(b, x, y)
}

/// A part of a tile avoids whatever the whole tile avoids.
proof fn lemma_sub_disjoint(a: Tile, b: Tile, c: Tile)
    requires
        in_tile_sub(a, b),
        disjoint(b, c),
    ensures
        disjoint(a, c),
{
    assert forall|x: int, y: int| !(#[trigger] in_tile(a, x, y) && #[trigger] in_tile(c, x, y)) by {
        if in_tile(a, x, y) {
            assert(in_tile(b, x, y));
        }
    }
}

/// Avoidance is one half of disjointness.
proof fn lemma_outside_disjoint(a: Tile, b: Tile)
    requires
        outside(a, b),
    ensures
        disjoint(a, b),
{
    assert forall|x: int, y: int| !(#[trigger] in_tile(a, x, y) && #[trigger] in_tile(b, x, y)) by {
        if in_tile(a, x, y) {
            assert(!in_tile(b, x, y));
        }
    }
}

impl Tile {
    pub fn new(s: Point, e: Point) -> (r: Self)
        ensures
            r == (Tile { s, e }),
    {
        Tile { s, e }
    }

    /// The number of cells the tile covers.
    pub fn area(&self) -> (r: i64)
        requires
            tile_wf(*self),
            self.e.x - self.s.x + 1 <= i64::MAX,
            self.e.y - self.s.y + 1 <= i64::MAX,
            (self.e.x - self.s.x + 1) * (self.e.y - self.s.y + 1) <= i64::MAX,
        ensures
            r == (self.e.x - self.s.x + 1) * (self.e.y - self.s.y + 1),
    {
        proof {
            assert((self.e.x - self.s.x + 1) * (self.e.y - self.s.y + 1) >= 1) by (nonlinear_arith)
                requires
                    self.e.x - self.s.x + 1 >= 1,
                    self.e.y - self.s.y + 1 >= 1,
            ;
        }
        (self.e.x - self.s.x + 1) * (self.e.y - self.s.y + 1)
    }

    /// The rectangle both tiles cover, if there is one.
    pub fn overlaps(&self, rhs: &Self) -> (r: Option<Self>)
        ensures
            r is Some <==> (max_i64(self.s.x as int, rhs.s.x as int) <= min_i64(
                self.e.x as int,
                rhs.e.x as int,
            ) && max_i64(self.s.y as int, rhs.s.y as int) <= min_i64(
                self.e.y as int,
                rhs.e.y as int,
            )),
            r matches Some(o) ==> tile_wf(o) && o.s.x == max_i64(self.s.x as int, rhs.s.x as int)
                && o.s.y == max_i64(self.s.y as int, rhs.s.y as int) && o.e.x == min_i64(
                self.e.x as int,
                rhs.e.x as int,
            ) && o.e.y == min_i64(self.e.y as int, rhs.e.y as int) && (forall|x: int, y: int|
                #[trigger] in_tile(o, x, y) <==> (in_tile(*self, x, y) && in_tile(*rhs, x, y))),
            r is None ==> disjoint(*self, *rhs),
    {
        let x0 = if self.s.x >= rhs.s.x {
            self.s.x
        } else {
            rhs.s.x
        };
        let y0 = if self.s.y >= rhs.s.y {
            self.s.y
        } else {
            rhs.s.y
        };
        let x1 = if self.e.x <= rhs.e.x {
            self.e.x
        } else {
            rhs.e.x
        };
        let y1 = if self.e.y <= rhs.e.y {
            self.e.y
        } else {
            rhs.e.y
        };
        if x0 <= x1 && y0 <= y1 {
            Some(Tile { s: Point { x: x0, y: y0 }, e: Point { x: x1, y: y1 } })
        } else {
            None
        }
    }

    /// Split off the parts of this tile not covered by `rhs`, pushing
    /// them onto `remaining`; true exactly when the tiles overlap at
    /// all.  The pushed parts are well-formed, pairwise disjoint, lie
    /// inside this tile, and together cover exactly its cells outside
    /// `rhs`.
    pub fn overlap_remaining_into(&self, rhs: &Self, remaining: &mut Vec<Self>) -> (r: bool)
        requires
            tile_wf(*self),
        ensures
            r == !disjoint(*self, *rhs),
            !r ==> final(remaining)@ == old(remaining)@,
            forall|k: int|
                0 <= k < old(remaining)@.len() ==> #[trigger] final(remaining)@[k] == old(
                    remaining,
                )@[k],
            final(remaining)@.len() >= old(remaining)@.len(),
            final(remaining)@.len() <= old(remaining)@.len() + 4,
            forall|k: int|
                old(remaining)@.len() <= k < final(remaining)@.len() ==> tile_wf(
                    #[trigger] final(remaining)@[k],
                ),
            forall|k: int|
                old(remaining)@.len() <= k < final(remaining)@.len() ==> in_tile_sub(
                    #[trigger] final(remaining)@[k],
                    *self,
                ) && outside(final(remaining)@[k], *rhs),
            r ==> forall|x: int, y: int|
                #[trigger] in_tile(*self, x, y) && !(#[trigger] in_tile(*rhs, x, y)) ==> exists|
                    k: int,
                |
                    old(remaining)@.len() <= k < final(remaining)@.len() && in_tile(
                        final(remaining)@[k],
                        x,
                        y,
                    ),
            forall|k1: int, k2: int|
                old(remaining)@.len() <= k1 < k2 < final(remaining)@.len() ==> disjoint(
                    #[trigger] final(remaining)@[k1],
                    #[trigger] final(remaining)@[k2],
                ),
            forall|k: int|
                old(remaining)@.len() <= k < final(remaining)@.len() ==> tile_area(
                    #[trigger] final(remaining)@[k],
                ) < tile_area(*self),
    {
        let o = self.overlaps(rhs);
        match o {
            None => false,
            Some(overlap) => {
                proof {
                    assert(in_tile(overlap, overlap.s.x as int, overlap.s.y as int));
                }
                let ghost base = remaining@.len() as int;
                let ghost mut i1: int = -1;
                let ghost mut i2: int = -1;
                let ghost mut i3: int = -1;
                let ghost mut i4: int = -1;
                if self.s.y < overlap.s.y {
                    let x0 = if overlap.s.x <= self.s.x {
                        overlap.s.x
                    } else {
                        self.s.x
                    };
                    let x1 = if overlap.e.x >= self.e.x {
                        overlap.e.x
                    } else {
                        self.e.x
                    };
                    remaining.push(
                        Tile {
                            s: Point { x: x0, y: self.s.y },
                            e: Point { x: x1, y: overlap.s.y - 1 },
                        },
                    );
                    proof {
                        i1 = remaining@.len() - 1;
                    }
                }
                if self.s.x < overlap.s.x {
                    remaining.push(
                        Tile {
                            s: Point { x: self.s.x, y: overlap.s.y },
                            e: Point { x: overlap.s.x - 1, y: overlap.e.y },
                        },
                    );
                    proof {
                        i2 = remaining@.len() - 1;
                    }
                }
                if self.e.x > overlap.e.x {
                    remaining.push(
                        Tile {
                            s: Point { x: overlap.e.x + 1, y: overlap.s.y },
                            e: Point { x: self.e.x, y: overlap.e.y },
                        },
                    );
                    proof {
                        i3 = remaining@.len() - 1;
                    }
                }
                if self.e.y > overlap.e.y {
                    let x0 = if overlap.s.x <= self.s.x {
                        overlap.s.x
                    } else {
                        self.s.x
                    };
                    let x1 = if overlap.e.x >= self.e.x {
                        overlap.e.x
                    } else {
                        self.e.x
                    };
                    remaining.push(
                        Tile {
                            s: Point { x: x0, y: overlap.e.y + 1 },
                            e: Point { x: x1, y: self.e.y },
                        },
                    );
                    proof {
                        i4 = remaining@.len() - 1;
                    }
                }
                proof {
                    assert forall|x: int, y: int|
                        #[trigger] in_tile(*self, x, y) && !(#[trigger] in_tile(*rhs, x, y))
                        implies exists|k: int|
                        base <= k < remaining@.len() && in_tile(remaining@[k], x, y) by {
                        if y < overlap.s.y {
                            assert(in_tile(remaining@[i1], x, y));
                        } else if y > overlap.e.y {
                            assert(in_tile(remaining@[i4], x, y));
                        } else if x < overlap.s.x {
                            assert(in_tile(remaining@[i2], x, y));
                        } else if x > overlap.e.x {
                            assert(in_tile(remaining@[i3], x, y));
                        } else {
                            assert(in_tile(overlap, x, y));
                        }
                    }
                    let wdt = self.e.x - self.s.x + 1;
                    let hgt = self.e.y - self.s.y + 1;
                    assert forall|k: int|
                        base <= k < remaining@.len() implies tile_area(remaining@[k]) < tile_area(
                        *self,
                    ) by {
                        if k == i1 {
                            let hp = overlap.s.y - self.s.y;
                            assert(tile_area(remaining@[k]) == wdt * hp);
                            assert(wdt * hp < wdt * hgt) by (nonlinear_arith)
                                requires
                                    wdt >= 1,
                                    1 <= hp < hgt,
                            ;
                        } else if k == i2 {
                            let wp = overlap.s.x - self.s.x;
                            let hp = overlap.e.y - overlap.s.y + 1;
                            assert(tile_area(remaining@[k]) == wp * hp);
                            assert(wp * hp < wdt * hgt) by (nonlinear_arith)
                                requires
                                    1 <= wp < wdt,
                                    1 <= hp <= hgt,
                            ;
                        } else if k == i3 {
                            let wp = self.e.x - overlap.e.x;
                            let hp = overlap.e.y - overlap.s.y + 1;
                            assert(tile_area(remaining@[k]) == wp * hp);
                            assert(wp * hp < wdt * hgt) by (nonlinear_arith)
                                requires
                                    1 <= wp < wdt,
                                    1 <= hp <= hgt,
                            ;
                        } else {
                            assert(k == i4);
                            let hp = self.e.y - overlap.e.y;
                            assert(tile_area(remaining@[k]) == wdt * hp);
                            assert(wdt * hp < wdt * hgt) by (nonlinear_arith)
                                requires
                                    wdt >= 1,
                                    1 <= hp < hgt,
                            ;
                        }
                    }
                }
                true
            }
        }
    }

    /// The uncovered parts as a fresh list, or `None` when the tiles
    /// do not overlap.
    pub fn overlap_remaining(&self, rhs: &Self) -> (r: Option<Vec<Self>>)
        requires
            tile_wf(*self),
        ensures
            r is None <==> disjoint(*self, *rhs),
            r matches Some(v) ==> {
                &&& v@.len() <= 4
                &&& forall|k: int| 0 <= k < v@.len() ==> tile_wf(#[trigger] v@[k])
                &&& forall|k: int, x: int, y: int|
                    0 <= k < v@.len() && #[trigger] in_tile(v@[k], x, y) ==> in_tile(*self, x, y)
                        && !in_tile(*rhs, x, y)
                &&& forall|x: int, y: int|
                    #[trigger] in_tile(*self, x, y) && !(#[trigger] in_tile(*rhs, x, y))
                        ==> exists|k: int| 0 <= k < v@.len() && in_tile(v@[k], x, y)
            },
    {
        let mut remaining: Vec<Tile> = Vec::new();
        if self.overlap_remaining_into(rhs, &mut remaining) {
            Some(remaining)
        } else {
            None
        }
    }
}

pub open spec fn max_i64(a: int, b: int) -> int {
    if a >= b {
        a
    } else {
        b
    }
}

pub open spec fn min_i64(a: int, b: int) -> int {
    if a <= b {
        a
    } else {
        b
    }
}

/// The number of cells a tile covers, as a plain product.
pub open spec fn tile_area(t: Tile) -> int {
    (t.e.x - t.s.x + 1) * (t.e.y - t.s.y + 1)
}

/// A well-formed tile covers at least one cell.
proof fn lemma_area_pos(t: Tile)
    requires
        tile_wf(t),
    ensures
        tile_area(t) >= 1,
{
    assert((t.e.x - t.s.x + 1) * (t.e.y - t.s.y + 1) >= 1) by (nonlinear_arith)
        requires
            t.e.x - t.s.x + 1 >= 1,
            t.e.y - t.s.y + 1 >= 1,
    ;
}

/// The split budget a pending tile can still consume: a split yields
/// at most four pieces, each of strictly smaller area.
pub open spec fn tile_weight(t: Tile) -> nat {
    vstd::arithmetic::power::pow(5, tile_area(t) as nat) as nat
}

/// The summed budget of a pending queue.
pub open spec fn queue_weight(work: Seq<(usize, Tile)>) -> nat
    decreases work.len(),
{
    if work.len() == 0 {
        0
    } else {
        queue_weight(work.drop_last()) + tile_weight(work.last().1)
    }
}

/// The summed budget of a list of split pieces.
pub open spec fn rem_weight(rem: Seq<Tile>) -> nat
    decreases rem.len(),
{
    if rem.len() == 0 {
        0
    } else {
        rem_weight(rem.drop_last()) + tile_weight(rem.last())
    }
}

/// Every budget is positive.
proof fn lemma_weight_pos(t: Tile)
    ensures
        tile_weight(t) >= 1,
{
    vstd::arithmetic::power::lemma_pow_positive(5, tile_area(t) as nat);
}

/// A strictly smaller well-formed piece has at most a fifth of the
/// budget.
proof fn lemma_weight_less(small: Tile, big: Tile)
    requires
        tile_wf(small),
        tile_wf(big),
        tile_area(small) < tile_area(big),
    ensures
        tile_weight(small) <= vstd::arithmetic::power::pow(5, (tile_area(big) - 1) as nat),
{
    lemma_area_pos(small);
    lemma_area_pos(big);
    vstd::arithmetic::power::lemma_pow_positive(5, tile_area(small) as nat);
    vstd::arithmetic::power::lemma_pow_increases(
        5,
        tile_area(small) as nat,
        (tile_area(big) - 1) as nat,
    );
}

/// Four pieces a size down stay under one whole budget.
proof fn lemma_weight_split(big: Tile)
    requires
        tile_wf(big),
    ensures
        4 * vstd::arithmetic::power::pow(5, (tile_area(big) - 1) as nat) < tile_weight(big),
{
    lemma_area_pos(big);
    let a = (tile_area(big) - 1) as nat;
    vstd::arithmetic::power::lemma_pow_positive(5, a);
    assert(tile_area(big) as nat == a + 1);
    vstd::arithmetic::power::lemma_pow_adds(5, a, 1);
    vstd::arithmetic::power::lemma_pow1(5);
    assert(vstd::arithmetic::power::pow(5, a + 1) == 5 * vstd::arithmetic::power::pow(5, a));
}

/// A short list of strictly smaller pieces is bounded by its length
/// times the one-size-down budget.
proof fn lemma_rem_weight_bound(rem: Seq<Tile>, big: Tile, pw: int)
    requires
        tile_wf(big),
        forall|k: int| 0 <= k < rem.len() ==> tile_wf(#[trigger] rem[k]),
        forall|k: int| 0 <= k < rem.len() ==> tile_area(#[trigger] rem[k]) < tile_area(big),
        pw == vstd::arithmetic::power::pow(5, (tile_area(big) - 1) as nat),
    ensures
        rem_weight(rem) <= rem.len() * pw,
    decreases rem.len(),
{
    if rem.len() == 0 {
    } else {
        lemma_rem_weight_bound(rem.drop_last(), big, pw);
        lemma_weight_less(rem.last(), big);
        assert((rem.len() - 1) * pw + pw == rem.len() * pw) by (nonlinear_arith);
    }
}

/// A cell is covered by some tile of the list.
pub open spec fn covered(ts: Seq<Tile>, x: int, y: int) -> bool {
    exists|i: int| 0 <= i < ts.len() && in_tile(#[trigger] ts[i], x, y)
}

/// A growing set of pairwise-disjoint tiles.
pub struct TileSet {
    pub tiles: Vec<Tile>,
}

impl TileSet {
    /// All stored tiles are well-formed and pairwise disjoint.
    pub open spec fn wf(&self) -> bool {
        &&& forall|i: int| 0 <= i < self.tiles@.len() ==> tile_wf(#[trigger] self.tiles@[i])
        &&& forall|i: int, j: int|
            0 <= i < j < self.tiles@.len() ==> disjoint(
                #[trigger] self.tiles@[i],
                #[trigger] self.tiles@[j],
            )
    }

    pub fn new() -> (r: Self)
        ensures
            r.wf(),
            r.tiles@.len() == 0,
    {
        TileSet { tiles: Vec::new() }
    }

    /// The stored tiles, in insertion-and-splitting order.
    pub fn iter(&self) -> (r: &Vec<Tile>)
        ensures
            r@ == self.tiles@,
    {
        &self.tiles
    }

    /// Add a tile, splitting it around every part of the plane already
    /// covered, so the set stays pairwise disjoint: afterwards the set
    /// covers exactly the old cells plus the new tile's.
    pub fn add_tile(&mut self, tile: Tile)
        requires
            old(self).wf(),
            tile_wf(tile),
        ensures
            final(self).wf(),
            forall|x: int, y: int|
                #[trigger] covered(old(self).tiles@, x, y) ==> covered(final(self).tiles@, x, y),
            forall|x: int, y: int|
                #[trigger] covered(final(self).tiles@, x, y) ==> covered(old(self).tiles@, x, y)
                    || in_tile(tile, x, y),
            forall|x: int, y: int|
                #[trigger] in_tile(tile, x, y) ==> covered(final(self).tiles@, x, y),
    {
        let mut work: Vec<(usize, Tile)> = Vec::new();
        work.push((0, tile));
        proof {
            assert(work@.drop_last() =~= Seq::<(usize, Tile)>::empty());
            assert forall|x: int, y: int| #[trigger]
                in_tile(tile, x, y) implies in_tile(work@[0].1, x, y) by {}
        }
        while work.len() > 0
            invariant
                self.wf(),
                forall|w: int|
                    0 <= w < work@.len() ==> tile_wf((#[trigger] work@[w]).1) && work@[w].0
                        <= self.tiles@.len(),
                forall|w: int, i: int|
                    0 <= w < work@.len() && 0 <= i < (#[trigger] work@[w]).0 ==> disjoint(
                        work@[w].1,
                        #[trigger] self.tiles@[i],
                    ),
                forall|w: int| 0 <= w < work@.len() ==> in_tile_sub((#[trigger] work@[w]).1, tile),
                forall|x: int, y: int|
                    #[trigger] covered(old(self).tiles@, x, y) ==> covered(self.tiles@, x, y),
                forall|x: int, y: int|
                    #[trigger] covered(self.tiles@, x, y) ==> covered(old(self).tiles@, x, y)
                        || in_tile(tile, x, y),
                forall|x: int, y: int|
                    #[trigger] in_tile(tile, x, y) ==> covered(self.tiles@, x, y) || (exists|
                        w: int,
                    |
                        0 <= w < work@.len() && in_tile((#[trigger] work@[w]).1, x, y)),
            decreases queue_weight(work@),
        {
            let ghost work0 = work@;
            let item = work.pop();
            let (skip, t) = item.unwrap();
            proof {
                assert((skip, t) == work0[work0.len() - 1]);
                assert(work@ =~= work0.drop_last());
                assert(tile_wf(work0[work0.len() - 1].1) && work0[work0.len() - 1].0
                    <= self.tiles@.len());
                assert forall|i: int| 0 <= i < skip implies disjoint(
                    t,
                    #[trigger] self.tiles@[i],
                ) by {
                    assert(disjoint(work0[work0.len() - 1].1, self.tiles@[i]));
                }
                assert(in_tile_sub(work0[work0.len() - 1].1, tile));
                assert(in_tile_sub(t, tile));
                assert(queue_weight(work0) == queue_weight(work@) + tile_weight(t));
                lemma_weight_pos(t);
            }
            let mut at = skip;
            let mut absorbed = false;
            let mut rem: Vec<Tile> = Vec::new();
            while at < self.tiles.len() && !absorbed
                invariant
                    self.wf(),
                    tile_wf(t),
                    in_tile_sub(t, tile),
                    skip <= at <= self.tiles@.len(),
                    rem@.len() <= 4,
                    forall|i: int| 0 <= i < skip ==> disjoint(t, #[trigger] self.tiles@[i]),
                    !absorbed ==> rem@.len() == 0,
                    !absorbed ==> forall|i: int|
                        skip <= i < at ==> disjoint(t, #[trigger] self.tiles@[i]),
                    absorbed ==> at < self.tiles@.len(),
                    absorbed ==> forall|i: int|
                        skip <= i < at ==> disjoint(t, #[trigger] self.tiles@[i]),
                    absorbed ==> forall|k: int|
                        0 <= k < rem@.len() ==> tile_wf(#[trigger] rem@[k]),
                    absorbed ==> forall|k: int|
                        0 <= k < rem@.len() ==> in_tile_sub(#[trigger] rem@[k], t)
                            && outside(rem@[k], self.tiles@[at as int]),
                    absorbed ==> forall|k: int|
                        0 <= k < rem@.len() ==> tile_area(#[trigger] rem@[k]) < tile_area(t),
                    absorbed ==> forall|x: int, y: int|
                        #[trigger] in_tile(t, x, y) && !(#[trigger] in_tile(
                            self.tiles@[at as int],
                            x,
                            y,
                        )) ==> exists|k: int| 0 <= k < rem@.len() && in_tile(rem@[k], x, y),
                decreases self.tiles@.len() - at + (if absorbed {
                    0int
                } else {
                    1int
                }),
            {
                let cur = self.tiles[at];
                let hit = t.overlap_remaining_into(&cur, &mut rem);
                if hit {
                    absorbed = true;
                } else {
                    at = at + 1;
                }
            }
            if absorbed {
                // every split piece re-enters the queue, to be checked
                // against the tiles after `at`
                let next_skip = at + 1;
                let ghost qbase = work@;
                let ghost rem_init = rem@;
                let ghost pw: int = vstd::arithmetic::power::pow(5, (tile_area(t) - 1) as nat);
                proof {
                    vstd::arithmetic::power::lemma_pow_positive(5, (tile_area(t) - 1) as nat);
                    assert forall|x: int, y: int| #[trigger]
                        in_tile(t, x, y) implies covered(self.tiles@, x, y) || (exists|k: int|
                        0 <= k < rem@.len() && in_tile(#[trigger] rem@[k], x, y)) || (exists|
                        w: int,
                    |
                        0 <= w < work@.len() && in_tile((#[trigger] work@[w]).1, x, y)) by {
                        if in_tile(self.tiles@[at as int], x, y) {
                            assert(covered(self.tiles@, x, y));
                        }
                    }
                }
                while rem.len() > 0
                    invariant
                        self.wf(),
                        tile_wf(t),
                        in_tile_sub(t, tile),
                        next_skip == at + 1,
                        next_skip <= self.tiles@.len(),
                        at < self.tiles@.len(),
                        pw == vstd::arithmetic::power::pow(5, (tile_area(t) - 1) as nat),
                        forall|k: int| 0 <= k < rem@.len() ==> tile_wf(#[trigger] rem@[k]),
                        forall|k: int|
                            0 <= k < rem@.len() ==> in_tile_sub(#[trigger] rem@[k], t)
                                && outside(rem@[k], self.tiles@[at as int]),
                        forall|k: int|
                            0 <= k < rem@.len() ==> tile_area(#[trigger] rem@[k]) < tile_area(t),
                        forall|i: int| 0 <= i < skip ==> disjoint(t, #[trigger] self.tiles@[i]),
                        forall|i: int|
                            skip <= i < at ==> disjoint(t, #[trigger] self.tiles@[i]),
                        forall|w: int|
                            0 <= w < work@.len() ==> tile_wf((#[trigger] work@[w]).1)
                                && work@[w].0 <= self.tiles@.len(),
                        forall|w: int, i: int|
                            0 <= w < work@.len() && 0 <= i < (#[trigger] work@[w]).0 ==> disjoint(
                                work@[w].1,
                                #[trigger] self.tiles@[i],
                            ),
                        forall|w: int|
                            0 <= w < work@.len() ==> in_tile_sub((#[trigger] work@[w]).1, tile),
                        qbase.len() <= work@.len(),
                        forall|w: int| 0 <= w < qbase.len() ==> #[trigger] work@[w] == qbase[w],
                        queue_weight(work@) + rem_weight(rem@) == queue_weight(qbase)
                            + rem_weight(rem_init),
                        forall|x: int, y: int|
                            #[trigger] in_tile(t, x, y) ==> covered(self.tiles@, x, y) || (exists|
                                k: int,
                            |
                                0 <= k < rem@.len() && in_tile(#[trigger] rem@[k], x, y)) || (
                            exists|w: int|
                                0 <= w < work@.len() && in_tile((#[trigger] work@[w]).1, x, y)),
                    decreases rem@.len(),
                {
                    let ghost rem0 = rem@;
                    let ghost workpre = work@;
                    let piece = rem.pop();
                    let p = piece.unwrap();
                    proof {
                        assert(p == rem0[rem0.len() - 1]);
                        assert(rem@ =~= rem0.drop_last());
                        assert(rem_weight(rem0) == rem_weight(rem@) + tile_weight(p));
                        assert(in_tile_sub(p, t) && outside(p, self.tiles@[at as int]));
                        assert forall|i: int| 0 <= i < next_skip implies disjoint(
                            p,
                            #[trigger] self.tiles@[i],
                        ) by {
                            if i < at {
                                assert(disjoint(t, self.tiles@[i]));
                                lemma_sub_disjoint(p, t, self.tiles@[i]);
                                assert(disjoint(p, self.tiles@[i]));
                            } else {
                                assert(i == at);
                                lemma_outside_disjoint(p, self.tiles@[at as int]);
                                assert(disjoint(p, self.tiles@[at as int]));
                                assert(disjoint(p, self.tiles@[i]));
                            }
                        }
                        assert(in_tile_sub(p, tile)) by {
                            assert forall|x: int, y: int| #[trigger]
                                in_tile(p, x, y) implies in_tile(tile, x, y) by {
                                assert(in_tile(t, x, y));
                            }
                        }
                    }
                    work.push((next_skip, p));
                    proof {
                        assert(work@.drop_last() =~= workpre);
                        assert(queue_weight(work@) == queue_weight(workpre) + tile_weight(p));
                        assert forall|x: int, y: int| #[trigger]
                            in_tile(t, x, y) implies covered(self.tiles@, x, y) || (exists|k: int|
                            0 <= k < rem@.len() && in_tile(#[trigger] rem@[k], x, y)) || (exists|
                            w: int,
                        |
                            0 <= w < work@.len() && in_tile((#[trigger] work@[w]).1, x, y)) by {
                            if !covered(self.tiles@, x, y) {
                                if exists|k: int|
                                    0 <= k < rem0.len() && in_tile(#[trigger] rem0[k], x, y) {
                                    let k = choose|k: int|
                                        0 <= k < rem0.len() && in_tile(#[trigger] rem0[k], x, y);
                                    if k < rem0.len() - 1 {
                                        assert(in_tile(rem@[k], x, y));
                                    } else {
                                        assert(in_tile(p, x, y));
                                        assert(in_tile(work@[work@.len() - 1].1, x, y));
                                    }
                                } else {
                                    let w = choose|w: int|
                                        0 <= w < workpre.len() && in_tile(
                                            (#[trigger] workpre[w]).1,
                                            x,
                                            y,
                                        );
                                    assert(work@[w] == workpre[w]);
                                    assert(in_tile(work@[w].1, x, y));
                                }
                            }
                        }
                    }
                }
                proof {
                    assert(rem_weight(rem@) == 0);
                    lemma_rem_weight_bound(rem_init, t, pw);
                    assert(rem_init.len() * pw <= 4 * pw) by (nonlinear_arith)
                        requires
                            0 <= rem_init.len() <= 4,
                            pw >= 0,
                    ;
                    lemma_weight_split(t);
                    assert(queue_weight(work@) < queue_weight(qbase) + tile_weight(t));
                    assert(queue_weight(work@) < queue_weight(work0));
                    assert forall|x: int, y: int| #[trigger]
                        in_tile(tile, x, y) implies covered(self.tiles@, x, y) || (exists|w: int|
                        0 <= w < work@.len() && in_tile((#[trigger] work@[w]).1, x, y)) by {
                        if !covered(self.tiles@, x, y) {
                            let w0 = choose|w0: int|
                                0 <= w0 < work0.len() && in_tile((#[trigger] work0[w0]).1, x, y);
                            if w0 < work0.len() - 1 {
                                assert(work@[w0] == qbase[w0]);
                                assert(in_tile(work@[w0].1, x, y));
                            } else {
                                assert(in_tile(t, x, y));
                            }
                        }
                    }
                }
            } else {
                // nothing overlapped: the piece joins the set
                proof {
                    assert forall|i: int|
                        0 <= i < self.tiles@.len() implies disjoint(
                        t,
                        #[trigger] self.tiles@[i],
                    ) by {
                        if i < skip {
                            assert(disjoint(t, self.tiles@[i]));
                        } else {
                            assert(disjoint(t, self.tiles@[i]));
                        }
                    }
                }
                let ghost tiles0 = self.tiles@;
                self.tiles.push(t);
                proof {
                    let ts = self.tiles@;
                    assert forall|x: int, y: int| #[trigger]
                        covered(old(self).tiles@, x, y) implies covered(ts, x, y) by {
                        assert(covered(tiles0, x, y));
                        let i = choose|i: int|
                            0 <= i < tiles0.len() && in_tile(#[trigger] tiles0[i], x, y);
                        assert(ts[i] == tiles0[i]);
                        assert(in_tile(ts[i], x, y));
                    }
                    assert forall|x: int, y: int| #[trigger]
                        covered(ts, x, y) implies covered(old(self).tiles@, x, y) || in_tile(
                        tile,
                        x,
                        y,
                    ) by {
                        let i = choose|i: int|
                            0 <= i < ts.len() && in_tile(#[trigger] ts[i], x, y);
                        if i < tiles0.len() {
                            assert(covered(tiles0, x, y));
                        } else {
                            assert(ts[i] == t);
                            assert(in_tile(tile, x, y));
                        }
                    }
                    assert forall|x: int, y: int| #[trigger]
                        in_tile(tile, x, y) implies covered(self.tiles@, x, y) || (exists|w: int|
                        0 <= w < work@.len() && in_tile((#[trigger] work@[w]).1, x, y)) by {
                        if !covered(self.tiles@, x, y) {
                            if covered(tiles0, x, y) {
                                let i0 = choose|i0: int|
                                    0 <= i0 < tiles0.len() && in_tile(#[trigger] tiles0[i0], x, y);
                                assert(ts[i0] == tiles0[i0]);
                                assert(in_tile(ts[i0], x, y));
                                assert(false);
                            }
                            let w0 = choose|w0: int|
                                0 <= w0 < work0.len() && in_tile((#[trigger] work0[w0]).1, x, y);
                            if w0 < work0.len() - 1 {
                                assert(in_tile(work@[w0].1, x, y));
                            } else {
                                assert(in_tile(t, x, y));
                                assert(in_tile(ts[ts.len() - 1], x, y));
                                assert(covered(ts, x, y));
                            }
                        }
                    }
                    assert(queue_weight(work@) < queue_weight(work0));
                }
            }
        }
    }

    /// Remove a tile's cells: every stored tile is split around it, so
    /// exactly the cells covered before and not inside `tile` stay
    /// covered.
    pub fn remove_tile(&mut self, tile: Tile)
        requires
            old(self).wf(),
        ensures
            final(self).wf(),
            forall|x: int, y: int|
                #[trigger] covered(final(self).tiles@, x, y) <==> (covered(old(self).tiles@, x, y)
                    && !in_tile(tile, x, y)),
    {
        let mut out: Vec<Tile> = Vec::new();
        let mut i: usize = 0;
        while i < self.tiles.len()
            invariant
                self.wf(),
                self.tiles@ == old(self).tiles@,
                0 <= i <= self.tiles@.len(),
                forall|k: int| 0 <= k < out@.len() ==> tile_wf(#[trigger] out@[k]),
                forall|k: int| 0 <= k < out@.len() ==> outside(#[trigger] out@[k], tile),
                forall|k: int|
                    0 <= k < out@.len() ==> exists|j: int|
                        0 <= j < i && in_tile_sub(#[trigger] out@[k], self.tiles@[j]),
                forall|k1: int, k2: int|
                    0 <= k1 < k2 < out@.len() ==> disjoint(
                        #[trigger] out@[k1],
                        #[trigger] out@[k2],
                    ),
                forall|x: int, y: int|
                    #[trigger] covered(self.tiles@.take(i as int), x, y) && !in_tile(tile, x, y)
                        ==> covered(out@, x, y),
            decreases self.tiles@.len() - i,
        {
            let s = self.tiles[i];
            let ghost out0 = out@;
            let hit = s.overlap_remaining_into(&tile, &mut out);
            if !hit {
                out.push(s);
            }
            proof {
                let oo = out@;
                // every new entry lies inside the current stored tile and
                // outside the removed one
                assert forall|k: int|
                    out0.len() <= k < oo.len() implies tile_wf(#[trigger] oo[k]) && outside(
                    oo[k],
                    tile,
                ) && in_tile_sub(oo[k], self.tiles@[i as int]) by {
                    if hit {
                        assert(in_tile_sub(oo[k], s));
                    } else {
                        assert(oo[k] == s);
                        assert forall|x: int, y: int| #[trigger]
                            in_tile(oo[k], x, y) implies !in_tile(tile, x, y) by {
                            assert(!(in_tile(s, x, y) && in_tile(tile, x, y)));
                        }
                    }
                }
                assert forall|k: int|
                    0 <= k < oo.len() implies exists|j: int|
                    0 <= j < i + 1 && in_tile_sub(#[trigger] oo[k], self.tiles@[j]) by {
                    if k < out0.len() {
                        assert(oo[k] == out0[k]);
                        let j = choose|j: int|
                            0 <= j < i && in_tile_sub(#[trigger] out0[k], self.tiles@[j]);
                        assert(in_tile_sub(oo[k], self.tiles@[j]));
                    } else {
                        assert(in_tile_sub(oo[k], self.tiles@[i as int]));
                    }
                }
                assert forall|k1: int, k2: int|
                    0 <= k1 < k2 < oo.len() implies disjoint(
                    #[trigger] oo[k1],
                    #[trigger] oo[k2],
                ) by {
                    if k2 < out0.len() {
                        assert(oo[k1] == out0[k1] && oo[k2] == out0[k2]);
                    } else if k1 >= out0.len() {
                        // both fresh: pieces of one split are disjoint,
                        // and a kept tile enters alone
                        assert(disjoint(oo[k1], oo[k2]));
                    } else {
                        let j = choose|j: int|
                            0 <= j < i && in_tile_sub(#[trigger] out0[k1], self.tiles@[j]);
                        assert(disjoint(self.tiles@[j], self.tiles@[i as int]));
                        lemma_sub_disjoint(oo[k1], self.tiles@[j], self.tiles@[i as int]);
                        assert(disjoint(oo[k1], self.tiles@[i as int]));
                        assert forall|x: int, y: int|
                            !(#[trigger] in_tile(oo[k1], x, y) && #[trigger] in_tile(
                                oo[k2],
                                x,
                                y,
                            )) by {
                            if in_tile(oo[k2], x, y) {
                                assert(in_tile(self.tiles@[i as int], x, y));
                            }
                        }
                    }
                }
                assert forall|x: int, y: int|
                    #[trigger] covered(self.tiles@.take(i + 1), x, y) && !in_tile(tile, x, y)
                        implies covered(oo, x, y) by {
                    let tk = self.tiles@.take(i + 1);
                    let j = choose|j: int| 0 <= j < tk.len() && in_tile(#[trigger] tk[j], x, y);
                    if j < i {
                        assert(self.tiles@.take(i as int)[j] == tk[j]);
                        assert(covered(self.tiles@.take(i as int), x, y));
                        assert(covered(out0, x, y));
                        let k = choose|k: int|
                            0 <= k < out0.len() && in_tile(#[trigger] out0[k], x, y);
                        assert(oo[k] == out0[k]);
                        assert(in_tile(oo[k], x, y));
                    } else {
                        assert(in_tile(s, x, y));
                        if hit {
                            let k = choose|k: int|
                                out0.len() <= k < oo.len() && in_tile(#[trigger] oo[k], x, y);
                            assert(in_tile(oo[k], x, y));
                        } else {
                            assert(oo[oo.len() - 1] == s);
                            assert(in_tile(oo[oo.len() - 1], x, y));
                        }
                    }
                }
            }
            i = i + 1;
        }
        proof {
            assert(self.tiles@.take(self.tiles@.len() as int) =~= self.tiles@);
        }
        self.tiles = out;
        proof {
            assert forall|x: int, y: int| #[trigger]
                covered(self.tiles@, x, y) implies (covered(old(self).tiles@, x, y) && !in_tile(
                tile,
                x,
                y,
            )) by {
                let k = choose|k: int|
                    0 <= k < self.tiles@.len() && in_tile(#[trigger] self.tiles@[k], x, y);
                let j = choose|j: int|
                    0 <= j < old(self).tiles@.len() && in_tile_sub(
                        #[trigger] self.tiles@[k],
                        old(self).tiles@[j],
                    );
                assert(in_tile(old(self).tiles@[j], x, y));
            }
        }
    }
}

/// Every cell of `a` lies in `b`.
pub open spec fn in_tile_sub(a: Tile, b: Tile) -> bool {
    forall|x: int, y: int| #[trigger] in_tile(a, x, y) ==> in_tile(b, x, y)
}


} // verus!
