//! A tie-aware best-first search engine over implicit graphs.
//!
//! The graph is supplied through the [`Neighbors`] trait: the engine
//! asks it for the outgoing edges of one node at a time and never
//! stores an adjacency structure of its own.  Four query modes share a
//! single traversal core: the cheapest target only, every target, and
//! both of these with full enumeration of all tied minimal-cost paths.

use vstd::prelude::*;

verus! {

broadcast use vstd::std_specs::hash::group_hash_axioms;

/// A caller-supplied implicit graph.  `edges(n)` is the mathematical
/// sequence of `(weight, successor)` pairs that `next(n)` produces, and
/// `is_target(n)` tells whether a node is a query target; the executable
/// `next` must report that flag consistently for every edge.
pub trait Neighbors {
    spec fn edges(&self, node: u64) -> Seq<(u64, u64)>;

    spec fn is_target(&self, node: u64) -> bool;

    /// A strict upper bound on every node value the graph can produce.
    /// It only has to exist; it is what makes the traversal a finite
    /// piece of work, which the caller is responsible for.
    spec fn size_bound(&self) -> nat;

    fn next(&self, node: u64) -> (r: Vec<(u64, u64, bool)>)
        ensures
            r@.len() == self.edges(node).len(),
            forall|i: int|
                0 <= i < r@.len() ==> #[trigger] r@[i] == (
                    self.edges(node)[i].0,
                    self.edges(node)[i].1,
                    self.is_target(self.edges(node)[i].1),
                ),
            forall|i: int| 0 <= i < r@.len() ==> (#[trigger] r@[i]).1 < self.size_bound(),
    ;
}

/// Some edge of weight `w` leads from `from` to `to`.
pub open spec fn has_edge<G: Neighbors>(g: &G, from: u64, to: u64, w: u64) -> bool {
    exists|j: int| 0 <= j < g.edges(from).len() && #[trigger] g.edges(from)[j] == (w, to)
}

/// `p` is a walk through the graph whose edge weights sum to exactly `c`.
pub open spec fn path_ok<G: Neighbors>(g: &G, p: Seq<u64>, c: int) -> bool
    decreases p.len(),
{
    if p.len() == 0 {
        false
    } else if p.len() == 1 {
        c == 0
    } else {
        exists|w: u64|
            #[trigger] has_edge(g, p[p.len() - 2], p[p.len() - 1], w) && path_ok(
                g,
                p.drop_last(),
                c - w,
            )
    }
}

/// `p` is a path of total cost `c` leading from `s` to `t`.
pub open spec fn connects<G: Neighbors>(g: &G, p: Seq<u64>, s: u64, t: u64, c: int) -> bool {
    path_ok(g, p, c) && p.first() == s && p.last() == t
}

/// Some path of total cost `c` leads from `s` to `t`.
pub open spec fn has_path<G: Neighbors>(g: &G, s: u64, t: u64, c: int) -> bool {
    exists|p: Seq<u64>| #[trigger] connects(g, p, s, t, c)
}

/// No path from `s` to any target of the graph, other than the start
/// node itself, costs less than `c`.
pub open spec fn no_target_below<G: Neighbors>(g: &G, s: u64, c: int) -> bool {
    forall|p: Seq<u64>, c2: int, t: u64|
        #[trigger] connects(g, p, s, t, c2) && g.is_target(t) && t != s ==> c2 >= c
}

/// No path from `s` to the single node `t` costs less than `c`.
pub open spec fn no_path_below<G: Neighbors>(g: &G, s: u64, t: u64, c: int) -> bool {
    forall|p: Seq<u64>, c2: int| #[trigger] connects(g, p, s, t, c2) ==> c2 >= c
}

/// Appending an edge to a path extends it by that edge's weight.
proof fn lemma_path_extend<G: Neighbors>(g: &G, p: Seq<u64>, s: u64, u: u64, c: int, v: u64, w: u64)
    requires
        connects(g, p, s, u, c),
        has_edge(g, u, v, w),
    ensures
        connects(g, p.push(v), s, v, c + w),
{
    let q = p.push(v);
    assert(q.drop_last() =~= p);
    assert(q[q.len() - 2] == u);
    assert(q[q.len() - 1] == v);
    assert(path_ok(g, q, c + w));
}

/// The four query front-ends of the search engine live on this type.
pub struct Dijkstra {}

/// One record of the seen table: the best cost found for a node so far
/// and every direct predecessor that achieves exactly that cost.
pub struct SeenEntry {
    pub cost: u64,
    pub preds: Vec<u64>,
}

/// The best-known-cost and predecessor table of one traversal.
pub struct SeenTable {
    map: std::collections::HashMap<u64, SeenEntry>,
}

impl SeenTable {
    /// The mathematical content of the table.
    pub closed spec fn m(&self) -> Map<u64, SeenEntry> {
        self.map@
    }

    /// A fresh table holding only the start node at cost zero.
    pub fn new(start: u64) -> (r: Self)
        ensures
            r.m().dom() =~= set![start],
            r.m()[start].cost == 0,
            r.m()[start].preds@ =~= Seq::<u64>::empty(),
    {
        let mut map = std::collections::HashMap::new();
        map.insert(start, SeenEntry { cost: 0, preds: Vec::new() });
        SeenTable { map }
    }

    /// The node's record, if it has one.
    pub fn get(&self, n: u64) -> (r: Option<&SeenEntry>)
        ensures
            match r {
                Some(e) => self.m().contains_key(n) && *e == self.m()[n],
                None => !self.m().contains_key(n),
            },
    {
        self.map.get(&n)
    }

    /// The node has a record strictly cheaper than `cost`.
    pub fn has_cheaper(&self, cost: u64, v: u64) -> (r: bool)
        ensures
            r == (self.m().contains_key(v) && self.m()[v].cost < cost),
    {
        match self.map.get(&v) {
            Some(e) => e.cost < cost,
            None => false,
        }
    }

    /// The tie-aware relaxation rule.  Compares `cost` against the best
    /// known cost of `to` (a missing record counts as `u64::MAX`):
    /// strictly cheaper replaces the record with predecessor `from`
    /// alone and returns true; a tie only adds `from` to the
    /// predecessors; more expensive changes nothing.  A missing record
    /// is materialized at the sentinel cost either way.
    pub fn is_cheaper(&mut self, from: u64, to: u64, cost: u64) -> (r: bool)
        ensures
            ({
                let oc = if old(self).m().contains_key(to) {
                    old(self).m()[to].cost
                } else {
                    u64::MAX
                };
                let op = if old(self).m().contains_key(to) {
                    old(self).m()[to].preds@
                } else {
                    Seq::<u64>::empty()
                };
                &&& r == (cost < oc)
                &&& final(self).m().dom() =~= old(self).m().dom().insert(to)
                &&& forall|k: u64|
                    k != to && old(self).m().contains_key(k) ==> #[trigger] final(self).m()[k]
                        == old(self).m()[k]
                &&& final(self).m()[to].cost == (if cost < oc {
                    cost
                } else {
                    oc
                })
                &&& final(self).m()[to].preds@ =~= (if cost < oc {
                    seq![from]
                } else if cost == oc {
                    op.push(from)
                } else {
                    op
                })
            }),
    {
        let entry_cost: u64;
        let mut entry_preds: Vec<u64>;
        match self.map.remove(&to) {
            Some(e) => {
                entry_cost = e.cost;
                entry_preds = e.preds;
            }
            None => {
                entry_cost = u64::MAX;
                entry_preds = Vec::new();
            }
        }
        if cost > entry_cost {
            self.map.insert(to, SeenEntry { cost: entry_cost, preds: entry_preds });
            false
        } else if cost == entry_cost {
            entry_preds.push(from);
            self.map.insert(to, SeenEntry { cost: entry_cost, preds: entry_preds });
            false
        } else {
            let mut preds = Vec::new();
            preds.push(from);
            self.map.insert(to, SeenEntry { cost, preds });
            true
        }
    }
}

/// One cost bucket of the frontier: the nodes waiting to be expanded at
/// this cost, each with its target flag, no pair listed twice.
pub struct Bucket {
    pub cost: u64,
    pub items: Vec<(u64, bool)>,
}

/// The cost-ordered frontier: buckets with strictly increasing costs,
/// none of them empty.
pub struct Frontier {
    pub buckets: Vec<Bucket>,
}

impl Frontier {
    pub open spec fn wf(&self) -> bool {
        &&& forall|i: int, j: int|
            0 <= i < j < self.buckets@.len() ==> #[trigger] self.buckets@[i].cost
                < #[trigger] self.buckets@[j].cost
        &&& forall|i: int|
            0 <= i < self.buckets@.len() ==> #[trigger] self.buckets@[i].items@.len() > 0
        &&& forall|i: int, a: int, b: int|
            0 <= i < self.buckets@.len() && 0 <= a < b < self.buckets@[i].items@.len()
                ==> #[trigger] self.buckets@[i].items@[a] != #[trigger] self.buckets@[i].items@[b]
    }

    /// The frontier holds node `n` with flag `t` at cost `c`.
    pub open spec fn has(&self, c: u64, n: u64, t: bool) -> bool {
        exists|i: int|
            0 <= i < self.buckets@.len() && #[trigger] self.buckets@[i].cost == c
                && self.buckets@[i].items@.contains((n, t))
    }

    /// Every entry of the frontier costs at least `c`.
    pub open spec fn all_at_least(&self, c: int) -> bool {
        forall|i: int| 0 <= i < self.buckets@.len() ==> #[trigger] self.buckets@[i].cost >= c
    }

    pub open spec fn is_empty_spec(&self) -> bool {
        self.buckets@.len() == 0
    }

    /// The total number of (node, flag) entries over all buckets.
    pub open spec fn count(&self) -> nat {
        count_items(self.buckets@)
    }

    pub fn new() -> (r: Self)
        ensures
            r.wf(),
            r.is_empty_spec(),
            forall|c: u64, n: u64, t: bool| !r.has(c, n, t),
            r.count() == 0,
    {
        Frontier { buckets: Vec::new() }
    }

    /// Add `(n, t)` to the bucket for cost `c`, creating the bucket in
    /// its sorted place if needed; a pair already present is not
    /// duplicated.
    pub fn insert(&mut self, c: u64, n: u64, t: bool)
        requires
            old(self).wf(),
        ensures
            final(self).wf(),
            forall|c2: u64, n2: u64, t2: bool|
                #[trigger] final(self).has(c2, n2, t2) <==> (old(self).has(c2, n2, t2) || (c2 == c
                    && n2 == n && t2 == t)),
            forall|b: int| old(self).all_at_least(b) && c >= b ==> final(self).all_at_least(b),
            final(self).count() <= old(self).count() + 1,
    {
        let ghost old_self = *self;
        let mut i: usize = 0;
        while i < self.buckets.len() && self.buckets[i].cost < c
            invariant
                *self == old_self,
                0 <= i <= self.buckets@.len(),
                forall|k: int| 0 <= k < i ==> #[trigger] self.buckets@[k].cost < c,
            decreases self.buckets@.len() - i,
        {
            i = i + 1;
        }
        if i < self.buckets.len() && self.buckets[i].cost == c {
            // A bucket for this cost exists: add the pair unless present.
            let mut j: usize = 0;
            let blen = self.buckets[i].items.len();
            let mut present = false;
            while j < blen
                invariant
                    *self == old_self,
                    0 <= i < self.buckets@.len(),
                    blen == self.buckets@[i as int].items@.len(),
                    0 <= j <= blen,
                    present == exists|k: int|
                        0 <= k < j && #[trigger] self.buckets@[i as int].items@[k] == (n, t),
                decreases blen - j,
            {
                let (pn, pt) = self.buckets[i].items[j];
                if pn == n && pt == t {
                    present = true;
                    proof {
                        assert(self.buckets@[i as int].items@[j as int] == (n, t));
                    }
                }
                j = j + 1;
            }
            proof {
                assert(present == self.buckets@[i as int].items@.contains((n, t)));
            }
            if !present {
                let mut bucket = self.buckets.remove(i);
                let ghost mid = self.buckets@;
                bucket.items.push((n, t));
                self.buckets.insert(i, bucket);
                proof {
                    lemma_insert_existing(old_self, *self, i as int, c, n, t);
                    lemma_count_remove(old_self.buckets@, i as int);
                    lemma_count_insert(mid, i as int, self.buckets@[i as int]);
                }
            } else {
                proof {
                    assert(self.buckets@[i as int].items@.contains((n, t)));
                    assert(self.has(c, n, t));
                    assert(forall|c2: u64, n2: u64, t2: bool|
                        #[trigger] self.has(c2, n2, t2) <==> (old_self.has(c2, n2, t2) || (c2 == c
                            && n2 == n && t2 == t)));
                }
            }
        } else {
            // No bucket for this cost: create one at position i.
            let mut items: Vec<(u64, bool)> = Vec::new();
            items.push((n, t));
            let ghost pre = *self;
            self.buckets.insert(i, Bucket { cost: c, items });
            proof {
                lemma_insert_new(pre, *self, i as int, c, n, t);
                lemma_count_insert(pre.buckets@, i as int, self.buckets@[i as int]);
            }
        }
    }

    /// Remove and return the cheapest bucket.
    pub fn pop_first(&mut self) -> (r: Option<(u64, Vec<(u64, bool)>)>)
        requires
            old(self).wf(),
        ensures
            final(self).wf(),
            r is None ==> old(self).is_empty_spec() && *final(self) == *old(self),
            r matches Some((c, items)) ==> {
                &&& old(self).all_at_least(c as int)
                &&& forall|n: u64, t: bool| #[trigger] items@.contains((n, t)) <==> old(self).has(c, n, t)
                &&& forall|a: int, b: int|
                    0 <= a < b < items@.len() ==> items@[a] != items@[b]
                &&& forall|c2: u64, n2: u64, t2: bool|
                    #[trigger] final(self).has(c2, n2, t2) <==> (old(self).has(c2, n2, t2) && c2
                        != c)
                &&& items@.len() > 0
                &&& final(self).count() + items@.len() == old(self).count()
                &&& final(self).all_at_least(c as int + 1)
            },
    {
        if self.buckets.len() == 0 {
            None
        } else {
            let b = self.buckets.remove(0);
            proof {
                lemma_pop_first(*old(self), *self, b);
                lemma_count_remove(old(self).buckets@, 0);
            }
            Some((b.cost, b.items))
        }
    }
}

/// Helper for `Frontier::insert` when the pair joins an existing bucket.
proof fn lemma_insert_existing(pre: Frontier, post: Frontier, i: int, c: u64, n: u64, t: bool)
    requires
        pre.wf(),
        0 <= i < pre.buckets@.len(),
        pre.buckets@[i].cost == c,
        !pre.buckets@[i].items@.contains((n, t)),
        post.buckets@.len() == pre.buckets@.len(),
        forall|k: int|
            0 <= k < pre.buckets@.len() && k != i ==> #[trigger] post.buckets@[k]
                == pre.buckets@[k],
        post.buckets@[i].cost == c,
        post.buckets@[i].items@ =~= pre.buckets@[i].items@.push((n, t)),
    ensures
        post.wf(),
        forall|c2: u64, n2: u64, t2: bool|
            #[trigger] post.has(c2, n2, t2) <==> (pre.has(c2, n2, t2) || (c2 == c && n2 == n && t2
                == t)),
        forall|b: int| pre.all_at_least(b) && c >= b ==> post.all_at_least(b),
{
    assert(post.wf()) by {
        assert forall|x: int, y: int|
            0 <= x < y < post.buckets@.len() implies #[trigger] post.buckets@[x].cost
                < #[trigger] post.buckets@[y].cost by {
            assert(post.buckets@[x].cost == pre.buckets@[x].cost);
            assert(post.buckets@[y].cost == pre.buckets@[y].cost);
        }
        assert forall|x: int|
            0 <= x < post.buckets@.len() implies #[trigger] post.buckets@[x].items@.len() > 0 by {
            if x != i {
                assert(post.buckets@[x] == pre.buckets@[x]);
                assert(pre.buckets@[x].items@.len() > 0);
            } else {
                assert(post.buckets@[i].items@.len() == pre.buckets@[i].items@.len() + 1);
            }
        }
        assert forall|x: int, a: int, b: int|
            0 <= x < post.buckets@.len() && 0 <= a < b < post.buckets@[x].items@.len()
                implies #[trigger] post.buckets@[x].items@[a] != #[trigger] post.buckets@[x].items@[b] by {
            if x == i {
                if b == post.buckets@[i].items@.len() - 1 {
                    assert(post.buckets@[i].items@[a] == pre.buckets@[i].items@[a]);
                    assert(post.buckets@[i].items@[b] == (n, t));
                    assert(!pre.buckets@[i].items@.contains((n, t)));
                } else {
                    assert(post.buckets@[i].items@[a] == pre.buckets@[i].items@[a]);
                    assert(post.buckets@[i].items@[b] == pre.buckets@[i].items@[b]);
                }
            } else {
                assert(post.buckets@[x] == pre.buckets@[x]);
            }
        }
    }
    assert forall|c2: u64, n2: u64, t2: bool| #[trigger]
        post.has(c2, n2, t2) implies (pre.has(c2, n2, t2) || (c2 == c && n2 == n && t2 == t)) by {
        let k = choose|k: int|
            0 <= k < post.buckets@.len() && #[trigger] post.buckets@[k].cost == c2
                && post.buckets@[k].items@.contains((n2, t2));
        if k == i {
            if (n2, t2) != (n, t) {
                let x = choose|x: int|
                    0 <= x < post.buckets@[i].items@.len() && post.buckets@[i].items@[x] == (
                        n2,
                        t2,
                    );
                assert(pre.buckets@[i].items@[x] == (n2, t2));
                assert(pre.has(c2, n2, t2));
            }
        } else {
            assert(pre.buckets@[k].items@.contains((n2, t2)));
            assert(pre.has(c2, n2, t2));
        }
    }
    assert forall|c2: u64, n2: u64, t2: bool|
        pre.has(c2, n2, t2) || (c2 == c && n2 == n && t2 == t) implies #[trigger] post.has(
        c2,
        n2,
        t2,
    ) by {
        if pre.has(c2, n2, t2) {
            let k = choose|k: int|
                0 <= k < pre.buckets@.len() && #[trigger] pre.buckets@[k].cost == c2
                    && pre.buckets@[k].items@.contains((n2, t2));
            if k == i {
                let x = choose|x: int|
                    0 <= x < pre.buckets@[i].items@.len() && pre.buckets@[i].items@[x] == (n2, t2);
                assert(post.buckets@[i].items@[x] == (n2, t2));
            } else {
                assert(post.buckets@[k].items@.contains((n2, t2)));
            }
        } else {
            let newlen = post.buckets@[i].items@.len();
            assert(post.buckets@[i].items@[newlen - 1] == (n, t));
        }
    }
}

/// Helper for `Frontier::insert` when a new bucket is created at `i`.
proof fn lemma_insert_new(pre: Frontier, post: Frontier, i: int, c: u64, n: u64, t: bool)
    requires
        pre.wf(),
        0 <= i <= pre.buckets@.len(),
        forall|k: int| 0 <= k < i ==> #[trigger] pre.buckets@[k].cost < c,
        forall|k: int| i <= k < pre.buckets@.len() ==> #[trigger] pre.buckets@[k].cost > c,
        post.buckets@.len() == pre.buckets@.len() + 1,
        post.buckets@[i].cost == c,
        post.buckets@[i].items@ =~= seq![(n, t)],
        forall|k: int| 0 <= k < i ==> #[trigger] post.buckets@[k] == pre.buckets@[k],
        forall|k: int|
            i < k < post.buckets@.len() ==> #[trigger] post.buckets@[k] == pre.buckets@[k - 1],
    ensures
        post.wf(),
        forall|c2: u64, n2: u64, t2: bool|
            #[trigger] post.has(c2, n2, t2) <==> (pre.has(c2, n2, t2) || (c2 == c && n2 == n && t2
                == t)),
        forall|b: int| pre.all_at_least(b) && c >= b ==> post.all_at_least(b),
{
    assert(post.wf()) by {
        assert forall|x: int, y: int|
            0 <= x < y < post.buckets@.len() implies #[trigger] post.buckets@[x].cost
                < #[trigger] post.buckets@[y].cost by {
            if x < i && y > i {
                assert(post.buckets@[x] == pre.buckets@[x]);
                assert(post.buckets@[y] == pre.buckets@[y - 1]);
            }
        }
        assert forall|x: int|
            0 <= x < post.buckets@.len() implies #[trigger] post.buckets@[x].items@.len() > 0 by {
            if x == i {
                assert(post.buckets@[i].items@.len() == 1);
            } else if x < i {
                assert(post.buckets@[x] == pre.buckets@[x]);
                assert(pre.buckets@[x].items@.len() > 0);
            } else {
                assert(post.buckets@[x] == pre.buckets@[x - 1]);
                assert(pre.buckets@[x - 1].items@.len() > 0);
            }
        }
        assert forall|x: int, a: int, b: int|
            0 <= x < post.buckets@.len() && 0 <= a < b < post.buckets@[x].items@.len()
                implies #[trigger] post.buckets@[x].items@[a] != #[trigger] post.buckets@[x].items@[b] by {
            if x == i {
                assert(post.buckets@[i].items@.len() == 1);
            } else if x < i {
                assert(post.buckets@[x] == pre.buckets@[x]);
                assert(pre.buckets@[x].items@[a] != pre.buckets@[x].items@[b]);
            } else {
                assert(post.buckets@[x] == pre.buckets@[x - 1]);
                assert(pre.buckets@[x - 1].items@[a] != pre.buckets@[x - 1].items@[b]);
            }
        }
    }
    assert forall|c2: u64, n2: u64, t2: bool| #[trigger]
        post.has(c2, n2, t2) implies (pre.has(c2, n2, t2) || (c2 == c && n2 == n && t2 == t)) by {
        let k = choose|k: int|
            0 <= k < post.buckets@.len() && #[trigger] post.buckets@[k].cost == c2
                && post.buckets@[k].items@.contains((n2, t2));
        if k < i {
            assert(pre.buckets@[k].items@.contains((n2, t2)));
            assert(pre.has(c2, n2, t2));
        } else if k == i {
            assert((n2, t2) == (n, t));
        } else {
            assert(pre.buckets@[k - 1].items@.contains((n2, t2)));
            assert(pre.has(c2, n2, t2));
        }
    }
    assert forall|c2: u64, n2: u64, t2: bool|
        pre.has(c2, n2, t2) || (c2 == c && n2 == n && t2 == t) implies #[trigger] post.has(
        c2,
        n2,
        t2,
    ) by {
        if pre.has(c2, n2, t2) {
            let k = choose|k: int|
                0 <= k < pre.buckets@.len() && #[trigger] pre.buckets@[k].cost == c2
                    && pre.buckets@[k].items@.contains((n2, t2));
            if k < i {
                assert(post.buckets@[k].items@.contains((n2, t2)));
            } else {
                assert(post.buckets@[k + 1] == pre.buckets@[k]);
                assert(post.buckets@[k + 1].items@.contains((n2, t2)));
            }
        } else {
            assert(post.buckets@[i].items@[0] == (n, t));
            assert(post.buckets@[i].items@.contains((n, t)));
        }
    }
}

/// Helper for `Frontier::pop_first`.
proof fn lemma_pop_first(pre: Frontier, post: Frontier, b: Bucket)
    requires
        pre.wf(),
        pre.buckets@.len() > 0,
        b == pre.buckets@[0],
        post.buckets@ =~= pre.buckets@.remove(0),
    ensures
        post.wf(),
        pre.all_at_least(b.cost as int),
        post.all_at_least(b.cost as int + 1),
        forall|n: u64, t: bool| #[trigger] b.items@.contains((n, t)) <==> pre.has(b.cost, n, t),
        forall|c2: u64, n2: u64, t2: bool|
            #[trigger] post.has(c2, n2, t2) <==> (pre.has(c2, n2, t2) && c2 != b.cost),
{
    assert(post.wf()) by {
        assert forall|x: int, y: int|
            0 <= x < y < post.buckets@.len() implies #[trigger] post.buckets@[x].cost
                < #[trigger] post.buckets@[y].cost by {
            assert(post.buckets@[x] == pre.buckets@[x + 1]);
            assert(post.buckets@[y] == pre.buckets@[y + 1]);
        }
        assert forall|x: int|
            0 <= x < post.buckets@.len() implies #[trigger] post.buckets@[x].items@.len() > 0 by {
            assert(post.buckets@[x] == pre.buckets@[x + 1]);
            assert(pre.buckets@[x + 1].items@.len() > 0);
        }
        assert forall|x: int, a: int, b2: int|
            0 <= x < post.buckets@.len() && 0 <= a < b2 < post.buckets@[x].items@.len()
                implies #[trigger] post.buckets@[x].items@[a] != #[trigger] post.buckets@[x].items@[b2] by {
            assert(post.buckets@[x] == pre.buckets@[x + 1]);
            assert(pre.buckets@[x + 1].items@[a] != pre.buckets@[x + 1].items@[b2]);
        }
    }
    assert forall|i: int| 0 <= i < pre.buckets@.len() implies #[trigger] pre.buckets@[i].cost
        >= b.cost by {
        if i > 0 {
            assert(pre.buckets@[0].cost < pre.buckets@[i].cost);
        }
    }
    assert forall|i: int| 0 <= i < post.buckets@.len() implies #[trigger] post.buckets@[i].cost
        >= b.cost + 1 by {
        assert(post.buckets@[i] == pre.buckets@[i + 1]);
        assert(pre.buckets@[0].cost < pre.buckets@[i + 1].cost);
    }
    assert forall|n: u64, t: bool| #[trigger] b.items@.contains((n, t)) implies pre.has(
        b.cost,
        n,
        t,
    ) by {
        assert(pre.buckets@[0].cost == b.cost && pre.buckets@[0].items@.contains((n, t)));
    }
    assert forall|n: u64, t: bool| pre.has(b.cost, n, t) implies #[trigger] b.items@.contains(
        (n, t),
    ) by {
        let k = choose|k: int|
            0 <= k < pre.buckets@.len() && #[trigger] pre.buckets@[k].cost == b.cost
                && pre.buckets@[k].items@.contains((n, t));
        if k != 0 {
            assert(pre.buckets@[0].cost < pre.buckets@[k].cost);
        }
    }
    assert forall|c2: u64, n2: u64, t2: bool| #[trigger]
        post.has(c2, n2, t2) implies (pre.has(c2, n2, t2) && c2 != b.cost) by {
        let k = choose|k: int|
            0 <= k < post.buckets@.len() && #[trigger] post.buckets@[k].cost == c2
                && post.buckets@[k].items@.contains((n2, t2));
        assert(post.buckets@[k] == pre.buckets@[k + 1]);
        assert(pre.buckets@[k + 1].items@.contains((n2, t2)));
        assert(pre.buckets@[0].cost < pre.buckets@[k + 1].cost);
    }
    assert forall|c2: u64, n2: u64, t2: bool|
        pre.has(c2, n2, t2) && c2 != b.cost implies #[trigger] post.has(c2, n2, t2) by {
        let k = choose|k: int|
            0 <= k < pre.buckets@.len() && #[trigger] pre.buckets@[k].cost == c2
                && pre.buckets@[k].items@.contains((n2, t2));
        assert(k != 0);
        assert(post.buckets@[k - 1] == pre.buckets@[k]);
        assert(post.buckets@[k - 1].items@.contains((n2, t2)));
    }
}

/// A reversed copy of a node vector.
fn reversed(v: &Vec<u64>) -> (r: Vec<u64>)
    ensures
        r@.len() == v@.len(),
        forall|i: int| 0 <= i < v@.len() ==> r@[i] == v@[v@.len() - 1 - i],
{
    let mut r: Vec<u64> = Vec::new();
    let mut i: usize = 0;
    while i < v.len()
        invariant
            0 <= i <= v@.len(),
            r@.len() == i,
            forall|k: int| 0 <= k < i ==> r@[k] == v@[v@.len() - 1 - k],
        decreases v@.len() - i,
    {
        r.push(v[v.len() - 1 - i]);
        i = i + 1;
    }
    r
}

/// A plain copy of a node vector.
fn copied(v: &Vec<u64>) -> (r: Vec<u64>)
    ensures
        r@ =~= v@,
{
    let mut r: Vec<u64> = Vec::new();
    let mut i: usize = 0;
    while i < v.len()
        invariant
            0 <= i <= v@.len(),
            r@ =~= v@.take(i as int),
        decreases v@.len() - i,
    {
        r.push(v[i]);
        i = i + 1;
    }
    proof {
        assert(v@.take(v@.len() as int) =~= v@);
    }
    r
}

/// `p` is a complete predecessor chain of the table `m`: it begins at a
/// node with no predecessors and every later node lists the previous
/// one among its predecessors.
pub open spec fn chain_ok(m: Map<u64, SeenEntry>, p: Seq<u64>) -> bool {
    &&& p.len() >= 1
    &&& m.contains_key(p.first())
    &&& m[p.first()].preds@.len() == 0
    &&& forall|i: int|
        0 < i < p.len() ==> m.contains_key(#[trigger] p[i]) && m[p[i]].preds@.contains(p[i - 1])
}

/// Every recorded predecessor is itself recorded at a strictly
/// smaller cost, so predecessor chains cannot cycle.  This holds of
/// every table the traversal builds over strictly positive edge
/// weights; zero-weight ties can tie equal-cost nodes into a knot.
pub open spec fn preds_acyclic(m: Map<u64, SeenEntry>) -> bool {
    forall|n: u64, j: int|
        m.contains_key(n) && 0 <= j < m[n].preds@.len() ==> m.contains_key(
            #[trigger] m[n].preds@[j],
        ) && m[m[n].preds@[j]].cost < m[n].cost
}

/// No node lists the same predecessor twice.  This holds of every
/// table the traversal builds when no node's edge list repeats an
/// identical `(weight, successor)` pair.
pub open spec fn preds_distinct(m: Map<u64, SeenEntry>) -> bool {
    forall|n: u64, j1: int, j2: int|
        m.contains_key(n) && 0 <= j1 < j2 < m[n].preds@.len() ==> (#[trigger] m[n].preds@[j1])
            != (#[trigger] m[n].preds@[j2])
}

/// Every edge of the graph carries a strictly positive weight.
pub open spec fn positive_weights<G: Neighbors>(g: &G) -> bool {
    forall|n: u64, j: int| 0 <= j < g.edges(n).len() ==> (#[trigger] g.edges(n)[j]).0 >= 1
}

/// No node's edge list repeats an identical weight-successor pair.
pub open spec fn no_dup_edges<G: Neighbors>(g: &G) -> bool {
    forall|n: u64, j1: int, j2: int|
        0 <= j1 < j2 < g.edges(n).len() ==> (#[trigger] g.edges(n)[j1]) != (
        #[trigger] g.edges(n)[j2])
}

/// Every recorded predecessor has already been expanded.
pub open spec fn preds_settled(m: Map<u64, SeenEntry>, ex: Set<u64>) -> bool {
    forall|n: u64, x: int|
        m.contains_key(n) && 0 <= x < m[n].preds@.len() ==> ex.contains(
            #[trigger] m[n].preds@[x],
        )
}

/// During one node's edge scan: every recorded predecessor was either
/// expanded earlier, or is the node being expanded, placed there by
/// one of the edges already scanned, at exactly the recorded cost.
pub open spec fn preds_mid_scan<G: Neighbors>(
    g: &G,
    m: Map<u64, SeenEntry>,
    ex: Set<u64>,
    node: u64,
    cost: u64,
    j: int,
) -> bool {
    forall|n: u64, x: int|
        m.contains_key(n) && 0 <= x < m[n].preds@.len() ==> ex.contains(
            #[trigger] m[n].preds@[x],
        ) || (m[n].preds@[x] == node && exists|i: int|
            0 <= i < j && (#[trigger] g.edges(node)[i]).1 == n && m[n].cost == cost + g.edges(
                node,
            )[i].0)
}

/// No target's tied-path list holds the same path twice.
pub open spec fn paths_distinct(ps: Seq<(u64, Vec<Vec<u64>>)>) -> bool {
    forall|i: int, k1: int, k2: int|
        0 <= i < ps.len() && 0 <= k1 < k2 < (#[trigger] ps[i]).1@.len() ==> (
        #[trigger] ps[i].1@[k1])@ != (#[trigger] ps[i].1@[k2])@
}

/// The flat list holds every minimal path of cost `c` from the start
/// to any target.
pub open spec fn covers_all_ties<G: Neighbors>(
    g: &G,
    start: u64,
    c: u64,
    paths: Seq<Vec<u64>>,
) -> bool {
    forall|p: Seq<u64>, t: u64|
        g.is_target(t) && t != start && #[trigger] connects(g, p, start, t, c as int)
            ==> exists|x: int| 0 <= x < paths.len() && (#[trigger] paths[x])@ == p
}

/// Every collected entry is non-empty and enumerates all of its
/// target's minimal-cost paths.
pub open spec fn paths_full<G: Neighbors>(
    g: &G,
    start: u64,
    ts: Seq<(u64, u64)>,
    ps: Seq<(u64, Vec<Vec<u64>>)>,
) -> bool {
    &&& forall|i: int| 0 <= i < ps.len() ==> (#[trigger] ps[i]).1@.len() >= 1
    &&& forall|i: int, p: Seq<u64>|
        0 <= i < ps.len() && i < ts.len() && #[trigger] connects(
            g,
            p,
            start,
            ts[i].1,
            ps[i].0 as int,
        ) ==> exists|k: int| 0 <= k < ps[i].1@.len() && (#[trigger] ps[i].1@[k])@ == p
}

/// The predecessor table misses no optimal in-edge: whenever an
/// expanded node's edge achieves a recorded node's exact cost, that
/// edge is on record.
pub open spec fn preds_complete<G: Neighbors>(
    g: &G,
    m: Map<u64, SeenEntry>,
    ex: Set<u64>,
) -> bool {
    forall|u: u64, j: int|
        ex.contains(u) && 0 <= j < g.edges(u).len() && m.contains_key(
            (#[trigger] g.edges(u)[j]).1,
        ) && m[u].cost + g.edges(u)[j].0 == m[g.edges(u)[j].1].cost
            ==> m[g.edges(u)[j].1].preds@.contains(u)
}

/// The same bookkeeping for the node whose edges are being scanned:
/// each edge already taken that achieves its endpoint's exact cost is
/// on record.
pub open spec fn scan_complete<G: Neighbors>(
    g: &G,
    m: Map<u64, SeenEntry>,
    node: u64,
    j: int,
) -> bool {
    forall|jj: int|
        0 <= jj < j && m.contains_key((#[trigger] g.edges(node)[jj]).1) && m[node].cost
            + g.edges(node)[jj].0 == m[g.edges(node)[jj].1].cost ==> m[g.edges(
            node,
        )[jj].1].preds@.contains(node)
}

/// The walk steps rooted at `n`, truncated below depth `d`: one for
/// the node plus, while depth remains, the steps of every predecessor
/// subtree.  Total on every table, cyclic or not.
pub open spec fn dtw(m: Map<u64, SeenEntry>, n: u64, d: nat) -> nat
    decreases d, 1nat, 0nat,
{
    if d == 0 || !m.contains_key(n) || m[n].preds@.len() == 0 {
        1
    } else {
        1 + dpw(m, n, m[n].preds@.len() as int, d)
    }
}

/// The summed truncated steps of `n`'s first `j` predecessor subtrees.
pub open spec fn dpw(m: Map<u64, SeenEntry>, n: u64, j: int, d: nat) -> nat
    decreases d, 0nat, (if j > 0 {
        j as nat
    } else {
        0nat
    }),
{
    if d == 0 || j <= 0 || !m.contains_key(n) || j > m[n].preds@.len() {
        0
    } else {
        dpw(m, n, j - 1, d) + dtw(m, m[n].preds@[j - 1], (d - 1) as nat)
    }
}

/// The depth budget left for a stack item whose partial chain has the
/// given length.  On an acyclic table a partial chain never repeats a
/// node, so a budget of table size minus consumed length suffices.
pub open spec fn item_depth(cap: nat, len: nat) -> nat {
    if len <= cap + 1 {
        (cap + 1 - len) as nat
    } else {
        0
    }
}

/// The summed truncated steps of the reconstruction stack.
pub open spec fn swt(m: Map<u64, SeenEntry>, s: Seq<(u64, Vec<u64>)>, cap: nat) -> nat
    decreases s.len(),
{
    if s.len() == 0 {
        0
    } else {
        swt(m, s.drop_last(), cap) + dtw(m, s.last().0, item_depth(cap, s.last().1@.len()))
    }
}

/// Along a partial chain, later nodes carry strictly smaller costs.
proof fn lemma_chain_cost_drop(
    m: Map<u64, SeenEntry>,
    pp: Seq<u64>,
    target: u64,
    i: int,
    j: int,
)
    requires
        preds_acyclic(m),
        rev_partial(m, pp, target),
        0 <= i < j < pp.len(),
    ensures
        m.contains_key(pp[j]),
        m[pp[j]].cost < m[pp[i]].cost,
    decreases j - i,
{
    assert(m.contains_key(pp[j - 1]) && m[pp[j - 1]].preds@.contains(pp[j]));
    let x = choose|x: int|
        0 <= x < m[pp[j - 1]].preds@.len() && (#[trigger] m[pp[j - 1]].preds@[x]) == pp[j];
    assert(m.contains_key(m[pp[j - 1]].preds@[x]) && m[m[pp[j - 1]].preds@[x]].cost < m[pp[j
        - 1]].cost);
    if i < j - 1 {
        lemma_chain_cost_drop(m, pp, target, i, j - 1);
    }
}

/// On an acyclic table a partial chain visits each recorded node at
/// most once, so it cannot outgrow the table.
proof fn lemma_rev_chain_short(m: Map<u64, SeenEntry>, pp: Seq<u64>, target: u64)
    requires
        preds_acyclic(m),
        rev_partial(m, pp, target),
        m.contains_key(pp.last()),
        m.dom().finite(),
    ensures
        pp.len() <= m.dom().len(),
{
    assert forall|i: int| 0 <= i < pp.len() implies m.dom().contains(#[trigger] pp[i]) by {
        if i < pp.len() - 1 {
            assert(m.contains_key(pp[i]));
        } else {
            assert(pp[i] == pp.last());
        }
    }
    assert forall|i: int, j: int|
        0 <= i < j < pp.len() implies #[trigger] pp[i] != #[trigger] pp[j] by {
        lemma_chain_cost_drop(m, pp, target, i, j);
    }
    assert(pp.no_duplicates());
    pp.unique_seq_to_set();
    assert(pp.to_set().subset_of(m.dom()));
    vstd::set_lib::lemma_len_subset(pp.to_set(), m.dom());
}

impl SeenTable {
    /// Walk the predecessor table backward from `target`, materializing
    /// every complete chain as a start-to-target path.  On an acyclic
    /// table the enumeration is complete; on a table without repeated
    /// predecessors no chain is produced twice.
    #[verifier::rlimit(100)]
    #[verifier::spinoff_prover]
    pub fn get_paths_from(&self, target: u64) -> (paths: Vec<Vec<u64>>)
        ensures
            forall|k: int|
                0 <= k < paths@.len() ==> chain_ok(self.m(), #[trigger] paths@[k]@)
                    && paths@[k]@.last() == target && paths@[k]@.len() >= 1,
            preds_acyclic(self.m()) ==> (forall|p: Seq<u64>|
                #[trigger] chain_ok(self.m(), p) && p.last() == target ==> exists|k: int|
                    0 <= k < paths@.len() && (#[trigger] paths@[k])@ == p),
            preds_distinct(self.m()) ==> (forall|k1: int, k2: int|
                0 <= k1 < k2 < paths@.len() ==> (#[trigger] paths@[k1])@ != (
                #[trigger] paths@[k2])@),
    {
        let ghost gm = self.m();
        let cap = self.map.len();
        let mut paths: Vec<Vec<u64>> = Vec::new();
        let mut work: Vec<(u64, Vec<u64>)> = Vec::new();
        let mut first: Vec<u64> = Vec::new();
        first.push(target);
        work.push((target, first));
        proof {
            assert(cap as nat == gm.dom().len());
            assert(gm.dom().finite());
            assert(work@.drop_last() =~= Seq::<(u64, Vec<u64>)>::empty());
            assert forall|p: Seq<u64>|
                #[trigger] chain_ok(gm, p) && p.last() == target implies work@[0].1@.is_prefix_of(
                p.reverse(),
            ) by {
                let rp = p.reverse();
                assert(rp[0] == p[p.len() - 1]);
                assert(work@[0].1@ =~= rp.subrange(0, 1));
            }
        }
        while work.len() > 0
            invariant
                gm == self.m(),
                cap as nat == gm.dom().len(),
                gm.dom().finite(),
                forall|x: int|
                    0 <= x < work@.len() ==> rev_partial(gm, #[trigger] work@[x].1@, target)
                        && work@[x].1@.last() == work@[x].0,
                forall|k: int|
                    0 <= k < paths@.len() ==> chain_ok(gm, #[trigger] paths@[k]@)
                        && paths@[k]@.last() == target && paths@[k]@.len() >= 1,
                preds_acyclic(gm) ==> (forall|p: Seq<u64>|
                    #[trigger] chain_ok(gm, p) && p.last() == target ==> (exists|k: int|
                        0 <= k < paths@.len() && (#[trigger] paths@[k])@ == p) || (exists|x: int|
                        0 <= x < work@.len() && (#[trigger] work@[x]).1@.is_prefix_of(
                            p.reverse(),
                        ))),
                preds_distinct(gm) ==> (forall|x1: int, x2: int|
                    0 <= x1 < x2 < work@.len() ==> !(#[trigger] work@[x1]).1@.is_prefix_of(
                        work@[x2].1@,
                    ) && !(#[trigger] work@[x2]).1@.is_prefix_of(work@[x1].1@)),
                preds_distinct(gm) ==> (forall|x: int, k: int|
                    0 <= x < work@.len() && 0 <= k < paths@.len() ==> !(
                    #[trigger] work@[x]).1@.is_prefix_of((#[trigger] paths@[k])@.reverse())),
                preds_distinct(gm) ==> (forall|k1: int, k2: int|
                    0 <= k1 < k2 < paths@.len() ==> (#[trigger] paths@[k1])@ != (
                    #[trigger] paths@[k2])@),
            decreases swt(gm, work@, cap as nat),
        {
            let ghost work0 = work@;
            let ghost paths0 = paths@;
            let item = work.pop();
            let (cur, path) = item.unwrap();
            proof {
                assert((cur, path) == work0.last());
                assert(work@ =~= work0.drop_last());
                assert(path@ == work0.last().1@);
                assert(swt(gm, work0, cap as nat) == swt(gm, work@, cap as nat) + dtw(
                    gm,
                    cur,
                    item_depth(cap as nat, path@.len()),
                ));
                assert(dtw(gm, cur, item_depth(cap as nat, path@.len())) >= 1);
            }
            let entry_opt = self.get(cur);
            match entry_opt {
                None => {
                    proof {
                        if preds_acyclic(gm) {
                        // a chain never runs through an unknown node
                        assert forall|p: Seq<u64>|
                            #[trigger] chain_ok(gm, p) && p.last() == target implies (exists|
                            k: int,
                        |
                            0 <= k < paths@.len() && (#[trigger] paths@[k])@ == p) || (exists|
                            x: int,
                        |
                            0 <= x < work@.len() && (#[trigger] work@[x]).1@.is_prefix_of(
                                p.reverse(),
                            )) by {
                            if exists|k: int|
                                0 <= k < paths0.len() && (#[trigger] paths0[k])@ == p {
                                let k0 = choose|k0: int|
                                    0 <= k0 < paths0.len() && (#[trigger] paths0[k0])@ == p;
                                assert(paths@[k0]@ == p);
                            } else {
                                let x = choose|x: int|
                                    0 <= x < work0.len() && (#[trigger] work0[x]).1@.is_prefix_of(
                                        p.reverse(),
                                    );
                                if x == work0.len() - 1 {
                                    let rp = p.reverse();
                                    lemma_chain_elements(gm, p);
                                    assert(work0[x].1@ == path@);
                                    assert(path@ =~= rp.subrange(0, path@.len() as int));
                                    assert(cur == path@.last());
                                    assert(path@[path@.len() - 1] == rp[path@.len() - 1]);
                                    assert(rp[path@.len() - 1] == p[p.len() - path@.len()]);
                                    assert(gm.contains_key(cur));
                                    assert(false);
                                } else {
                                    assert(work@[x] == work0[x]);
                                    assert(work@[x].1@.is_prefix_of(p.reverse()));
                                }
                            }
                        }
                        }
                    }
                }
                Some(entry) => {
                    if entry.preds.len() == 0 {
                        let q = reversed(&path);
                        proof {
                            lemma_rev_to_chain(gm, path@, q@, target, cur);
                            assert(q@ =~= path@.reverse());
                        }
                        paths.push(q);
                        proof {
                            assert(paths@ =~= paths0.push(q));
                            if preds_acyclic(gm) {
                            // every chain this item was covering is exactly the
                            // path just emitted
                            assert forall|p: Seq<u64>|
                                #[trigger] chain_ok(gm, p) && p.last() == target implies (exists|
                                k: int,
                            |
                                0 <= k < paths@.len() && (#[trigger] paths@[k])@ == p) || (exists|
                                x: int,
                            |
                                0 <= x < work@.len() && (#[trigger] work@[x]).1@.is_prefix_of(
                                    p.reverse(),
                                )) by {
                                if exists|k: int|
                                    0 <= k < paths0.len() && (#[trigger] paths0[k])@ == p {
                                    let k0 = choose|k0: int|
                                        0 <= k0 < paths0.len() && (#[trigger] paths0[k0])@ == p;
                                    assert(paths@[k0]@ == p);
                                } else {
                                    let x = choose|x: int|
                                        0 <= x < work0.len()
                                            && (#[trigger] work0[x]).1@.is_prefix_of(p.reverse());
                                    if x == work0.len() - 1 {
                                        let rp = p.reverse();
                                        lemma_chain_rev_steps(gm, p);
                                        assert(work0[x].1@ == path@);
                                        assert(path@ =~= rp.subrange(0, path@.len() as int));
                                        if rp.len() > path@.len() {
                                            assert(rp[path@.len() - 1] == path@[path@.len() - 1]);
                                            assert(gm[rp[path@.len() - 1]].preds@.contains(
                                                rp[path@.len() as int],
                                            ));
                                            assert(false);
                                        }
                                        assert(rp =~= path@);
                                        lemma_reverse_involution(p);
                                        assert(p =~= path@.reverse());
                                        assert(paths@[paths@.len() - 1]@ == p);
                                    } else {
                                        assert(work@[x] == work0[x]);
                                        assert(work@[x].1@.is_prefix_of(p.reverse()));
                                    }
                                }
                            }
                            }
                            if preds_distinct(gm) {
                                // the new path differs from every earlier one, and no
                                // pending item leads into it
                                assert forall|x: int, k: int|
                                    0 <= x < work@.len() && 0 <= k < paths@.len() implies !(
                                #[trigger] work@[x]).1@.is_prefix_of(
                                    (#[trigger] paths@[k])@.reverse(),
                                ) by {
                                    if k == paths@.len() - 1 {
                                        lemma_reverse_involution(path@);
                                        assert(paths@[k]@.reverse() =~= path@);
                                        assert(!work0[x].1@.is_prefix_of(work0[work0.len()
                                            - 1].1@));
                                    }
                                }
                                assert forall|k1: int, k2: int|
                                    0 <= k1 < k2 < paths@.len() implies (#[trigger] paths@[k1])@
                                    != (#[trigger] paths@[k2])@ by {
                                    if k2 == paths@.len() - 1 {
                                        assert(!(work0[work0.len() - 1]).1@.is_prefix_of(
                                            paths0[k1]@.reverse(),
                                        ));
                                        if paths@[k1]@ == paths@[k2]@ {
                                            lemma_reverse_involution(path@);
                                            assert(paths0[k1]@.reverse() =~= path@);
                                            assert(path@.is_prefix_of(path@));
                                        }
                                    }
                                }
                            }
                        }
                    } else if path.len() <= cap {
                        let ghost base = work@;
                        let plen = entry.preds.len();
                        let mut fi: usize = 0;
                        while fi < plen
                            invariant
                                gm == self.m(),
                                gm.contains_key(cur),
                                *entry == gm[cur],
                                plen == entry.preds@.len(),
                                0 <= fi <= plen,
                                rev_partial(gm, path@, target),
                                path@.last() == cur,
                                path@.len() >= 1,
                                work@.len() == base.len() + fi,
                                forall|x: int| 0 <= x < base.len() ==> #[trigger] work@[x] == base[x],
                                forall|j: int|
                                    0 <= j < fi ==> (#[trigger] work@[base.len() + j]).1@
                                        =~= path@.push(entry.preds@[j]) && work@[base.len() + j].0
                                        == entry.preds@[j],
                            decreases plen - fi,
                        {
                            let from = entry.preds[fi];
                            let mut path2 = copied(&path);
                            path2.push(from);
                            work.push((from, path2));
                            fi = fi + 1;
                        }
                        proof {
                            assert(base == work0.drop_last());
                            assert(gm[cur].preds@ == entry.preds@);
                            assert forall|x: int|
                                0 <= x < work0.len() - 1 implies #[trigger] work@[x]
                                == work0[x] by {
                                assert(work@[x] == base[x]);
                                assert(base[x] == work0[x]);
                            }
                            assert forall|x: int|
                                work0.len() - 1 <= x < work@.len() implies (#[trigger] work@[x]).1@
                                == path@.push(gm[cur].preds@[x - (work0.len() - 1)])
                                && work@[x].0 == gm[cur].preds@[x - (work0.len() - 1)] by {
                                let j = x - base.len();
                                assert(work@[base.len() + j].1@ =~= path@.push(entry.preds@[j]));
                                assert(work@[base.len() + j].0 == entry.preds@[j]);
                            }
                            lemma_children_sound(gm, target, cur, path@, work0, work@);
                            if preds_acyclic(gm) {
                                lemma_children_cover(gm, target, cur, path@, work0, work@, paths0);
                            }
                            if preds_distinct(gm) {
                                lemma_children_distinct(gm, cur, path@, work0, work@, paths0);
                            }
                            // the stack swapped the popped node for exactly its
                            // predecessor subtrees, one depth level down
                            let dd = item_depth(cap as nat, path@.len());
                            assert(dd == cap + 1 - path@.len());
                            assert forall|x: int|
                                base.len() <= x < work@.len() implies (#[trigger] work@[x]).0
                                == gm[cur].preds@[x - base.len()] && item_depth(
                                cap as nat,
                                work@[x].1@.len(),
                            ) == (dd - 1) as nat by {
                                assert(work@[x].1@ == path@.push(
                                    gm[cur].preds@[x - (work0.len() - 1)],
                                ));
                                assert(work@[x].1@.len() == path@.len() + 1);
                            }
                            lemma_children_dtw(
                                gm,
                                cur,
                                base,
                                work@,
                                gm[cur].preds@.len() as int,
                                cap as nat,
                                dd,
                            );
                            assert(dtw(gm, cur, dd) == 1 + dpw(
                                gm,
                                cur,
                                gm[cur].preds@.len() as int,
                                dd,
                            ));
                            assert(swt(gm, work@, cap as nat) < swt(gm, work0, cap as nat));
                        }
                    } else {
                        // the partial chain is longer than the table: only a
                        // predecessor cycle can reach here, and the
                        // completeness clause does not speak of such tables
                        proof {
                            if preds_acyclic(gm) {
                                lemma_rev_chain_short(gm, path@, target);
                                assert(false);
                            }
                        }
                    }
                }
            }
        }
        paths
    }
}

/// A partial chain as the reconstruction stack holds it: reversed, from
/// the target backward, each node listing the next one as predecessor.
pub open spec fn rev_partial(m: Map<u64, SeenEntry>, pp: Seq<u64>, target: u64) -> bool {
    &&& pp.len() >= 1
    &&& pp.first() == target
    &&& forall|i: int|
        0 <= i < pp.len() - 1 ==> m.contains_key(#[trigger] pp[i]) && m[pp[i]].preds@.contains(
            pp[i + 1],
        )
}

/// Reversing a finished partial chain yields a complete chain.
proof fn lemma_rev_to_chain(m: Map<u64, SeenEntry>, pp: Seq<u64>, q: Seq<u64>, target: u64, cur: u64)
    requires
        rev_partial(m, pp, target),
        pp.last() == cur,
        m.contains_key(cur),
        m[cur].preds@.len() == 0,
        q.len() == pp.len(),
        forall|i: int| 0 <= i < pp.len() ==> q[i] == pp[pp.len() - 1 - i],
    ensures
        chain_ok(m, q),
        q.last() == target,
{
    assert(q.first() == pp[pp.len() - 1]);
    assert(q.last() == pp[0]);
    assert forall|i: int| 0 < i < q.len() implies m.contains_key(#[trigger] q[i])
        && m[q[i]].preds@.contains(q[i - 1]) by {
        let x = pp.len() - 1 - i;
        assert(q[i] == pp[x]);
        assert(q[i - 1] == pp[x + 1]);
        assert(0 <= x < pp.len() - 1);
    }
}

/// Every node of a complete chain is recorded in the table.
proof fn lemma_chain_elements(m: Map<u64, SeenEntry>, p: Seq<u64>)
    requires
        chain_ok(m, p),
    ensures
        forall|i: int| 0 <= i < p.len() ==> m.contains_key(#[trigger] p[i]),
{
    assert forall|i: int| 0 <= i < p.len() implies m.contains_key(#[trigger] p[i]) by {
        if i == 0 {
            assert(p[0] == p.first());
        }
    }
}

/// Read backward, a complete chain steps from each node to one of its
/// recorded predecessors.
proof fn lemma_chain_rev_steps(m: Map<u64, SeenEntry>, p: Seq<u64>)
    requires
        chain_ok(m, p),
    ensures
        forall|k: int|
            0 <= k < p.len() - 1 ==> m.contains_key(#[trigger] p.reverse()[k])
                && m[p.reverse()[k]].preds@.contains(p.reverse()[k + 1]),
{
    let rp = p.reverse();
    assert forall|k: int|
        0 <= k < p.len() - 1 implies m.contains_key(#[trigger] rp[k]) && m[rp[k]].preds@.contains(
        rp[k + 1],
    ) by {
        let i = p.len() - 1 - k;
        assert(rp[k] == p[i]);
        assert(rp[k + 1] == p[i - 1]);
        assert(0 < i < p.len());
    }
}

/// Reversing twice gives the sequence back.
proof fn lemma_reverse_involution(p: Seq<u64>)
    ensures
        p.reverse().reverse() =~= p,
{
    assert(p.reverse().reverse() =~= p);
}

/// After a finished node's predecessors are pushed, every pending item
/// is still a sound partial chain.
proof fn lemma_children_sound(
    m: Map<u64, SeenEntry>,
    target: u64,
    cur: u64,
    path: Seq<u64>,
    work0: Seq<(u64, Vec<u64>)>,
    work: Seq<(u64, Vec<u64>)>,
)
    requires
        m.contains_key(cur),
        m[cur].preds@.len() >= 1,
        rev_partial(m, path, target),
        path.len() >= 1,
        path.last() == cur,
        work0.len() >= 1,
        work0.last().1@ == path,
        work.len() == work0.len() - 1 + m[cur].preds@.len(),
        forall|x: int| 0 <= x < work0.len() - 1 ==> #[trigger] work[x] == work0[x],
        forall|x: int|
            work0.len() - 1 <= x < work.len() ==> (#[trigger] work[x]).1@ == path.push(
                m[cur].preds@[x - (work0.len() - 1)],
            ) && work[x].0 == m[cur].preds@[x - (work0.len() - 1)],
        forall|x: int|
            0 <= x < work0.len() ==> rev_partial(m, (#[trigger] work0[x]).1@, target)
                && work0[x].1@.last() == work0[x].0,
    ensures
        forall|x: int|
            0 <= x < work.len() ==> rev_partial(m, (#[trigger] work[x]).1@, target)
                && work[x].1@.last() == work[x].0,
{
    let pl = path.len() as int;
    assert forall|x: int|
        0 <= x < work.len() implies rev_partial(m, (#[trigger] work[x]).1@, target)
        && work[x].1@.last() == work[x].0 by {
        if x < work0.len() - 1 {
            assert(work[x] == work0[x]);
        } else {
            let j = x - (work0.len() - 1);
            let child = path.push(m[cur].preds@[j]);
            assert(work[x].1@ == child);
            assert(child.first() == path.first());
            assert(child.last() == m[cur].preds@[j]);
            assert forall|i: int|
                0 <= i < child.len() - 1 implies m.contains_key(#[trigger] child[i])
                && m[child[i]].preds@.contains(child[i + 1]) by {
                if i < pl - 1 {
                    assert(child[i] == path[i]);
                    assert(child[i + 1] == path[i + 1]);
                } else {
                    assert(i == pl - 1);
                    assert(child[i] == path.last());
                    assert(child[i + 1] == m[cur].preds@[j]);
                }
            }
        }
    }
}

/// After a finished node's predecessors are pushed, every complete
/// chain stays covered by the emitted paths or by some pending item.
proof fn lemma_children_cover(
    m: Map<u64, SeenEntry>,
    target: u64,
    cur: u64,
    path: Seq<u64>,
    work0: Seq<(u64, Vec<u64>)>,
    work: Seq<(u64, Vec<u64>)>,
    paths0: Seq<Vec<u64>>,
)
    requires
        m.contains_key(cur),
        m[cur].preds@.len() >= 1,
        rev_partial(m, path, target),
        path.len() >= 1,
        path.last() == cur,
        work0.len() >= 1,
        work0.last().1@ == path,
        work.len() == work0.len() - 1 + m[cur].preds@.len(),
        forall|x: int| 0 <= x < work0.len() - 1 ==> #[trigger] work[x] == work0[x],
        forall|x: int|
            work0.len() - 1 <= x < work.len() ==> (#[trigger] work[x]).1@ == path.push(
                m[cur].preds@[x - (work0.len() - 1)],
            ) && work[x].0 == m[cur].preds@[x - (work0.len() - 1)],
        forall|p: Seq<u64>|
            #[trigger] chain_ok(m, p) && p.last() == target ==> (exists|k: int|
                0 <= k < paths0.len() && (#[trigger] paths0[k])@ == p) || (exists|x: int|
                0 <= x < work0.len() && (#[trigger] work0[x]).1@.is_prefix_of(p.reverse())),
    ensures
        forall|p: Seq<u64>|
            #[trigger] chain_ok(m, p) && p.last() == target ==> (exists|k: int|
                0 <= k < paths0.len() && (#[trigger] paths0[k])@ == p) || (exists|x: int|
                0 <= x < work.len() && (#[trigger] work[x]).1@.is_prefix_of(p.reverse())),
{
    let pl = path.len() as int;
    assert forall|p: Seq<u64>|
        #[trigger] chain_ok(m, p) && p.last() == target implies (exists|k: int|
        0 <= k < paths0.len() && (#[trigger] paths0[k])@ == p) || (exists|x: int|
        0 <= x < work.len() && (#[trigger] work[x]).1@.is_prefix_of(p.reverse())) by {
        if !(exists|k: int| 0 <= k < paths0.len() && (#[trigger] paths0[k])@ == p) {
            let x0 = choose|x0: int|
                0 <= x0 < work0.len() && (#[trigger] work0[x0]).1@.is_prefix_of(p.reverse());
            if x0 < work0.len() - 1 {
                assert(work[x0] == work0[x0]);
                assert(work[x0].1@.is_prefix_of(p.reverse()));
            } else {
                let rp = p.reverse();
                assert(work0[x0].1@ == path);
                assert(path.is_prefix_of(rp));
                assert(path =~= rp.subrange(0, pl));
                lemma_chain_rev_steps(m, p);
                if rp.len() == pl {
                    assert(rp =~= path);
                    assert(p.first() == rp[rp.len() - 1]);
                    assert(p.first() == path.last());
                    assert(m[p.first()].preds@.len() == 0);
                    assert(false);
                }
                assert(rp.len() > pl);
                assert(rp[pl - 1] == path[pl - 1]);
                assert(rp[pl - 1] == cur);
                assert(m[cur].preds@.contains(rp[pl]));
                let j = choose|i: int|
                    0 <= i < m[cur].preds@.len() && m[cur].preds@[i] == rp[pl];
                let x = work0.len() - 1 + j;
                let child = path.push(m[cur].preds@[j]);
                assert(work[x].1@ == child);
                assert(child.len() == pl + 1 <= rp.len());
                assert(child =~= rp.subrange(0, pl + 1)) by {
                    assert forall|i: int| 0 <= i < pl + 1 implies child[i] == rp[i] by {
                        if i < pl {
                            assert(child[i] == path[i]);
                            assert(path[i] == rp[i]);
                        } else {
                            assert(child[i] == m[cur].preds@[j]);
                        }
                    }
                }
                assert(child.is_prefix_of(rp));
                assert(work[x].1@.is_prefix_of(p.reverse()));
            }
        }
    }
}

/// Pushing a node's first `j` predecessor subtrees, one depth level
/// down, adds exactly their summed truncated weights to the stack.
proof fn lemma_children_dtw(
    m: Map<u64, SeenEntry>,
    cur: u64,
    base: Seq<(u64, Vec<u64>)>,
    work: Seq<(u64, Vec<u64>)>,
    j: int,
    cap: nat,
    d: nat,
)
    requires
        m.contains_key(cur),
        0 <= j <= m[cur].preds@.len(),
        d >= 1,
        work.len() == base.len() + j,
        forall|x: int| 0 <= x < base.len() ==> #[trigger] work[x] == base[x],
        forall|x: int|
            base.len() <= x < work.len() ==> (#[trigger] work[x]).0 == m[cur].preds@[x
                - base.len()] && item_depth(cap, work[x].1@.len()) == (d - 1) as nat,
    ensures
        swt(m, work, cap) == swt(m, base, cap) + dpw(m, cur, j, d),
    decreases j,
{
    if j <= 0 {
        assert(work =~= base);
    } else {
        assert forall|x: int|
            0 <= x < base.len() implies #[trigger] work.drop_last()[x] == base[x] by {
            assert(work.drop_last()[x] == work[x]);
        }
        assert forall|x: int|
            base.len() <= x < work.drop_last().len() implies (#[trigger] work.drop_last()[x]).0
            == m[cur].preds@[x - base.len()] && item_depth(
            cap,
            work.drop_last()[x].1@.len(),
        ) == (d - 1) as nat by {
            assert(work.drop_last()[x] == work[x]);
        }
        lemma_children_dtw(m, cur, base, work.drop_last(), j - 1, cap, d);
        assert(work.last() == work[base.len() + (j - 1)]);
        assert(work.last().0 == m[cur].preds@[j - 1]);
        assert(item_depth(cap, work.last().1@.len()) == (d - 1) as nat);
        assert(dpw(m, cur, j, d) == dpw(m, cur, j - 1, d) + dtw(
            m,
            m[cur].preds@[j - 1],
            (d - 1) as nat,
        ));
        assert(swt(m, work, cap) == swt(m, work.drop_last(), cap) + dtw(
            m,
            work.last().0,
            item_depth(cap, work.last().1@.len()),
        ));
    }
}

/// Pushing a node's pairwise-distinct predecessors keeps every pending
/// partial chain on its own branch: none is a prefix of another, and
/// none leads into an already-emitted path.
proof fn lemma_children_distinct(
    m: Map<u64, SeenEntry>,
    cur: u64,
    path: Seq<u64>,
    work0: Seq<(u64, Vec<u64>)>,
    work: Seq<(u64, Vec<u64>)>,
    paths0: Seq<Vec<u64>>,
)
    requires
        preds_distinct(m),
        m.contains_key(cur),
        path.len() >= 1,
        work0.len() >= 1,
        work0.last().1@ == path,
        work.len() == work0.len() - 1 + m[cur].preds@.len(),
        forall|x: int| 0 <= x < work0.len() - 1 ==> #[trigger] work[x] == work0[x],
        forall|x: int|
            work0.len() - 1 <= x < work.len() ==> (#[trigger] work[x]).1@ == path.push(
                m[cur].preds@[x - (work0.len() - 1)],
            ),
        forall|x1: int, x2: int|
            0 <= x1 < x2 < work0.len() ==> !(#[trigger] work0[x1]).1@.is_prefix_of(
                work0[x2].1@,
            ) && !(#[trigger] work0[x2]).1@.is_prefix_of(work0[x1].1@),
        forall|x: int, k: int|
            0 <= x < work0.len() && 0 <= k < paths0.len() ==> !(
            #[trigger] work0[x]).1@.is_prefix_of((#[trigger] paths0[k])@.reverse()),
    ensures
        forall|x1: int, x2: int|
            0 <= x1 < x2 < work.len() ==> !(#[trigger] work[x1]).1@.is_prefix_of(work[x2].1@)
                && !(#[trigger] work[x2]).1@.is_prefix_of(work[x1].1@),
        forall|x: int, k: int|
            0 <= x < work.len() && 0 <= k < paths0.len() ==> !(#[trigger] work[x]).1@.is_prefix_of(
                (#[trigger] paths0[k])@.reverse(),
            ),
{
    let pl = path.len() as int;
    let bl = work0.len() - 1;
    assert forall|x1: int, x2: int|
        0 <= x1 < x2 < work.len() implies !(#[trigger] work[x1]).1@.is_prefix_of(work[x2].1@)
        && !(#[trigger] work[x2]).1@.is_prefix_of(work[x1].1@) by {
        if x2 < bl {
            assert(work[x1] == work0[x1]);
            assert(work[x2] == work0[x2]);
        } else {
            let j2 = x2 - bl;
            let c2 = path.push(m[cur].preds@[j2]);
            assert(work[x2].1@ == c2);
            if x1 < bl {
                let q = work0[x1].1@;
                assert(work[x1].1@ == q);
                assert(!q.is_prefix_of(path));
                assert(!path.is_prefix_of(q));
                if q.is_prefix_of(c2) {
                    if q.len() <= pl {
                        assert(q =~= c2.subrange(0, q.len() as int));
                        assert forall|i: int| 0 <= i < q.len() implies q[i] == path[i] by {
                            assert(q[i] == c2[i]);
                            assert(c2[i] == path[i]);
                        }
                        assert(q =~= path.subrange(0, q.len() as int));
                        assert(q.is_prefix_of(path));
                        assert(false);
                    } else {
                        assert(q.len() == pl + 1);
                        assert(q =~= c2);
                        assert forall|i: int| 0 <= i < pl implies path[i] == q[i] by {
                            assert(q[i] == c2[i]);
                        }
                        assert(path =~= q.subrange(0, pl));
                        assert(path.is_prefix_of(q));
                        assert(false);
                    }
                }
                if c2.is_prefix_of(q) {
                    assert(c2 =~= q.subrange(0, pl + 1));
                    assert forall|i: int| 0 <= i < pl implies path[i] == q[i] by {
                        assert(c2[i] == q[i]);
                        assert(c2[i] == path[i]);
                    }
                    assert(path =~= q.subrange(0, pl));
                    assert(path.is_prefix_of(q));
                    assert(false);
                }
            } else {
                let j1 = x1 - bl;
                let c1 = path.push(m[cur].preds@[j1]);
                assert(work[x1].1@ == c1);
                assert(m[cur].preds@[j1] != m[cur].preds@[j2]);
                assert(c1[pl] != c2[pl]);
                if c1.is_prefix_of(c2) {
                    assert(c1 =~= c2.subrange(0, pl + 1));
                    assert(c2.subrange(0, pl + 1) =~= c2);
                    assert(c1[pl] == c2[pl]);
                    assert(false);
                }
                if c2.is_prefix_of(c1) {
                    assert(c2 =~= c1.subrange(0, pl + 1));
                    assert(c1.subrange(0, pl + 1) =~= c1);
                    assert(c1[pl] == c2[pl]);
                    assert(false);
                }
            }
        }
    }
    assert forall|x: int, k: int|
        0 <= x < work.len() && 0 <= k < paths0.len() implies !(
    #[trigger] work[x]).1@.is_prefix_of((#[trigger] paths0[k])@.reverse()) by {
        if x < bl {
            assert(work[x] == work0[x]);
        } else {
            let j = x - bl;
            let c = path.push(m[cur].preds@[j]);
            assert(work[x].1@ == c);
            let rq = paths0[k]@.reverse();
            assert(!(work0[work0.len() - 1]).1@.is_prefix_of(rq));
            assert(!path.is_prefix_of(rq));
            if c.is_prefix_of(rq) {
                assert(c =~= rq.subrange(0, pl + 1));
                assert forall|i: int| 0 <= i < pl implies path[i] == rq[i] by {
                    assert(c[i] == rq[i]);
                    assert(c[i] == path[i]);
                }
                assert(path =~= rq.subrange(0, pl));
                assert(path.is_prefix_of(rq));
                assert(false);
            }
        }
    }
}

/// Every complete predecessor chain of a well-formed seen table is a
/// real path of the graph, from the start node to the chain's end, with
/// total cost exactly the end node's recorded best cost.
pub proof fn lemma_chain_connects<G: Neighbors>(
    g: &G,
    start: u64,
    m: Map<u64, SeenEntry>,
    cur: int,
    p: Seq<u64>,
)
    requires
        seen_ok(g, start, m, cur),
        chain_ok(m, p),
        m[p.last()].cost < u64::MAX,
    ensures
        connects(g, p, start, p.last(), m[p.last()].cost as int),
        p.first() == start,
    decreases p.len(),
{
    if p.len() == 1 {
        assert(p.first() == p.last());
        assert(p.first() == start);
        assert(m[start].cost == 0);
        assert(path_ok(g, p, 0));
    } else {
        let t = p.last();
        let pr = p[p.len() - 2];
        let q = p.drop_last();
        assert(m[t].preds@.contains(pr)) by {
            assert(m.contains_key(p[p.len() - 1]) && m[p[p.len() - 1]].preds@.contains(
                p[p.len() - 2],
            ));
        }
        let j = choose|j: int| 0 <= j < m[t].preds@.len() && m[t].preds@[j] == pr;
        assert(pred_ok(g, start, m, t, m[t].preds@[j], cur));
        assert(pred_ok(g, start, m, t, pr, cur));
        let w = choose|w: u64| #[trigger] has_edge(g, pr, t, w) && m[pr].cost + w == m[t].cost;
        assert(chain_ok(m, q)) by {
            assert(q.first() == p.first());
            assert forall|i: int| 0 < i < q.len() implies m.contains_key(#[trigger] q[i])
                && m[q[i]].preds@.contains(q[i - 1]) by {
                assert(q[i] == p[i]);
                assert(q[i - 1] == p[i - 1]);
            }
        }
        assert(q.last() == pr);
        lemma_chain_connects(g, start, m, cur, q);
        lemma_path_extend(g, q, start, pr, m[pr].cost as int, t, w);
        assert(q.push(t) =~= p);
    }
}

/// A recorded predecessor `p` of node `n`: `p` is itself recorded, at a
/// cost no later than the search has reached, it is the start node or
/// has predecessors of its own, and some edge from `p` to `n` accounts
/// exactly for `n`'s recorded cost.
pub open spec fn pred_ok<G: Neighbors>(
    g: &G,
    start: u64,
    m: Map<u64, SeenEntry>,
    n: u64,
    p: u64,
    cur: int,
) -> bool {
    &&& m.contains_key(p)
    &&& m[p].cost <= cur
    &&& m[p].cost < u64::MAX
    &&& (p == start || m[p].preds@.len() > 0)
    &&& exists|w: u64| #[trigger] has_edge(g, p, n, w) && m[p].cost + w == m[n].cost
}

/// Well-formedness of the seen table during a traversal whose current
/// bucket cost is `cur`.
pub open spec fn seen_ok<G: Neighbors>(g: &G, start: u64, m: Map<u64, SeenEntry>, cur: int) -> bool {
    &&& m.contains_key(start)
    &&& m[start].cost == 0
    &&& forall|n: u64, j: int|
        m.contains_key(n) && 0 <= j < m[n].preds@.len() ==> pred_ok(
            g,
            start,
            m,
            n,
            #[trigger] m[n].preds@[j],
            cur,
        )
    &&& forall|n: u64|
        #[trigger] m.contains_key(n) && m[n].preds@.len() == 0 && m[n].cost < u64::MAX ==> n
            == start
}

/// The total number of items over a sequence of buckets.
pub open spec fn count_items(s: Seq<Bucket>) -> nat
    decreases s.len(),
{
    if s.len() == 0 {
        0
    } else {
        count_items(s.drop_last()) + s.last().items@.len()
    }
}

proof fn lemma_count_insert(s: Seq<Bucket>, i: int, b: Bucket)
    requires
        0 <= i <= s.len(),
    ensures
        count_items(s.insert(i, b)) == count_items(s) + b.items@.len(),
    decreases s.len(),
{
    let s2 = s.insert(i, b);
    if i == s.len() {
        assert(s2.drop_last() =~= s);
        assert(s2.last() == b);
    } else {
        assert(s2.drop_last() =~= s.drop_last().insert(i, b));
        assert(s2.last() == s.last());
        lemma_count_insert(s.drop_last(), i, b);
    }
}

proof fn lemma_count_remove(s: Seq<Bucket>, i: int)
    requires
        0 <= i < s.len(),
    ensures
        count_items(s.remove(i)) + s[i].items@.len() == count_items(s),
{
    let s2 = s.remove(i);
    assert(s2.insert(i, s[i]) =~= s);
    lemma_count_insert(s2, i, s[i]);
}

/// The cost a node contributes to the termination measure: its
/// recorded best cost, or the sentinel when it has no record yet.
pub open spec fn cost_of(m: Map<u64, SeenEntry>, n: u64) -> nat {
    if m.contains_key(n) {
        m[n].cost as nat
    } else {
        u64::MAX as nat
    }
}

/// The sum of `cost_of` over all nodes below `k`.  Together with the
/// frontier's entry count this sum strictly shrinks with every bucket
/// the traversal consumes, which is what bounds the search.
pub open spec fn sum_costs(m: Map<u64, SeenEntry>, k: nat) -> nat
    decreases k,
{
    if k == 0 {
        0
    } else {
        sum_costs(m, (k - 1) as nat) + cost_of(m, ((k - 1) as nat) as u64)
    }
}

proof fn lemma_sum_update(m1: Map<u64, SeenEntry>, m2: Map<u64, SeenEntry>, to: u64, k: nat)
    requires
        forall|n: u64| n != to ==> #[trigger] cost_of(m2, n) == cost_of(m1, n),
        k <= u64::MAX as nat + 1,
    ensures
        (to as nat) < k ==> sum_costs(m2, k) + cost_of(m1, to) == sum_costs(m1, k) + cost_of(
            m2,
            to,
        ),
        (to as nat) >= k ==> sum_costs(m2, k) == sum_costs(m1, k),
    decreases k,
{
    if k > 0 {
        lemma_sum_update(m1, m2, to, (k - 1) as nat);
        let key = ((k - 1) as nat) as u64;
        if key != to {
            assert(cost_of(m2, key) == cost_of(m1, key));
        }
    }
}

/// The clamped node bound the termination measure sums over.
pub open spec fn clamped_bound<G: Neighbors>(g: &G) -> nat {
    if g.size_bound() > u64::MAX as nat + 1 {
        u64::MAX as nat + 1
    } else {
        g.size_bound()
    }
}

/// The flag the frontier carries for a node: the start node enters the
/// frontier unflagged; every other node carries its real target flag.
pub open spec fn flag_of<G: Neighbors>(g: &G, start: u64, n: u64) -> bool {
    if n == start {
        false
    } else {
        g.is_target(n)
    }
}

/// The best cost recorded for `to`, with the sentinel for a missing record.
pub open spec fn recorded_cost(m: Map<u64, SeenEntry>, to: u64) -> u64 {
    if m.contains_key(to) {
        m[to].cost
    } else {
        u64::MAX
    }
}

/// How one relaxation step changes the seen table (the postcondition of
/// `SeenTable::is_cheaper` as a relation between the two table states).
pub open spec fn relax_delta(
    m1: Map<u64, SeenEntry>,
    m2: Map<u64, SeenEntry>,
    from: u64,
    to: u64,
    cand: u64,
) -> bool {
    let oc = recorded_cost(m1, to);
    let op = if m1.contains_key(to) {
        m1[to].preds@
    } else {
        Seq::<u64>::empty()
    };
    &&& m2.dom() =~= m1.dom().insert(to)
    &&& forall|k: u64| k != to && m1.contains_key(k) ==> #[trigger] m2[k] == m1[k]
    &&& m2[to].cost == (if cand < oc {
        cand
    } else {
        oc
    })
    &&& m2[to].preds@ =~= (if cand < oc {
        seq![from]
    } else if cand == oc {
        op.push(from)
    } else {
        op
    })
}

/// How `Frontier::insert` changes the frontier, as a relation.
pub open spec fn fr_insert_delta(fr1: Frontier, fr2: Frontier, c: u64, n: u64, t: bool) -> bool {
    &&& fr2.wf()
    &&& forall|c2: u64, n2: u64, t2: bool|
        #[trigger] fr2.has(c2, n2, t2) <==> (fr1.has(c2, n2, t2) || (c2 == c && n2 == n && t2 == t))
    &&& forall|b: int| fr1.all_at_least(b) && c >= b ==> fr2.all_at_least(b)
    &&& fr2.count() <= fr1.count() + 1
}

/// Edge `j` out of `n` needs no further relaxation: its candidate cost
/// would overflow, or its endpoint already has a cost at least as good.
pub open spec fn relaxed_at<G: Neighbors>(g: &G, m: Map<u64, SeenEntry>, n: u64, j: int) -> bool {
    let w = g.edges(n)[j].0;
    let to = g.edges(n)[j].1;
    ||| m[n].cost + w > u64::MAX
    ||| (m.contains_key(to) && m[to].cost <= m[n].cost + w)
}

/// Every edge out of `n` has been relaxed.
pub open spec fn relaxed<G: Neighbors>(g: &G, m: Map<u64, SeenEntry>, n: u64) -> bool {
    forall|j: int| 0 <= j < g.edges(n).len() ==> #[trigger] relaxed_at(g, m, n, j)
}

/// Every expanded node is settled no later than the current bucket and
/// has all of its outgoing edges relaxed.
pub open spec fn expanded_ok<G: Neighbors>(
    g: &G,
    m: Map<u64, SeenEntry>,
    ex: Set<u64>,
    cur: int,
) -> bool {
    forall|n: u64|
        #[trigger] ex.contains(n) ==> m.contains_key(n) && m[n].cost <= cur && m[n].cost
            < u64::MAX && relaxed(g, m, n)
}

/// Well-formedness of the frontier relative to the seen table.
pub open spec fn frontier_ok<G: Neighbors>(
    g: &G,
    start: u64,
    m: Map<u64, SeenEntry>,
    fr: Frontier,
    cur: int,
) -> bool {
    &&& fr.wf()
    &&& fr.all_at_least(cur)
    &&& forall|c: u64, n: u64, t: bool|
        #[trigger] fr.has(c, n, t) ==> m.contains_key(n) && m[n].cost <= c && m[n].cost
            < u64::MAX && t == flag_of(g, start, n) && (n as nat) < g.size_bound()
}

/// Every settled node is expanded, still waiting in the frontier at its
/// recorded cost, or among the not-yet-processed items of the current
/// bucket (`items` from position `kk` on, all popped at cost `cost`).
pub open spec fn pending_ok<G: Neighbors>(
    g: &G,
    start: u64,
    m: Map<u64, SeenEntry>,
    fr: Frontier,
    ex: Set<u64>,
    items: Seq<(u64, bool)>,
    kk: int,
) -> bool {
    forall|n: u64|
        #[trigger] m.contains_key(n) && m[n].cost < u64::MAX ==> ex.contains(n) || fr.has(
            m[n].cost,
            n,
            flag_of(g, start, n),
        ) || (exists|x: int| kk <= x < items.len() && #[trigger] items[x] == (n, flag_of(g, start, n)))
}

/// Every settled node carries a witness: an actual start-to-node path
/// of exactly its recorded cost.
pub open spec fn witness_ok<G: Neighbors>(
    g: &G,
    start: u64,
    m: Map<u64, SeenEntry>,
    wit: Map<u64, Seq<u64>>,
) -> bool {
    forall|n: u64|
        #[trigger] m.contains_key(n) && m[n].cost < u64::MAX ==> wit.contains_key(n) && connects(
            g,
            wit[n],
            start,
            n,
            m[n].cost as int,
        )
}

/// What holds of one recorded report: only settled nodes are ever
/// reported, so the cost is exactly the node's minimal path cost.
pub open spec fn target_rec_ok<G: Neighbors>(
    g: &G,
    start: u64,
    m: Map<u64, SeenEntry>,
    ts: Seq<(u64, u64)>,
    i: int,
    cur: int,
) -> bool {
    &&& ts[i].0 <= cur
    &&& g.is_target(ts[i].1)
    &&& ts[i].1 != start
    &&& m.contains_key(ts[i].1)
    &&& m[ts[i].1].cost == ts[i].0
    &&& m[ts[i].1].cost < u64::MAX
    &&& no_path_below(g, start, ts[i].1, ts[i].0 as int)
}

/// What holds of the report list as a whole: cost order, per-report
/// exactness, and no node reported twice.
pub open spec fn targets_ok<G: Neighbors>(
    g: &G,
    start: u64,
    m: Map<u64, SeenEntry>,
    ts: Seq<(u64, u64)>,
    cur: int,
) -> bool {
    &&& forall|i: int, j: int|
        0 <= i < j < ts.len() ==> (#[trigger] ts[i]).0 <= (#[trigger] ts[j]).0
    &&& forall|i: int, j: int|
        0 <= i < j < ts.len() ==> (#[trigger] ts[i]).1 != (#[trigger] ts[j]).1
    &&& forall|i: int| 0 <= i < ts.len() ==> #[trigger] target_rec_ok(g, start, m, ts, i, cur)
}

/// Every expanded target (other than the start node) has been reported.
pub open spec fn reported_ok<G: Neighbors>(
    g: &G,
    start: u64,
    ex: Set<u64>,
    ts: Seq<(u64, u64)>,
) -> bool {
    forall|n: u64|
        #[trigger] ex.contains(n) && g.is_target(n) && n != start ==> exists|i: int|
            0 <= i < ts.len() && (#[trigger] ts[i]).1 == n
}

/// In single-result mode, as long as no target was found, nothing has
/// been reported and no expanded node is a target.
pub open spec fn mode_ok<G: Neighbors>(
    g: &G,
    start: u64,
    ex: Set<u64>,
    ts: Seq<(u64, u64)>,
    stop: bool,
    found: bool,
) -> bool {
    stop && !found ==> ts.len() == 0 && (forall|n: u64|
        #[trigger] ex.contains(n) ==> !g.is_target(n) || n == start)
}

/// Once the stopping bucket has produced a target, every report shares
/// its cost, all of them are fresh, and no cheaper target path exists.
pub open spec fn found_ok<G: Neighbors>(
    g: &G,
    start: u64,
    m: Map<u64, SeenEntry>,
    ts: Seq<(u64, u64)>,
    cur: int,
    stop: bool,
    found: bool,
) -> bool {
    found ==> {
        &&& stop
        &&& ts.len() > 0
        &&& cur == ts[0].0
        &&& forall|i: int|
            0 <= i < ts.len() ==> (#[trigger] ts[i]).0 == ts[0].0 && m.contains_key(ts[i].1)
                && m[ts[i].1].cost == ts[i].0
        &&& no_target_below(g, start, ts[0].0 as int)
    }
}

/// Every collected path list belongs to its report and holds real
/// start-to-target paths of the target's recorded cost.
pub open spec fn paths_ok<G: Neighbors>(
    g: &G,
    start: u64,
    m: Map<u64, SeenEntry>,
    ts: Seq<(u64, u64)>,
    ps: Seq<(u64, Vec<Vec<u64>>)>,
) -> bool {
    &&& ps.len() == ts.len()
    &&& forall|i: int| 0 <= i < ps.len() ==> (#[trigger] ps[i]).0 == ts[i].0
    &&& forall|i: int, k: int|
        0 <= i < ps.len() && 0 <= k < ps[i].1@.len() ==> connects(
            g,
            (#[trigger] ps[i].1@[k])@,
            start,
            ts[i].1,
            m[ts[i].1].cost as int,
        )
}

/// What holds of the items of the current bucket that are still waiting.
pub open spec fn suffix_ok<G: Neighbors>(
    g: &G,
    start: u64,
    m: Map<u64, SeenEntry>,
    ex: Set<u64>,
    items: Seq<(u64, bool)>,
    kk: int,
    cost: u64,
    stop: bool,
) -> bool {
    forall|x: int|
        kk <= x < items.len() ==> {
            let n = (#[trigger] items[x]).0;
            let t = items[x].1;
            &&& m.contains_key(n)
            &&& m[n].cost <= cost
            &&& m[n].cost < u64::MAX
            &&& t == flag_of(g, start, n)
            &&& (n as nat) < g.size_bound()
            &&& (m[n].cost < cost ==> ex.contains(n) && (stop ==> !g.is_target(n) || n == start))
            &&& (m[n].cost == cost ==> !ex.contains(n))
        }
}

/// Every frontier entry left for an expanded node is a stale one: its
/// key lies strictly above the node's settled cost, so an expanded
/// node is never popped fresh a second time.
pub open spec fn ex_fresh_gone(m: Map<u64, SeenEntry>, fr: Frontier, ex: Set<u64>) -> bool {
    forall|n: u64, c: u64, t: bool|
        ex.contains(n) && #[trigger] fr.has(c, n, t) ==> (c as int) > m[n].cost
}

/// No frontier entry for a pending bucket member sits at the bucket's
/// own key: that bucket was consumed, and relaxation can only better
/// a cost that is still above the bucket.
pub open spec fn items_keyed_above(
    fr: Frontier,
    items: Seq<(u64, bool)>,
    kk: int,
    cost: u64,
) -> bool {
    forall|x: int, c: u64, t: bool|
        kk <= x < items.len() && #[trigger] fr.has(c, (#[trigger] items[x]).0, t) ==> c > cost
}

/// No node appears twice in one bucket.
pub open spec fn items_distinct(items: Seq<(u64, bool)>) -> bool {
    forall|a: int, b: int| 0 <= a < b < items.len() ==> (#[trigger] items[a]) != (#[trigger] items[b])
}

/// The whole invariant of the traversal, between buckets (`items` empty
/// suffix) and inside one (`items` from `kk`).
pub open spec fn core_inv<G: Neighbors>(
    g: &G,
    start: u64,
    m: Map<u64, SeenEntry>,
    fr: Frontier,
    ts: Seq<(u64, u64)>,
    ps: Seq<(u64, Vec<Vec<u64>>)>,
    ex: Set<u64>,
    wit: Map<u64, Seq<u64>>,
    cur: int,
    stop: bool,
    collect: bool,
    found: bool,
    items: Seq<(u64, bool)>,
    kk: int,
    cost: u64,
) -> bool {
    &&& seen_ok(g, start, m, cur)
    &&& frontier_ok(g, start, m, fr, cur)
    &&& expanded_ok(g, m, ex, cur)
    &&& pending_ok(g, start, m, fr, ex, items, kk)
    &&& witness_ok(g, start, m, wit)
    &&& reported_ok(g, start, ex, ts)
    &&& targets_ok(g, start, m, ts, cur)
    &&& (collect ==> paths_ok(g, start, m, ts, ps))
    &&& mode_ok(g, start, ex, ts, stop, found)
    &&& found_ok(g, start, m, ts, cur, stop, found)
    &&& suffix_ok(g, start, m, ex, items, kk, cost, stop)
    &&& ex_fresh_gone(m, fr, ex)
    &&& items_keyed_above(fr, items, kk, cost)
    &&& items_distinct(items)
    &&& cur >= 0
}

/// Every node settled strictly below `bound` has been expanded.
proof fn lemma_settled<G: Neighbors>(
    g: &G,
    start: u64,
    m: Map<u64, SeenEntry>,
    fr: Frontier,
    ex: Set<u64>,
    items: Seq<(u64, bool)>,
    kk: int,
    cost: u64,
    stop: bool,
    bound: int,
)
    requires
        pending_ok(g, start, m, fr, ex, items, kk),
        suffix_ok(g, start, m, ex, items, kk, cost, stop),
        fr.all_at_least(bound),
        bound <= cost,
    ensures
        forall|n: u64|
            #[trigger] m.contains_key(n) && m[n].cost < u64::MAX && (m[n].cost as int) < bound
                ==> ex.contains(n),
{
    assert forall|n: u64|
        #[trigger] m.contains_key(n) && m[n].cost < u64::MAX && (m[n].cost as int)
            < bound implies ex.contains(n) by {
        if !ex.contains(n) {
            if fr.has(m[n].cost, n, flag_of(g, start, n)) {
                let i = choose|i: int|
                    0 <= i < fr.buckets@.len() && #[trigger] fr.buckets@[i].cost == m[n].cost
                        && fr.buckets@[i].items@.contains((n, flag_of(g, start, n)));
                assert(fr.buckets@[i].cost >= bound);
            } else {
                let x = choose|x: int|
                    kk <= x < items.len() && #[trigger] items[x] == (n, flag_of(g, start, n));
                assert(m[items[x].0].cost < cost);
            }
        }
    }
}

/// No path from the start can beat the settled costs: any start path
/// cheaper than `bound` ends at a node already settled at most as cheap.
proof fn lemma_cheap_path_settled<G: Neighbors>(
    g: &G,
    start: u64,
    m: Map<u64, SeenEntry>,
    ex: Set<u64>,
    bound: int,
    p: Seq<u64>,
    c: int,
)
    requires
        m.contains_key(start),
        m[start].cost == 0,
        forall|n: u64|
            #[trigger] ex.contains(n) ==> m.contains_key(n) && m[n].cost < u64::MAX && relaxed(
                g,
                m,
                n,
            ),
        forall|n: u64|
            #[trigger] m.contains_key(n) && m[n].cost < u64::MAX && (m[n].cost as int) < bound
                ==> ex.contains(n),
        path_ok(g, p, c),
        p.first() == start,
        c < bound,
        bound <= u64::MAX as int,
    ensures
        m.contains_key(p.last()),
        (m[p.last()].cost as int) <= c,
    decreases p.len(),
{
    if p.len() == 1 {
        assert(p.last() == start);
    } else {
        let v = p[p.len() - 1];
        let u = p[p.len() - 2];
        let w = choose|w: u64|
            #[trigger] has_edge(g, p[p.len() - 2], p[p.len() - 1], w) && path_ok(
                g,
                p.drop_last(),
                c - w,
            );
        let q = p.drop_last();
        assert(q.first() == p.first());
        assert(q.last() == u);
        lemma_cheap_path_settled(g, start, m, ex, bound, q, c - w);
        assert((m[u].cost as int) <= c - w);
        assert(ex.contains(u));
        let j = choose|j: int| 0 <= j < g.edges(u).len() && #[trigger] g.edges(u)[j] == (w, v);
        assert(relaxed_at(g, m, u, j));
        assert(m[u].cost + w <= c);
    }
}

/// Quantified form of `lemma_cheap_path_settled`.
proof fn lemma_no_cheap_paths<G: Neighbors>(
    g: &G,
    start: u64,
    m: Map<u64, SeenEntry>,
    ex: Set<u64>,
    bound: int,
)
    requires
        m.contains_key(start),
        m[start].cost == 0,
        forall|n: u64|
            #[trigger] ex.contains(n) ==> m.contains_key(n) && m[n].cost < u64::MAX && relaxed(
                g,
                m,
                n,
            ),
        forall|n: u64|
            #[trigger] m.contains_key(n) && m[n].cost < u64::MAX && (m[n].cost as int) < bound
                ==> ex.contains(n),
        bound <= u64::MAX as int,
    ensures
        forall|p: Seq<u64>, c: int|
            #[trigger] path_ok(g, p, c) && p.len() >= 1 && p.first() == start && c < bound
                ==> m.contains_key(p.last()) && (m[p.last()].cost as int) <= c,
{
    assert forall|p: Seq<u64>, c: int|
        #[trigger] path_ok(g, p, c) && p.len() >= 1 && p.first() == start && c
            < bound implies m.contains_key(p.last()) && (m[p.last()].cost as int) <= c by {
        lemma_cheap_path_settled(g, start, m, ex, bound, p, c);
    }
}

/// Every minimal-cost path is a complete predecessor chain of the
/// table: under positive weights each proper prefix of a minimal path
/// is strictly cheaper and itself minimal, so its end is expanded and
/// settled, and each closing step is an optimal in-edge, which a
/// table missing no optimal in-edge records.
proof fn lemma_min_path_chain<G: Neighbors>(
    g: &G,
    start: u64,
    m: Map<u64, SeenEntry>,
    ex: Set<u64>,
    p: Seq<u64>,
    c: int,
    bound: int,
)
    requires
        positive_weights(g),
        preds_acyclic(m),
        preds_complete(g, m, ex),
        m.contains_key(start),
        m[start].cost == 0,
        forall|n: u64|
            #[trigger] ex.contains(n) ==> m.contains_key(n) && m[n].cost < u64::MAX && relaxed(
                g,
                m,
                n,
            ),
        forall|n: u64|
            #[trigger] m.contains_key(n) && m[n].cost < u64::MAX && (m[n].cost as int) < bound
                ==> ex.contains(n),
        forall|q: Seq<u64>, cq: int|
            #[trigger] path_ok(g, q, cq) && q.len() >= 1 && q.first() == start && cq < bound
                ==> m.contains_key(q.last()) && (m[q.last()].cost as int) <= cq,
        path_ok(g, p, c),
        p.len() >= 1,
        p.first() == start,
        m.contains_key(p.last()),
        m[p.last()].cost as int == c,
        c <= bound,
        bound <= u64::MAX as int,
    ensures
        chain_ok(m, p),
    decreases p.len(),
{
    if p.len() == 1 {
        assert(p.last() == start);
        assert(m[start].preds@.len() == 0) by {
            if m[start].preds@.len() > 0 {
                assert(m[m[start].preds@[0]].cost < m[start].cost);
            }
        }
    } else {
        let q = p.drop_last();
        let u = p[p.len() - 2];
        let w = choose|w: u64|
            #[trigger] has_edge(g, u, p.last(), w) && path_ok(g, q, c - w);
        let jj = choose|jj: int|
            0 <= jj < g.edges(u).len() && (#[trigger] g.edges(u)[jj]) == (w, p.last());
        assert(g.edges(u)[jj].0 >= 1);
        assert(q.last() == u && q.first() == start && q.len() >= 1);
        // the prefix is strictly cheaper, hence already settled
        assert(m.contains_key(u) && (m[u].cost as int) <= c - w);
        assert(ex.contains(u));
        // u's edges are relaxed, so the endpoint cannot be settled
        // above this sum; minimality gives exactness
        assert(relaxed_at(g, m, u, jj));
        assert((m[u].cost + w) as int <= c);
        assert((m[p.last()].cost as int) <= m[u].cost + w);
        assert(m[u].cost as int == c - w);
        assert(m[u].cost + g.edges(u)[jj].0 == m[g.edges(u)[jj].1].cost);
        assert(m[p.last()].preds@.contains(u));
        lemma_min_path_chain(g, start, m, ex, q, c - w, bound);
        assert(p.first() == q.first());
        assert forall|i: int|
            0 < i < p.len() implies m.contains_key(#[trigger] p[i]) && m[p[i]].preds@.contains(
            p[i - 1],
        ) by {
            if i < p.len() - 1 {
                assert(p[i] == q[i] && p[i - 1] == q[i - 1]);
            } else {
                assert(p[i] == p.last() && p[i - 1] == u);
            }
        }
    }
}

/// One relaxation step keeps the predecessor table acyclic (under
/// positive weights), duplicate-free (under duplicate-free edge
/// lists), and missing no optimal in-edge, and extends the scan
/// bookkeeping by the edge just taken.
proof fn lemma_relax_preds<G: Neighbors>(
    g: &G,
    m1: Map<u64, SeenEntry>,
    m2: Map<u64, SeenEntry>,
    ex: Set<u64>,
    node: u64,
    to: u64,
    w: u64,
    cand: u64,
    cost: u64,
    j: int,
)
    requires
        relax_delta(m1, m2, node, to, cand),
        m1.contains_key(node),
        m1[node].cost == cost,
        !ex.contains(node),
        0 <= j < g.edges(node).len(),
        g.edges(node)[j] == (w, to),
        cost + w == cand,
        forall|n: u64|
            #[trigger] ex.contains(n) ==> m1.contains_key(n) && m1[n].cost <= cost
                && m1[n].cost < u64::MAX && relaxed(g, m1, n),
        preds_complete(g, m1, ex),
        scan_complete(g, m1, node, j),
        positive_weights(g) ==> preds_acyclic(m1),
        no_dup_edges(g) ==> preds_distinct(m1) && preds_mid_scan(g, m1, ex, node, cost, j),
    ensures
        preds_complete(g, m2, ex),
        scan_complete(g, m2, node, j + 1),
        positive_weights(g) ==> preds_acyclic(m2),
        no_dup_edges(g) ==> preds_distinct(m2) && preds_mid_scan(g, m2, ex, node, cost, j + 1),
{
    let oc = recorded_cost(m1, to);
    // expanded nodes are settled at or below the bucket cost, so this
    // relaxation cannot undercut any of them
    assert forall|n: u64| #[trigger] ex.contains(n) implies m2.contains_key(n) && m2[n].cost
        == m1[n].cost by {
        if n == to {
            assert(m1[to].cost <= cand);
        }
    }
    assert(m2[node].cost == cost) by {
        if to == node {
            assert(oc == cost);
        }
    }
    assert forall|u: u64, jj: int|
        ex.contains(u) && 0 <= jj < g.edges(u).len() && m2.contains_key(
            (#[trigger] g.edges(u)[jj]).1,
        ) && m2[u].cost + g.edges(u)[jj].0 == m2[g.edges(u)[jj].1].cost implies m2[g.edges(
        u,
    )[jj].1].preds@.contains(u) by {
        let v = g.edges(u)[jj].1;
        let wv = g.edges(u)[jj].0;
        assert(u != node);
        if v == to {
            if cand < oc {
                // u's edge was already relaxed when u expanded, so the
                // old cost was no more than this sum; a strict
                // improvement past it is impossible
                assert(relaxed_at(g, m1, u, jj));
                assert(m2[to].cost == cand);
                assert(m1[u].cost + wv == cand);
                assert(false);
            } else if cand == oc {
                if m1.contains_key(to) {
                    assert(m1[to].preds@.contains(u));
                    let xx = choose|xx: int|
                        0 <= xx < m1[to].preds@.len() && (#[trigger] m1[to].preds@[xx]) == u;
                    assert(m2[to].preds@[xx] == u);
                } else {
                    assert(relaxed_at(g, m1, u, jj));
                    assert(m1[u].cost + wv == u64::MAX);
                    assert(false);
                }
            } else {
                assert(m2[to].cost == oc && m2[to].preds@ =~= m1[to].preds@);
                assert(m1[to].preds@.contains(u));
            }
        } else {
            assert(m2[v] == m1[v]);
            assert(m1[v].preds@.contains(u));
        }
    }
    assert forall|jj: int|
        0 <= jj < j + 1 && m2.contains_key((#[trigger] g.edges(node)[jj]).1) && m2[node].cost
            + g.edges(node)[jj].0 == m2[g.edges(node)[jj].1].cost implies m2[g.edges(
        node,
    )[jj].1].preds@.contains(node) by {
        let v = g.edges(node)[jj].1;
        let wv = g.edges(node)[jj].0;
        if jj == j {
            assert(v == to && wv == w);
            if cand < oc {
                assert(m2[to].preds@[0] == node);
            } else if cand == oc {
                assert(m2[to].preds@[m2[to].preds@.len() - 1] == node);
            } else {
                assert(m2[to].cost == oc);
                assert(false);
            }
        } else {
            if v == to {
                if cand < oc {
                    assert(m2[to].preds@[0] == node);
                } else if cand == oc {
                    if m1.contains_key(to) {
                        assert(m1[to].preds@.contains(node));
                        let xx = choose|xx: int|
                            0 <= xx < m1[to].preds@.len() && (#[trigger] m1[to].preds@[xx])
                                == node;
                        assert(m2[to].preds@[xx] == node);
                    } else {
                        assert(m2[to].preds@[0] == node);
                    }
                } else {
                    assert(m2[to].cost == oc && m2[to].preds@ =~= m1[to].preds@);
                    assert(m1[to].preds@.contains(node));
                }
            } else {
                assert(m2[v] == m1[v]);
                assert(m1[v].preds@.contains(node));
            }
        }
    }
    if positive_weights(g) && preds_acyclic(m1) {
        assert(g.edges(node)[j].0 >= 1);
        assert(w >= 1);
        assert forall|n: u64, x: int|
            m2.contains_key(n) && 0 <= x < m2[n].preds@.len() implies m2.contains_key(
            #[trigger] m2[n].preds@[x],
        ) && m2[m2[n].preds@[x]].cost < m2[n].cost by {
            let u = m2[n].preds@[x];
            if n == to {
                if cand < oc {
                    assert(u == node);
                    assert(to != node);
                    assert(m2[node] == m1[node]);
                    assert(m2[to].cost == cand);
                } else if cand == oc {
                    assert(to != node);
                    assert(m2[to].cost == oc);
                    if m1.contains_key(to) && x < m1[to].preds@.len() {
                        assert(u == m1[to].preds@[x]);
                        assert(m1.contains_key(u) && m1[u].cost < m1[to].cost);
                        assert(u != to);
                        assert(m2[u] == m1[u]);
                    } else {
                        assert(u == node);
                        assert(m2[node] == m1[node]);
                        assert(m1[node].cost == cost < cand);
                    }
                } else {
                    assert(m1.contains_key(to));
                    assert(m2[to].cost == m1[to].cost);
                    assert(u == m1[to].preds@[x]);
                    assert(m1.contains_key(u) && m1[u].cost < m1[to].cost);
                    assert(u != to);
                    assert(m2[u] == m1[u]);
                }
            } else {
                assert(m1.contains_key(n) && m2[n] == m1[n]);
                assert(u == m1[n].preds@[x]);
                assert(m1.contains_key(u) && m1[u].cost < m1[n].cost);
                if u == to {
                    assert(m2[to].cost <= m1[to].cost);
                } else {
                    assert(m2[u] == m1[u]);
                }
            }
        }
    }
    if no_dup_edges(g) && preds_distinct(m1) && preds_mid_scan(g, m1, ex, node, cost, j) {
        assert forall|n: u64, x1: int, x2: int|
            m2.contains_key(n) && 0 <= x1 < x2 < m2[n].preds@.len() implies (
        #[trigger] m2[n].preds@[x1]) != (#[trigger] m2[n].preds@[x2]) by {
            if n == to {
                if cand < oc {
                } else if cand == oc {
                    if !m1.contains_key(to) {
                        assert(m2[n].preds@.len() == 1);
                    } else if x2 < m1[to].preds@.len() {
                        assert(m1[to].preds@[x1] != m1[to].preds@[x2]);
                    } else {
                        let u = m1[to].preds@[x1];
                        assert(m2[n].preds@[x1] == u);
                        assert(m2[n].preds@[x2] == node);
                        if !ex.contains(u) {
                            assert(u == node);
                            let i = choose|i: int|
                                0 <= i < j && (#[trigger] g.edges(node)[i]).1 == to
                                    && m1[to].cost == cost + g.edges(node)[i].0;
                            assert(cost + g.edges(node)[i].0 == cost + w);
                            assert(g.edges(node)[i] == (w, to));
                            assert(g.edges(node)[j] == (w, to));
                            assert(false);
                        }
                        assert(u != node);
                    }
                } else {
                    assert(m1.contains_key(to));
                    assert(m1[to].preds@[x1] != m1[to].preds@[x2]);
                }
            } else {
                assert(m2[n] == m1[n]);
                assert(m1[n].preds@[x1] != m1[n].preds@[x2]);
            }
        }
        assert forall|n: u64, x: int|
            m2.contains_key(n) && 0 <= x < m2[n].preds@.len() implies ex.contains(
            #[trigger] m2[n].preds@[x],
        ) || (m2[n].preds@[x] == node && exists|i: int|
            0 <= i < j + 1 && (#[trigger] g.edges(node)[i]).1 == n && m2[n].cost == cost
                + g.edges(node)[i].0) by {
            let u = m2[n].preds@[x];
            if n == to {
                if cand < oc {
                    assert(u == node);
                    assert(m2[to].cost == cand);
                    assert(0 <= j < j + 1 && g.edges(node)[j].1 == to && m2[to].cost == cost
                        + g.edges(node)[j].0);
                } else if cand == oc {
                    assert(m2[to].cost == oc);
                    if m1.contains_key(to) && x < m1[to].preds@.len() {
                        assert(u == m1[to].preds@[x]);
                        if !ex.contains(u) {
                            assert(u == node);
                            let i = choose|i: int|
                                0 <= i < j && (#[trigger] g.edges(node)[i]).1 == to
                                    && m1[to].cost == cost + g.edges(node)[i].0;
                            assert(0 <= i < j + 1 && g.edges(node)[i].1 == to && m2[to].cost
                                == cost + g.edges(node)[i].0);
                        }
                    } else {
                        assert(u == node);
                        assert(0 <= j < j + 1 && g.edges(node)[j].1 == to && m2[to].cost == cost
                            + g.edges(node)[j].0);
                    }
                } else {
                    assert(m1.contains_key(to));
                    assert(m2[to].cost == m1[to].cost);
                    assert(u == m1[to].preds@[x]);
                    if !ex.contains(u) {
                        assert(u == node);
                        let i = choose|i: int|
                            0 <= i < j && (#[trigger] g.edges(node)[i]).1 == to && m1[to].cost
                                == cost + g.edges(node)[i].0;
                        assert(0 <= i < j + 1 && g.edges(node)[i].1 == to && m2[to].cost == cost
                            + g.edges(node)[i].0);
                    }
                }
            } else {
                assert(m2[n] == m1[n]);
                assert(u == m1[n].preds@[x]);
                if !ex.contains(u) {
                    assert(u == node);
                    let i = choose|i: int|
                        0 <= i < j && (#[trigger] g.edges(node)[i]).1 == n && m1[n].cost == cost
                            + g.edges(node)[i].0;
                    assert(0 <= i < j + 1 && g.edges(node)[i].1 == n && m2[n].cost == cost
                        + g.edges(node)[i].0);
                }
            }
        }
    }
}

/// One relaxation step preserves the whole traversal invariant and
/// never increases the termination measure; a strict improvement
/// strictly decreases the seen-table part of the measure.
#[verifier::rlimit(100)]
#[verifier::spinoff_prover]
proof fn lemma_relax<G: Neighbors>(
    g: &G,
    start: u64,
    m1: Map<u64, SeenEntry>,
    m2: Map<u64, SeenEntry>,
    fr1: Frontier,
    fr2: Frontier,
    wit1: Map<u64, Seq<u64>>,
    wit2: Map<u64, Seq<u64>>,
    ts: Seq<(u64, u64)>,
    ps: Seq<(u64, Vec<Vec<u64>>)>,
    ex: Set<u64>,
    cur: int,
    from: u64,
    to: u64,
    w: u64,
    cand: u64,
    nt: bool,
    stop: bool,
    collect: bool,
    found: bool,
    items: Seq<(u64, bool)>,
    kk: int,
    cost: u64,
)
    requires
        core_inv(g, start, m1, fr1, ts, ps, ex, wit1, cur, stop, collect, found, items, kk, cost),
        relax_delta(m1, m2, from, to, cand),
        m1.contains_key(from),
        m1[from].cost <= cur,
        m1[from].cost < u64::MAX,
        from == start || m1[from].preds@.len() > 0,
        has_edge(g, from, to, w),
        m1[from].cost + w == cand,
        cand >= cur,
        (to as nat) < g.size_bound(),
        nt == g.is_target(to),
        cur == cost as int,
        cand < recorded_cost(m1, to) ==> fr_insert_delta(fr1, fr2, cand, to, nt) && wit2
            == wit1.insert(to, wit1[from].push(to)),
        !(cand < recorded_cost(m1, to)) ==> fr2 == fr1 && wit2 == wit1,
    ensures
        core_inv(g, start, m2, fr2, ts, ps, ex, wit2, cur, stop, collect, found, items, kk, cost),
        cand < recorded_cost(m1, to) ==> sum_costs(m2, clamped_bound(g)) + 1 <= sum_costs(
            m1,
            clamped_bound(g),
        ),
        !(cand < recorded_cost(m1, to)) ==> sum_costs(m2, clamped_bound(g)) == sum_costs(
            m1,
            clamped_bound(g),
        ),
{
    let oc = recorded_cost(m1, to);
    let less = cand < oc;
    // The start node's record never changes here.
    if less {
        assert(to != start) by {
            if to == start {
                assert(m1[start].cost == 0);
            }
        }
    }
    assert(m2.contains_key(start) && m2[start].cost == 0);
    // Nodes settled at or below the current bucket are frozen: a strict
    // improvement would need a candidate below the bucket cost.
    assert(less ==> (m1.contains_key(to) ==> (m1[to].cost as int) > cur));

    // seen_ok
    assert forall|n: u64, j: int|
        m2.contains_key(n) && 0 <= j < m2[n].preds@.len() implies pred_ok(
        g,
        start,
        m2,
        n,
        #[trigger] m2[n].preds@[j],
        cur,
    ) by {
        let p = m2[n].preds@[j];
        if n != to {
            assert(m2[n] == m1[n]);
            assert(pred_ok(g, start, m1, n, p, cur));
            assert(p != to || !less);
            if p == to {
                assert(m2[to].cost == m1[to].cost);
                assert(m2[to].preds@.len() >= m1[to].preds@.len());
            }
            let we = choose|we: u64| #[trigger] has_edge(g, p, n, we) && m1[p].cost + we == m1[n].cost;
            assert(has_edge(g, p, n, we) && m2[p].cost + we == m2[n].cost);
        } else {
            let op = if m1.contains_key(to) {
                m1[to].preds@
            } else {
                Seq::<u64>::empty()
            };
            if less {
                assert(m2[to].preds@ =~= seq![from]);
                assert(p == from);
                assert(has_edge(g, from, to, w) && m2[from].cost + w == m2[to].cost);
            } else if cand == oc && j >= op.len() {
                assert(p == from);
                if from == to {
                    assert(m2[from].cost == m1[from].cost);
                }
                assert(has_edge(g, from, to, w) && m2[from].cost + w == m2[to].cost);
            } else {
                // the predecessor was already recorded before this step
                assert(op.len() > 0);
                assert(m1.contains_key(to));
                assert(p == m1[to].preds@[j]);
                assert(pred_ok(g, start, m1, to, p, cur));
                let we = choose|we: u64|
                    #[trigger] has_edge(g, p, to, we) && m1[p].cost + we == m1[to].cost;
                assert(m2[to].cost == m1[to].cost);
                if p == to {
                    assert(m2[p].cost == m1[p].cost);
                } else {
                    assert(m2[p] == m1[p]);
                }
                assert(has_edge(g, p, to, we) && m2[p].cost + we == m2[to].cost);
            }
        }
    }
    assert forall|n: u64|
        #[trigger] m2.contains_key(n) && m2[n].preds@.len() == 0 && m2[n].cost
            < u64::MAX implies n == start by {
        if n != to {
            assert(m2[n] == m1[n]);
        } else {
            if less {
                assert(m2[to].preds@.len() == 1);
            } else if cand == oc {
                assert(m2[to].preds@.len() > 0);
            } else {
                if m1.contains_key(to) {
                    assert(m1[to].preds@.len() == 0 && m1[to].cost < u64::MAX);
                } else {
                    assert(m2[to].cost == u64::MAX);
                }
            }
        }
    }
    assert(seen_ok(g, start, m2, cur));

    // frontier_ok
    assert forall|c2: u64, n2: u64, t2: bool| #[trigger]
        fr2.has(c2, n2, t2) implies m2.contains_key(n2) && m2[n2].cost <= c2 && m2[n2].cost
        < u64::MAX && t2 == flag_of(g, start, n2) && (n2 as nat) < g.size_bound() by {
        if less && c2 == cand && n2 == to && t2 == nt {
            assert(m2[to].cost == cand);
        }
        if fr1.has(c2, n2, t2) {
            if n2 == to {
                assert(m1.contains_key(to));
                assert(m2[to].cost <= m1[to].cost);
            } else {
                assert(m2[n2] == m1[n2]);
            }
        }
    }
    assert(fr2.all_at_least(cur));
    assert(fr2.wf()) by {
        if !less {
            assert(fr2 == fr1);
        }
    }
    assert(frontier_ok(g, start, m2, fr2, cur));

    // expanded_ok
    assert forall|n: u64| #[trigger] ex.contains(n) implies m2.contains_key(n) && m2[n].cost
        <= cur && m2[n].cost < u64::MAX && relaxed(g, m2, n) by {
        assert(m1[n].cost <= cur);
        if n == to {
            assert(!less);
            assert(m2[n].cost == m1[n].cost);
        } else {
            assert(m2[n] == m1[n]);
        }
        assert forall|j: int| 0 <= j < g.edges(n).len() implies #[trigger] relaxed_at(
            g,
            m2,
            n,
            j,
        ) by {
            assert(relaxed_at(g, m1, n, j));
            let t2 = g.edges(n)[j].1;
            if t2 == to {
                assert(m2[to].cost <= (if m1.contains_key(to) {
                    m1[to].cost
                } else {
                    u64::MAX
                }));
            } else {
                assert(m2.contains_key(t2) == m1.contains_key(t2));
                if m1.contains_key(t2) {
                    assert(m2[t2] == m1[t2]);
                }
            }
        }
    }

    // pending_ok
    assert forall|n: u64|
        #[trigger] m2.contains_key(n) && m2[n].cost < u64::MAX implies ex.contains(n) || fr2.has(
        m2[n].cost,
        n,
        flag_of(g, start, n),
    ) || (exists|x: int| kk <= x < items.len() && #[trigger] items[x] == (n, flag_of(g, start, n))) by {
        if n == to && less {
            assert(flag_of(g, start, to) == nt);
            assert(fr2.has(cand, to, nt));
        } else if n == to {
            if m1.contains_key(to) && m1[to].cost < u64::MAX {
                assert(m2[to].cost == m1[to].cost);
                if !ex.contains(n) && fr1.has(m1[to].cost, to, flag_of(g, start, to)) {
                    assert(fr2.has(m2[n].cost, n, flag_of(g, start, n)));
                }
            } else {
                assert(m2[to].cost == u64::MAX);
            }
        } else {
            assert(m2[n] == m1[n]);
            if !ex.contains(n) && fr1.has(m1[n].cost, n, flag_of(g, start, n)) {
                assert(fr2.has(m2[n].cost, n, flag_of(g, start, n)));
            }
        }
    }

    // witness_ok
    assert forall|n: u64|
        #[trigger] m2.contains_key(n) && m2[n].cost < u64::MAX implies wit2.contains_key(n)
        && connects(g, wit2[n], start, n, m2[n].cost as int) by {
        if less && n == to {
            lemma_path_extend(g, wit1[from], start, from, m1[from].cost as int, to, w);
            assert(wit2[to] == wit1[from].push(to));
        } else if n == to {
            if m1.contains_key(to) && m1[to].cost < u64::MAX {
                assert(m2[to].cost == m1[to].cost);
                assert(wit2[n] == wit1[n]);
            }
        } else {
            assert(m2[n] == m1[n]);
            if less {
                assert(wit2[n] == wit1[n]);
            }
        }
    }

    // targets_ok, paths_ok, found_ok: every reported node is frozen.
    assert forall|i: int| 0 <= i < ts.len() implies #[trigger] target_rec_ok(
        g,
        start,
        m2,
        ts,
        i,
        cur,
    ) by {
        assert(target_rec_ok(g, start, m1, ts, i, cur));
        let t = ts[i].1;
        if t == to {
            assert(m1[to].cost <= cur);
            assert(!less);
            assert(m2[to].cost == m1[to].cost);
        } else {
            assert(m2[t] == m1[t]);
        }
    }
    assert(targets_ok(g, start, m2, ts, cur));
    if collect {
        assert forall|i: int, k2: int|
            0 <= i < ps.len() && 0 <= k2 < ps[i].1@.len() implies connects(
            g,
            (#[trigger] ps[i].1@[k2])@,
            start,
            ts[i].1,
            m2[ts[i].1].cost as int,
        ) by {
            let t = ts[i].1;
            assert(target_rec_ok(g, start, m1, ts, i, cur));
            if t == to {
                assert(!less);
                assert(m2[to].cost == m1[to].cost);
            } else {
                assert(m2[t] == m1[t]);
            }
        }
        assert(paths_ok(g, start, m2, ts, ps));
    }
    if found {
        assert forall|i: int|
            0 <= i < ts.len() implies (#[trigger] ts[i]).0 == ts[0].0 && m2.contains_key(ts[i].1)
            && m2[ts[i].1].cost == ts[i].0 by {
            let t = ts[i].1;
            assert(m1.contains_key(t) && m1[t].cost == ts[i].0);
            assert(target_rec_ok(g, start, m1, ts, i, cur));
            if t == to {
                assert(!less);
                assert(m2[to].cost == m1[to].cost);
            } else {
                assert(m2[t] == m1[t]);
            }
        }
    }
    assert(found_ok(g, start, m2, ts, cur, stop, found));

    // suffix_ok
    assert forall|x: int| kk <= x < items.len() implies {
        let n = (#[trigger] items[x]).0;
        let t = items[x].1;
        &&& m2.contains_key(n)
        &&& m2[n].cost <= cost
        &&& m2[n].cost < u64::MAX
        &&& t == flag_of(g, start, n)
        &&& (n as nat) < g.size_bound()
        &&& (m2[n].cost < cost ==> ex.contains(n) && (stop ==> !g.is_target(n) || n == start))
    } by {
        let n = items[x].0;
        assert(m1.contains_key(n) && m1[n].cost <= cost);
        if n == to {
            assert(m1[n].cost <= cost <= cur);
            assert(!less);
            assert(m2[n].cost == m1[n].cost);
        } else {
            assert(m2[n] == m1[n]);
        }
    }

    // the stale-entry bookkeeping: an insert happens only for a node
    // dearer than the whole bucket, so expanded and bucket nodes keep
    // their entry keys strictly above their settled costs
    if less {
        assert(!ex.contains(to)) by {
            if ex.contains(to) {
                assert(m1[to].cost <= cur);
            }
        }
    }
    assert forall|n: u64, c: u64, t: bool|
        ex.contains(n) && #[trigger] fr2.has(c, n, t) implies (c as int) > m2[n].cost by {
        if less && c == cand && n == to && t == nt {
            assert(!ex.contains(to));
        } else {
            assert(fr1.has(c, n, t));
            assert((c as int) > m1[n].cost);
            if n == to {
                assert(!less);
                assert(m2[to].cost == m1[to].cost);
            } else {
                assert(m2[n] == m1[n]);
            }
        }
    }
    assert forall|x: int, c: u64, t: bool|
        kk <= x < items.len() && #[trigger] fr2.has(c, (#[trigger] items[x]).0, t) implies c
        > cost by {
        let n = items[x].0;
        if less && c == cand && n == to && t == nt {
            // the bettered node was dearer than the bucket, so it is no member
            assert(m1.contains_key(n) && m1[n].cost <= cost);
            assert((m1[to].cost as int) > cur);
        } else {
            assert(fr1.has(c, n, t));
        }
    }

    // the measure
    assert forall|n: u64| n != to implies #[trigger] cost_of(m2, n) == cost_of(m1, n) by {
        assert(m2.contains_key(n) == m1.contains_key(n));
        if m1.contains_key(n) {
            assert(m2[n] == m1[n]);
        }
    }
    lemma_sum_update(m1, m2, to, clamped_bound(g));
    assert((to as nat) < clamped_bound(g));
    if less {
        assert(cost_of(m2, to) < cost_of(m1, to));
    } else {
        assert(cost_of(m2, to) == cost_of(m1, to));
    }
}

/// Some path from `s` reaches `t` at a total cost of at most `c`.
/// What every report of the traversal satisfies, whatever the mode:
/// costs non-decreasing, no node reported twice, and each entry's cost
/// is exactly its node's minimal path cost, realized by a real path.
pub open spec fn reports_sound<G: Neighbors>(g: &G, start: u64, ts: Seq<(u64, u64)>) -> bool {
    &&& forall|i: int, j: int|
        0 <= i < j < ts.len() ==> (#[trigger] ts[i]).0 <= (#[trigger] ts[j]).0
    &&& forall|i: int, j: int|
        0 <= i < j < ts.len() ==> (#[trigger] ts[i]).1 != (#[trigger] ts[j]).1
    &&& forall|i: int|
        0 <= i < ts.len() ==> g.is_target((#[trigger] ts[i]).1) && ts[i].1 != start && ts[i].0
            < u64::MAX && has_path(g, start, ts[i].1, ts[i].0 as int) && no_path_below(
            g,
            start,
            ts[i].1,
            ts[i].0 as int,
        )
}

/// The whole all-targets contract: a sound, exact report list that
/// holds every reachable target exactly once.
pub open spec fn all_targets_report<G: Neighbors>(
    g: &G,
    start: u64,
    ts: Seq<(u64, u64)>,
) -> bool {
    &&& reports_sound(g, start, ts)
    &&& forall|t: u64, c: int|
        g.is_target(t) && t != start && 0 <= c < u64::MAX as int && #[trigger] has_path(
            g,
            start,
            t,
            c,
        ) ==> exists|i: int| 0 <= i < ts.len() && (#[trigger] ts[i]).1 == t
}

/// The path lists `ps` belong, entry by entry, to the report list
/// `ts`: same length, same costs, and every stored path leads from the
/// start to that entry's target at exactly the reported cost.
pub open spec fn paths_report_for<G: Neighbors>(
    g: &G,
    start: u64,
    ts: Seq<(u64, u64)>,
    ps: Seq<(u64, Vec<Vec<u64>>)>,
) -> bool {
    &&& ps.len() == ts.len()
    &&& forall|i: int| 0 <= i < ps.len() ==> (#[trigger] ps[i]).0 == ts[i].0
    &&& forall|i: int, k: int|
        0 <= i < ps.len() && 0 <= k < ps[i].1@.len() ==> connects(
            g,
            (#[trigger] ps[i].1@[k])@,
            start,
            ts[i].1,
            ts[i].0 as int,
        )
}

/// What the traversal core guarantees about its report list `ts` and,
/// when path collection is on, its path lists `ps`.
pub open spec fn core_post<G: Neighbors>(
    g: &G,
    start: u64,
    stop: bool,
    collect: bool,
    ts: Seq<(u64, u64)>,
    ps: Seq<(u64, Vec<Vec<u64>>)>,
) -> bool {
    &&& reports_sound(g, start, ts)
    &&& (!stop ==> forall|t: u64, c: int|
        g.is_target(t) && t != start && 0 <= c < u64::MAX as int && #[trigger] has_path(
            g,
            start,
            t,
            c,
        ) ==> exists|i: int| 0 <= i < ts.len() && (#[trigger] ts[i]).1 == t)
    &&& (stop ==> {
        &&& forall|i: int| 0 <= i < ts.len() ==> (#[trigger] ts[i]).0 == ts[0].0
        &&& (ts.len() > 0 ==> no_target_below(g, start, ts[0].0 as int))
        &&& (ts.len() == 0 ==> forall|t: u64, c: int|
            g.is_target(t) && t != start && 0 <= c < u64::MAX as int ==> !(#[trigger] has_path(
                g,
                start,
                t,
                c,
            )))
    })
    &&& (collect ==> paths_report_for(g, start, ts, ps))
    &&& (!collect ==> ps.len() == 0)
}

impl Dijkstra {
    /// The shared traversal: bucket-relaxation Dijkstra over the
    /// implicit graph.  Pops cost buckets in order, reports every
    /// popped node whose frontier entry is flagged as a target, and in
    /// `stop_on_first` mode ends the search once the bucket holding
    /// the first such report is finished.  With `collect_paths` every
    /// report carries the tied minimal-cost paths known at that point.
    #[verifier::rlimit(100)]
    #[verifier::spinoff_prover]
    fn dijkstra_core<G: Neighbors>(
        g: &G,
        start: u64,
        stop_on_first: bool,
        collect_paths: bool,
    ) -> (res: (Vec<(u64, u64)>, Vec<(u64, Vec<Vec<u64>>)>))
        requires
            (start as nat) < g.size_bound(),
        ensures
            core_post(g, start, stop_on_first, collect_paths, res.0@, res.1@),
            no_dup_edges(g) ==> paths_distinct(res.1@),
            positive_weights(g) ==> paths_full(g, start, res.0@, res.1@),
            positive_weights(g) && stop_on_first && res.0@.len() > 0 ==> (forall|t: u64|
                g.is_target(t) && t != start && #[trigger] has_path(
                    g,
                    start,
                    t,
                    res.0@[0].0 as int,
                ) ==> exists|i: int| 0 <= i < res.0@.len() && (#[trigger] res.0@[i]).1 == t),
    {
        let mut frontier = Frontier::new();
        frontier.insert(0, start, false);
        let mut seen = SeenTable::new(start);
        let mut targets: Vec<(u64, u64)> = Vec::new();
        let mut paths_out: Vec<(u64, Vec<Vec<u64>>)> = Vec::new();
        let ghost mut ex: Set<u64> = Set::empty();
        let ghost mut wit: Map<u64, Seq<u64>> = Map::empty().insert(start, seq![start]);
        let ghost mut cur: int = 0;
        let ghost empty_items: Seq<(u64, bool)> = Seq::empty();
        let mut found = false;
        proof {
            assert(seq![start].len() == 1);
            assert(path_ok(g, seq![start], 0));
            assert(connects(g, seq![start], start, start, 0));
        }
        loop
            invariant_except_break
                !found,
            invariant
                core_inv(
                    g,
                    start,
                    seen.m(),
                    frontier,
                    targets@,
                    paths_out@,
                    ex,
                    wit,
                    cur,
                    stop_on_first,
                    collect_paths,
                    found,
                    empty_items,
                    0,
                    0,
                ),
                (start as nat) < g.size_bound(),
                empty_items.len() == 0,
                collect_paths || paths_out@.len() == 0,
                preds_complete(g, seen.m(), ex),
                positive_weights(g) ==> paths_full(g, start, targets@, paths_out@),
                positive_weights(g) ==> preds_acyclic(seen.m()),
                no_dup_edges(g) ==> preds_distinct(seen.m()) && preds_settled(seen.m(), ex),
                no_dup_edges(g) ==> paths_distinct(paths_out@),
                found ==> stop_on_first,
                forall|i: int|
                    0 <= i < targets@.len() ==> ex.contains((#[trigger] targets@[i]).1),
            ensures
                core_inv(
                    g,
                    start,
                    seen.m(),
                    frontier,
                    targets@,
                    paths_out@,
                    ex,
                    wit,
                    cur,
                    stop_on_first,
                    collect_paths,
                    found,
                    empty_items,
                    0,
                    0,
                ),
                positive_weights(g) && found ==> (forall|t: u64|
                    g.is_target(t) && t != start && #[trigger] has_path(
                        g,
                        start,
                        t,
                        targets@[0].0 as int,
                    ) ==> exists|i: int|
                        0 <= i < targets@.len() && (#[trigger] targets@[i]).1 == t),
                found || frontier.is_empty_spec(),
                (start as nat) < g.size_bound(),
                empty_items.len() == 0,
                collect_paths || paths_out@.len() == 0,
                preds_complete(g, seen.m(), ex),
                positive_weights(g) ==> paths_full(g, start, targets@, paths_out@),
                positive_weights(g) ==> preds_acyclic(seen.m()),
                no_dup_edges(g) ==> preds_distinct(seen.m()) && preds_settled(seen.m(), ex),
                no_dup_edges(g) ==> paths_distinct(paths_out@),
                found ==> stop_on_first,
                forall|i: int|
                    0 <= i < targets@.len() ==> ex.contains((#[trigger] targets@[i]).1),
            decreases sum_costs(seen.m(), clamped_bound(g)) + frontier.count(),
        {
            let ghost m_pre = seen.m();
            let ghost fr_pre = frontier;
            let popped = frontier.pop_first();
            match popped {
                None => {
                    break;
                }
                Some((cost, items)) => {
                    let ghost cur_old = cur;
                    proof {
                        // the popped bucket is at least as expensive as the last one
                        assert(cost as int >= cur_old) by {
                            let n0 = items@[0].0;
                            let t0 = items@[0].1;
                            assert(items@.contains((n0, t0)));
                            assert(fr_pre.has(cost, n0, t0));
                            let bi = choose|bi: int|
                                0 <= bi < fr_pre.buckets@.len() && #[trigger] fr_pre.buckets@[bi].cost
                                    == cost && fr_pre.buckets@[bi].items@.contains((n0, t0));
                            assert(fr_pre.buckets@[bi].cost >= cur_old);
                        }
                        cur = cost as int;
                        // monotonicity of the invariant in `cur`
                        assert forall|n: u64, j: int|
                            seen.m().contains_key(n) && 0 <= j < seen.m()[n].preds@.len() implies pred_ok(
                            g,
                            start,
                            seen.m(),
                            n,
                            #[trigger] seen.m()[n].preds@[j],
                            cur,
                        ) by {
                            assert(pred_ok(g, start, seen.m(), n, seen.m()[n].preds@[j], cur_old));
                        }
                        assert forall|i: int|
                            0 <= i < targets@.len() implies #[trigger] target_rec_ok(
                            g,
                            start,
                            seen.m(),
                            targets@,
                            i,
                            cur,
                        ) by {
                            assert(target_rec_ok(g, start, seen.m(), targets@, i, cur_old));
                        }
                        // frontier after the pop
                        assert(frontier.all_at_least(cur));
                        // suffix facts for the popped items
                        assert forall|x: int| 0 <= x < items@.len() implies {
                            let n = (#[trigger] items@[x]).0;
                            let t = items@[x].1;
                            &&& seen.m().contains_key(n)
                            &&& seen.m()[n].cost <= cost
                            &&& seen.m()[n].cost < u64::MAX
                            &&& t == flag_of(g, start, n)
                            &&& (n as nat) < g.size_bound()
                            &&& (seen.m()[n].cost < cost ==> ex.contains(n) && (stop_on_first
                                ==> !g.is_target(n) || n == start))
                            &&& (seen.m()[n].cost == cost ==> !ex.contains(n))
                        } by {
                            let n = items@[x].0;
                            let t = items@[x].1;
                            assert(items@.contains((n, t)));
                            assert(fr_pre.has(cost, n, t));
                            if seen.m()[n].cost < cost {
                                if !ex.contains(n) {
                                    assert(fr_pre.has(
                                        seen.m()[n].cost,
                                        n,
                                        flag_of(g, start, n),
                                    ));
                                    let bi = choose|bi: int|
                                        0 <= bi < fr_pre.buckets@.len()
                                            && #[trigger] fr_pre.buckets@[bi].cost == seen.m()[n].cost
                                            && fr_pre.buckets@[bi].items@.contains((
                                            n,
                                            flag_of(g, start, n),
                                        ));
                                    assert(fr_pre.buckets@[bi].cost >= cost);
                                }
                            }
                            if seen.m()[n].cost == cost && ex.contains(n) {
                                // an expanded node keeps no entry at its settled cost
                                assert((cost as int) > seen.m()[n].cost);
                            }
                        }
                        // the consumed bucket leaves no entry at its own key
                        assert forall|x: int, c2: u64, t2: bool|
                            0 <= x < items@.len() && #[trigger] frontier.has(
                                c2,
                                (#[trigger] items@[x]).0,
                                t2,
                            ) implies c2 > cost by {
                            assert(frontier.all_at_least(cost as int + 1));
                            let bi = choose|bi: int|
                                0 <= bi < frontier.buckets@.len()
                                    && #[trigger] frontier.buckets@[bi].cost == c2
                                    && frontier.buckets@[bi].items@.contains((items@[x].0, t2));
                            assert(frontier.buckets@[bi].cost >= cost + 1);
                        }
                        // pending with the popped items as the open suffix
                        assert forall|n: u64|
                            #[trigger] seen.m().contains_key(n) && seen.m()[n].cost
                                < u64::MAX implies ex.contains(n) || frontier.has(
                            seen.m()[n].cost,
                            n,
                            flag_of(g, start, n),
                        ) || (exists|x: int|
                            0 <= x < items@.len() && #[trigger] items@[x] == (
                                n,
                                flag_of(g, start, n),
                            )) by {
                            if !ex.contains(n) {
                                assert(fr_pre.has(seen.m()[n].cost, n, flag_of(g, start, n)));
                                if seen.m()[n].cost == cost {
                                    assert(items@.contains((n, flag_of(g, start, n))));
                                } else {
                                    assert(frontier.has(seen.m()[n].cost, n, flag_of(g, start, n)));
                                }
                            }
                        }
                    }
                    let ghost s0 = sum_costs(seen.m(), clamped_bound(g)) + frontier.count();
                    let mut k: usize = 0;
                    while k < items.len()
                        invariant
                            core_inv(
                                g,
                                start,
                                seen.m(),
                                frontier,
                                targets@,
                                paths_out@,
                                ex,
                                wit,
                                cur,
                                stop_on_first,
                                collect_paths,
                                found,
                                items@,
                                k as int,
                                cost,
                            ),
                            cur == cost as int,
                            (start as nat) < g.size_bound(),
                            0 <= k <= items@.len(),
                            forall|i: int|
                                0 <= i < targets@.len() ==> ex.contains(
                                    (#[trigger] targets@[i]).1,
                                ),
                            sum_costs(seen.m(), clamped_bound(g)) + frontier.count() <= s0,
                            found ==> stop_on_first,
                            collect_paths || paths_out@.len() == 0,
                            preds_complete(g, seen.m(), ex),
                            positive_weights(g) ==> frontier.all_at_least(cost as int + 1),
                            positive_weights(g) ==> paths_full(g, start, targets@, paths_out@),
                            positive_weights(g) ==> preds_acyclic(seen.m()),
                            no_dup_edges(g) ==> preds_distinct(seen.m()) && preds_settled(
                                seen.m(),
                                ex,
                            ),
                            no_dup_edges(g) ==> paths_distinct(paths_out@),
                        decreases items@.len() - k,
                    {
                        let pair = items[k];
                        let node = pair.0;
                        let is_t = pair.1;
                        proof {
                            assert(items@[k as int] == (node, is_t));
                        }
                        let stale = seen.has_cheaper(cost, node);
                        if !stale {
                            proof {
                                assert(seen.m()[node].cost == cost);
                                // a fresh bucket member was never expanded before
                                assert(!ex.contains(node));
                            }
                            if is_t {
                                proof {
                                    assert(is_t == flag_of(g, start, node));
                                    assert(node != start && g.is_target(node));
                                    let m = seen.m();
                                    // a fresh target: no path anywhere is cheaper
                                    lemma_settled(
                                        g,
                                        start,
                                        m,
                                        frontier,
                                        ex,
                                        items@,
                                        k as int,
                                        cost,
                                        stop_on_first,
                                        cost as int,
                                    );
                                    lemma_no_cheap_paths(g, start, m, ex, cost as int);
                                    assert forall|p: Seq<u64>, c2: int| #[trigger]
                                        connects(g, p, start, node, c2) implies c2
                                        >= cost as int by {
                                        if c2 < cost as int {
                                            assert(path_ok(g, p, c2) && p.len() >= 1 && p.first()
                                                == start);
                                            assert(m[p.last()].cost as int <= c2);
                                        }
                                    }
                                    assert(no_path_below(g, start, node, cost as int));
                                }
                                let ghost ts_old = targets@;
                                targets.push((cost, node));
                                proof {
                                    let ts2 = targets@;
                                    let m = seen.m();
                                    let newi = ts2.len() - 1;
                                    assert(ts2 =~= ts_old.push((cost, node)));
                                    // cost order: every earlier report is at most `cur`
                                    assert forall|i: int, j2: int|
                                        0 <= i < j2 < ts2.len() implies (#[trigger] ts2[i]).0
                                        <= (#[trigger] ts2[j2]).0 by {
                                        if j2 < newi {
                                            assert(ts_old[i].0 <= ts_old[j2].0);
                                        } else {
                                            assert(target_rec_ok(g, start, m, ts_old, i, cur));
                                            assert(ts2[i].0 <= cur);
                                        }
                                    }
                                    // no repeat: earlier reports are expanded, this node is not
                                    assert forall|i: int, j2: int|
                                        0 <= i < j2 < ts2.len() implies (#[trigger] ts2[i]).1
                                        != (#[trigger] ts2[j2]).1 by {
                                        if j2 < newi {
                                            assert(ts_old[i].1 != ts_old[j2].1);
                                        } else {
                                            assert(ex.contains(ts_old[i].1));
                                        }
                                    }
                                    assert forall|i: int|
                                        0 <= i < ts2.len() implies #[trigger] target_rec_ok(
                                        g,
                                        start,
                                        m,
                                        ts2,
                                        i,
                                        cur,
                                    ) by {
                                        if i < newi {
                                            assert(target_rec_ok(g, start, m, ts_old, i, cur));
                                        }
                                    }
                                    assert forall|n: u64|
                                        #[trigger] ex.contains(n) && g.is_target(n) && n
                                            != start implies exists|i: int|
                                        0 <= i < ts2.len() && (#[trigger] ts2[i]).1 == n by {
                                        let i0 = choose|i0: int|
                                            0 <= i0 < ts_old.len() && (#[trigger] ts_old[i0]).1
                                                == n;
                                        assert(ts2[i0].1 == n);
                                    }
                                    if found {
                                        assert(ts2[0].0 == cost) by {
                                            assert(ts_old[0].0 == cost);
                                        }
                                        assert forall|i: int|
                                            0 <= i < ts2.len() implies (#[trigger] ts2[i]).0
                                            == ts2[0].0 && m.contains_key(ts2[i].1)
                                            && m[ts2[i].1].cost == ts2[i].0 by {
                                            if i < newi {
                                            } else {
                                                assert(m[node].cost == cost);
                                            }
                                        }
                                    }
                                }
                                if collect_paths {
                                    let pp = seen.get_paths_from(node);
                                    proof {
                                        assert forall|k2: int|
                                            0 <= k2 < pp@.len() implies connects(
                                            g,
                                            (#[trigger] pp@[k2])@,
                                            start,
                                            node,
                                            seen.m()[node].cost as int,
                                        ) by {
                                            lemma_chain_connects(
                                                g,
                                                start,
                                                seen.m(),
                                                cur,
                                                pp@[k2]@,
                                            );
                                        }
                                    }
                                    let ghost ps0 = paths_out@;
                                    paths_out.push((cost, pp));
                                    proof {
                                        if positive_weights(g) {
                                            let m = seen.m();
                                            lemma_settled(
                                                g,
                                                start,
                                                m,
                                                frontier,
                                                ex,
                                                items@,
                                                k as int,
                                                cost,
                                                stop_on_first,
                                                cost as int,
                                            );
                                            lemma_no_cheap_paths(g, start, m, ex, cost as int);
                                            assert forall|p2: Seq<u64>| #[trigger]
                                                connects(g, p2, start, node, cost as int) implies (
                                            exists|kx: int|
                                                0 <= kx < pp@.len() && (#[trigger] pp@[kx])@
                                                    == p2) by {
                                                lemma_min_path_chain(
                                                    g,
                                                    start,
                                                    m,
                                                    ex,
                                                    p2,
                                                    cost as int,
                                                    cost as int,
                                                );
                                                assert(chain_ok(m, p2) && p2.last() == node);
                                            }
                                            assert(m[node].cost < u64::MAX);
                                            assert(connects(g, wit[node], start, node, cost as int));
                                            assert(pp@.len() >= 1);
                                            assert(ps0.len() == targets@.len() - 1);
                                            assert forall|i: int, p2: Seq<u64>|
                                                0 <= i < paths_out@.len() && i < targets@.len()
                                                    && #[trigger] connects(
                                                    g,
                                                    p2,
                                                    start,
                                                    targets@[i].1,
                                                    paths_out@[i].0 as int,
                                                ) implies exists|kx: int|
                                                0 <= kx < paths_out@[i].1@.len() && (
                                                #[trigger] paths_out@[i].1@[kx])@ == p2 by {
                                                if i < ps0.len() {
                                                    assert(paths_out@[i] == ps0[i]);
                                                } else {
                                                    assert(paths_out@[i].1 == pp);
                                                    assert(paths_out@[i].0 == cost);
                                                    assert(targets@[i].1 == node);
                                                }
                                            }
                                            assert forall|i: int|
                                                0 <= i < paths_out@.len() implies (
                                            #[trigger] paths_out@[i]).1@.len() >= 1 by {
                                                if i < ps0.len() {
                                                    assert(paths_out@[i] == ps0[i]);
                                                } else {
                                                    assert(paths_out@[i].1 == pp);
                                                }
                                            }
                                        }
                                        if no_dup_edges(g) {
                                            assert forall|i: int, k1: int, k2: int|
                                                0 <= i < paths_out@.len() && 0 <= k1 < k2 < (
                                            #[trigger] paths_out@[i]).1@.len() implies (
                                            #[trigger] paths_out@[i].1@[k1])@ != (
                                            #[trigger] paths_out@[i].1@[k2])@ by {
                                                if i < ps0.len() {
                                                    assert(paths_out@[i] == ps0[i]);
                                                } else {
                                                    assert(paths_out@[i].1 == pp);
                                                    assert(pp@[k1]@ != pp@[k2]@);
                                                }
                                            }
                                        }
                                    }
                                }
                                if stop_on_first {
                                    proof {
                                        if !found {
                                            let ts2 = targets@;
                                            let m = seen.m();
                                            assert(ts2.len() == 1);
                                            assert(m[node].cost == cost);
                                            // nothing cheaper leads to any other target
                                            lemma_settled(
                                                g,
                                                start,
                                                m,
                                                frontier,
                                                ex,
                                                items@,
                                                k as int,
                                                cost,
                                                stop_on_first,
                                                cost as int,
                                            );
                                            lemma_no_cheap_paths(g, start, m, ex, cost as int);
                                            assert forall|p: Seq<u64>, c2: int, t: u64| #[trigger]
                                                connects(g, p, start, t, c2) && g.is_target(t)
                                                && t != start implies c2 >= cost as int by {
                                                if c2 < cost as int {
                                                    assert(path_ok(g, p, c2) && p.len() >= 1
                                                        && p.first() == start);
                                                    assert(m[t].cost as int <= c2);
                                                    assert(ex.contains(t));
                                                }
                                            }
                                            assert(no_target_below(g, start, cost as int));
                                        }
                                    }
                                    found = true;
                                }
                            }
                            let edges = g.next(node);
                            let mut j: usize = 0;
                            while j < edges.len()
                                invariant
                                    core_inv(
                                        g,
                                        start,
                                        seen.m(),
                                        frontier,
                                        targets@,
                                        paths_out@,
                                        ex,
                                        wit,
                                        cur,
                                        stop_on_first,
                                        collect_paths,
                                        found,
                                        items@,
                                        k as int,
                                        cost,
                                    ),
                                    cur == cost as int,
                                    (start as nat) < g.size_bound(),
                                    0 <= k < items@.len(),
                                    items@[k as int] == (node, is_t),
                                    seen.m().contains_key(node),
                                    seen.m()[node].cost == cost,
                                    seen.m()[node].cost < u64::MAX,
                                    !ex.contains(node),
                                    forall|i: int|
                                        0 <= i < targets@.len() ==> ex.contains(
                                            (#[trigger] targets@[i]).1,
                                        ) || targets@[i].1 == node,
                                    0 <= j <= edges@.len(),
                                    edges@.len() == g.edges(node).len(),
                                    forall|i: int|
                                        0 <= i < edges@.len() ==> #[trigger] edges@[i] == (
                                            g.edges(node)[i].0,
                                            g.edges(node)[i].1,
                                            g.is_target(g.edges(node)[i].1),
                                        ),
                                    forall|i: int|
                                        0 <= i < edges@.len() ==> ((#[trigger] edges@[i]).1 as nat)
                                            < g.size_bound(),
                                    forall|jj: int|
                                        0 <= jj < j ==> #[trigger] relaxed_at(
                                            g,
                                            seen.m(),
                                            node,
                                            jj,
                                        ),
                                    sum_costs(seen.m(), clamped_bound(g)) + frontier.count() <= s0,
                                    found ==> stop_on_first,
                                    collect_paths || paths_out@.len() == 0,
                                    preds_complete(g, seen.m(), ex),
                                    scan_complete(g, seen.m(), node, j as int),
                                    positive_weights(g) ==> frontier.all_at_least(cost as int + 1),
                                    positive_weights(g) ==> paths_full(g, start, targets@, paths_out@),
                                    positive_weights(g) ==> preds_acyclic(seen.m()),
                                    no_dup_edges(g) ==> preds_distinct(seen.m()) && preds_mid_scan(
                                        g,
                                        seen.m(),
                                        ex,
                                        node,
                                        cost,
                                        j as int,
                                    ),
                                    no_dup_edges(g) ==> paths_distinct(paths_out@),
                                decreases edges@.len() - j,
                            {
                                let edge = edges[j];
                                let w = edge.0;
                                let to = edge.1;
                                let nt = edge.2;
                                proof {
                                    assert(edges@[j as int] == (w, to, nt));
                                    assert(g.edges(node)[j as int] == (w, to));
                                    assert(has_edge(g, node, to, w));
                                }
                                let cand_opt = cost.checked_add(w);
                                match cand_opt {
                                    None => {
                                        proof {
                                            assert(cost + w > u64::MAX);
                                            assert(relaxed_at(g, seen.m(), node, j as int));
                                        }
                                    }
                                    Some(cand) => {
                                        let ghost m1 = seen.m();
                                        let ghost fr1 = frontier;
                                        let ghost wit1 = wit;
                                        let r = seen.is_cheaper(node, to, cand);
                                        if r {
                                            frontier.insert(cand, to, nt);
                                            proof {
                                                wit = wit.insert(to, wit[node].push(to));
                                            }
                                        }
                                        proof {
                                            assert(node == start || m1[node].preds@.len() > 0) by {
                                                if m1[node].preds@.len() == 0 {
                                                    assert(m1.contains_key(node) && m1[node].cost
                                                        < u64::MAX);
                                                }
                                            }
                                            lemma_relax(
                                                g,
                                                start,
                                                m1,
                                                seen.m(),
                                                fr1,
                                                frontier,
                                                wit1,
                                                wit,
                                                targets@,
                                                paths_out@,
                                                ex,
                                                cur,
                                                node,
                                                to,
                                                w,
                                                cand,
                                                nt,
                                                stop_on_first,
                                                collect_paths,
                                                found,
                                                items@,
                                                k as int,
                                                cost,
                                            );
                                            if positive_weights(g) {
                                                assert(g.edges(node)[j as int].0 >= 1);
                                                assert(frontier.all_at_least(cost as int + 1));
                                            }
                                            assert forall|n: u64| #[trigger]
                                                ex.contains(n) implies m1.contains_key(n)
                                                && m1[n].cost <= cost && m1[n].cost < u64::MAX
                                                && relaxed(g, m1, n) by {}
                                            lemma_relax_preds(
                                                g,
                                                m1,
                                                seen.m(),
                                                ex,
                                                node,
                                                to,
                                                w,
                                                cand,
                                                cost,
                                                j as int,
                                            );
                                            assert(relaxed_at(g, seen.m(), node, j as int)) by {
                                                assert(seen.m()[node].cost == cost);
                                                assert(seen.m().contains_key(to));
                                                assert(seen.m()[to].cost <= cand);
                                            }
                                            assert forall|jj: int|
                                                0 <= jj < j + 1 implies #[trigger] relaxed_at(
                                                g,
                                                seen.m(),
                                                node,
                                                jj,
                                            ) by {
                                                if jj < j {
                                                    assert(relaxed_at(g, m1, node, jj));
                                                    let t2 = g.edges(node)[jj].1;
                                                    if t2 == to {
                                                        assert(seen.m()[to].cost <= (
                                                        if m1.contains_key(to) {
                                                            m1[to].cost
                                                        } else {
                                                            u64::MAX
                                                        }));
                                                    } else {
                                                        assert(seen.m().contains_key(t2)
                                                            == m1.contains_key(t2));
                                                        if m1.contains_key(t2) {
                                                            assert(seen.m()[t2] == m1[t2]);
                                                        }
                                                    }
                                                }
                                            }
                                        }
                                    }
                                }
                                j = j + 1;
                            }
                            proof {
                                let ghost ex0 = ex;
                                ex = ex.insert(node);
                                // the finished scan folds into the completeness fact
                                assert forall|u: u64, jx: int|
                                    ex.contains(u) && 0 <= jx < g.edges(u).len()
                                        && seen.m().contains_key((#[trigger] g.edges(u)[jx]).1)
                                        && seen.m()[u].cost + g.edges(u)[jx].0 == seen.m()[g.edges(
                                        u,
                                    )[jx].1].cost implies seen.m()[g.edges(
                                    u,
                                )[jx].1].preds@.contains(u) by {
                                    if u == node {
                                        assert(scan_complete(g, seen.m(), node, edges@.len() as int));
                                    } else {
                                        assert(ex0.contains(u));
                                    }
                                }
                                if no_dup_edges(g) {
                                    assert forall|n: u64, x: int|
                                        seen.m().contains_key(n) && 0 <= x < seen.m()[n].preds@.len()
                                        implies ex.contains(
                                        #[trigger] seen.m()[n].preds@[x],
                                    ) by {
                                        let u = seen.m()[n].preds@[x];
                                        if !ex0.contains(u) {
                                            assert(u == node);
                                        }
                                    }
                                }
                                assert forall|n: u64| #[trigger]
                                    ex.contains(n) implies seen.m().contains_key(n)
                                    && seen.m()[n].cost <= cur && seen.m()[n].cost < u64::MAX
                                    && relaxed(g, seen.m(), n) by {
                                    if n == node {
                                        assert(relaxed(g, seen.m(), node));
                                    }
                                }
                                // the just-expanded node has no entry left at its own cost
                                assert forall|n: u64, c: u64, t: bool|
                                    ex.contains(n) && #[trigger] frontier.has(c, n, t) implies (
                                c as int) > seen.m()[n].cost by {
                                    if n == node {
                                        assert(items@[k as int].0 == node);
                                        assert(c > cost);
                                    }
                                }
                                // later bucket members are other nodes, so they stay unexpanded
                                assert forall|x: int|
                                    k < x < items@.len() && seen.m()[(#[trigger] items@[x]).0].cost
                                        == cost implies !ex.contains(items@[x].0) by {
                                    if items@[x].0 == node {
                                        assert(items@[x].1 == flag_of(g, start, items@[x].0));
                                        assert(items@[k as int].1 == flag_of(g, start, node));
                                        assert(items@[x] == items@[k as int]);
                                    }
                                }
                                if stop_on_first && !found {
                                    assert(!g.is_target(node) || node == start) by {
                                        if g.is_target(node) && node != start {
                                            assert(is_t);
                                        }
                                    }
                                }
                                if g.is_target(node) && node != start {
                                    assert(is_t);
                                    assert(targets@[targets@.len() - 1].1 == node);
                                }
                            }
                        } else {
                            proof {
                                // a stale entry: the node was expanded when it was settled
                                assert(ex.contains(node));
                            }
                        }
                        k = k + 1;
                        proof {
                            // the processed item is covered: expanded either way
                            assert forall|n: u64|
                                #[trigger] seen.m().contains_key(n) && seen.m()[n].cost
                                    < u64::MAX implies ex.contains(n) || frontier.has(
                                seen.m()[n].cost,
                                n,
                                flag_of(g, start, n),
                            ) || (exists|x: int|
                                k <= x < items@.len() && #[trigger] items@[x] == (
                                    n,
                                    flag_of(g, start, n),
                                )) by {
                                if !ex.contains(n) && !frontier.has(
                                    seen.m()[n].cost,
                                    n,
                                    flag_of(g, start, n),
                                ) {
                                    let x = choose|x: int|
                                        k - 1 <= x < items@.len() && #[trigger] items@[x] == (
                                            n,
                                            flag_of(g, start, n),
                                        );
                                    if x == k - 1 {
                                        assert(n == node);
                                        if seen.m()[node].cost < cost {
                                            assert(ex.contains(node));
                                        } else {
                                            assert(ex.contains(node));
                                        }
                                    }
                                }
                            }
                        }
                    }
                    proof {
                        // back to the between-buckets shape of the invariant
                        assert forall|n: u64|
                            #[trigger] seen.m().contains_key(n) && seen.m()[n].cost
                                < u64::MAX implies ex.contains(n) || frontier.has(
                            seen.m()[n].cost,
                            n,
                            flag_of(g, start, n),
                        ) || (exists|x: int|
                            0 <= x < empty_items.len() && #[trigger] empty_items[x] == (
                                n,
                                flag_of(g, start, n),
                            )) by {
                            assert(!(exists|x: int|
                                items@.len() <= x < items@.len() && #[trigger] items@[x] == (
                                    n,
                                    flag_of(g, start, n),
                                )));
                        }
                        // the measure shrank by at least the bucket's size
                        assert(sum_costs(m_pre, clamped_bound(g)) == sum_costs(
                            seen.m(),
                            clamped_bound(g),
                        ) || true);
                    }
                    if found {
                        proof {
                            if positive_weights(g) {
                                let m = seen.m();
                                lemma_settled(
                                    g,
                                    start,
                                    m,
                                    frontier,
                                    ex,
                                    items@,
                                    k as int,
                                    cost,
                                    stop_on_first,
                                    cost as int,
                                );
                                lemma_no_cheap_paths(g, start, m, ex, cost as int);
                                // every target of the stopping cost was settled in
                                // this bucket, expanded, and therefore reported
                                assert forall|t: u64|
                                    g.is_target(t) && t != start && #[trigger] has_path(
                                        g,
                                        start,
                                        t,
                                        targets@[0].0 as int,
                                    ) implies (exists|i: int|
                                    0 <= i < targets@.len() && (#[trigger] targets@[i]).1
                                        == t) by {
                                    assert(targets@[0].0 == cost);
                                    let p = choose|p: Seq<u64>| #[trigger] connects(
                                        g,
                                        p,
                                        start,
                                        t,
                                        cost as int,
                                    );
                                    assert(p.len() >= 2) by {
                                        if p.len() == 1 {
                                            assert(p.first() == p.last());
                                        }
                                    }
                                    let q = p.drop_last();
                                    let u = p[p.len() - 2];
                                    let w = choose|w: u64|
                                        #[trigger] has_edge(g, u, p.last(), w) && path_ok(
                                            g,
                                            q,
                                            cost as int - w,
                                        );
                                    let jj = choose|jj: int|
                                        0 <= jj < g.edges(u).len() && (#[trigger] g.edges(
                                            u,
                                        )[jj]) == (w, t);
                                    assert(g.edges(u)[jj].0 >= 1);
                                    assert(q.first() == start && q.last() == u && q.len() >= 1);
                                    assert(m.contains_key(u) && (m[u].cost as int) <= cost as int
                                        - w);
                                    assert(ex.contains(u));
                                    assert(relaxed_at(g, m, u, jj));
                                    assert(m.contains_key(t) && (m[t].cost as int) <= cost);
                                    assert(m[t].cost as int >= cost) by {
                                        if (m[t].cost as int) < cost {
                                            assert(m[t].cost < u64::MAX);
                                            assert(connects(
                                                g,
                                                wit[t],
                                                start,
                                                t,
                                                m[t].cost as int,
                                            ));
                                            assert(no_target_below(g, start, cost as int));
                                        }
                                    }
                                    assert(ex.contains(t)) by {
                                        if !ex.contains(t) {
                                            assert(m[t].cost < u64::MAX);
                                            assert(frontier.all_at_least(cost as int + 1));
                                            assert(!(exists|x: int|
                                                k as int <= x < items@.len()
                                                    && #[trigger] items@[x] == (
                                                    t,
                                                    flag_of(g, start, t),
                                                )));
                                            assert(!frontier.has(
                                                m[t].cost,
                                                t,
                                                flag_of(g, start, t),
                                            ));
                                        }
                                    }
                                }
                            }
                        }
                        break;
                    }
                }
            }
        }
        proof {
            lemma_core_post(
                g,
                start,
                seen.m(),
                frontier,
                targets@,
                paths_out@,
                ex,
                wit,
                cur,
                stop_on_first,
                collect_paths,
                found,
            );
        }
        (targets, paths_out)
    }
}

/// From the final state of the traversal invariant, conclude the
/// public contract of the core.
proof fn lemma_core_post<G: Neighbors>(
    g: &G,
    start: u64,
    m: Map<u64, SeenEntry>,
    fr: Frontier,
    ts: Seq<(u64, u64)>,
    ps: Seq<(u64, Vec<Vec<u64>>)>,
    ex: Set<u64>,
    wit: Map<u64, Seq<u64>>,
    cur: int,
    stop: bool,
    collect: bool,
    found: bool,
)
    requires
        core_inv(
            g,
            start,
            m,
            fr,
            ts,
            ps,
            ex,
            wit,
            cur,
            stop,
            collect,
            found,
            Seq::<(u64, bool)>::empty(),
            0,
            0,
        ),
        found || fr.is_empty_spec(),
        found ==> stop,
        collect || ps.len() == 0,
    ensures
        core_post(g, start, stop, collect, ts, ps),
{
    // per-report soundness via the stored witnesses
    assert forall|i: int|
        0 <= i < ts.len() implies g.is_target((#[trigger] ts[i]).1) && ts[i].1 != start
        && ts[i].0 < u64::MAX && has_path(g, start, ts[i].1, ts[i].0 as int) && no_path_below(
        g,
        start,
        ts[i].1,
        ts[i].0 as int,
    ) by {
        assert(target_rec_ok(g, start, m, ts, i, cur));
        let t = ts[i].1;
        assert(m[t].cost == ts[i].0);
        assert(connects(g, wit[t], start, t, m[t].cost as int));
        assert(has_path(g, start, t, ts[i].0 as int));
    }
    if !(found && stop) && fr.is_empty_spec() {
        // the search exhausted the graph: everything settled is expanded
        assert forall|n: u64|
            #[trigger] m.contains_key(n) && m[n].cost < u64::MAX implies ex.contains(n) by {
            if !ex.contains(n) {
                if fr.has(m[n].cost, n, flag_of(g, start, n)) {
                    let bi = choose|bi: int|
                        0 <= bi < fr.buckets@.len() && #[trigger] fr.buckets@[bi].cost == m[n].cost
                            && fr.buckets@[bi].items@.contains((n, flag_of(g, start, n)));
                }
            }
        }
        lemma_no_cheap_paths(g, start, m, ex, u64::MAX as int);
        assert forall|t: u64, c: int|
            g.is_target(t) && t != start && 0 <= c < u64::MAX as int && #[trigger] has_path(
                g,
                start,
                t,
                c,
            ) implies exists|i: int| 0 <= i < ts.len() && (#[trigger] ts[i]).1 == t by {
            let p = choose|p: Seq<u64>| #[trigger] connects(g, p, start, t, c);
            assert(path_ok(g, p, c) && p.len() >= 1 && p.first() == start);
            assert(m.contains_key(t) && (m[t].cost as int) <= c);
            assert(ex.contains(t));
        }
    }
    if stop {
        if found {
            assert(ts.len() > 0 ==> no_target_below(g, start, ts[0].0 as int)) by {
                assert(cur == ts[0].0);
            }
        } else {
            assert(ts.len() == 0);
            assert forall|t: u64, c: int|
                g.is_target(t) && t != start && 0 <= c < u64::MAX as int implies !(
            #[trigger] has_path(g, start, t, c)) by {
                if has_path(g, start, t, c) {
                    let i0 = choose|i0: int| 0 <= i0 < ts.len() && (#[trigger] ts[i0]).1 == t;
                }
            }
        }
    }
    if collect {
        assert forall|i: int, k: int|
            0 <= i < ps.len() && 0 <= k < ps[i].1@.len() implies connects(
            g,
            (#[trigger] ps[i].1@[k])@,
            start,
            ts[i].1,
            ts[i].0 as int,
        ) by {
            assert(target_rec_ok(g, start, m, ts, i, cur));
            assert(connects(g, ps[i].1@[k]@, start, ts[i].1, m[ts[i].1].cost as int));
            assert(m[ts[i].1].cost == ts[i].0);
        }
    }
}

/// Some target other than the start node is reachable at exactly cost `c`.
pub open spec fn target_at<G: Neighbors>(g: &G, start: u64, c: u64) -> bool {
    exists|t: u64| g.is_target(t) && t != start && #[trigger] has_path(g, start, t, c as int)
}

/// A path in `paths` of a single-cost result: a real start-to-target
/// path of exactly cost `c`, ending at a flagged node.
pub open spec fn result_path<G: Neighbors>(g: &G, start: u64, c: u64, p: Seq<u64>) -> bool {
    &&& p.len() >= 1
    &&& connects(g, p, start, p.last(), c as int)
    &&& g.is_target(p.last())
    &&& p.last() != start
}

impl Dijkstra {
    /// The cheapest reachable target, with its cost.  The start node
    /// itself is never reported, even when it is flagged.  `None`
    /// exactly when no target is reachable at any representable cost.
    pub fn find_first<G: Neighbors>(g: &G, start: u64) -> (r: Option<(u64, u64)>)
        requires
            (start as nat) < g.size_bound(),
        ensures
            r is None ==> (forall|t: u64, c: int|
                g.is_target(t) && t != start && 0 <= c < u64::MAX as int ==> !(#[trigger] has_path(
                    g,
                    start,
                    t,
                    c,
                ))),
            r matches Some((c, n)) ==> g.is_target(n) && n != start && has_path(
                g,
                start,
                n,
                c as int,
            ) && no_target_below(g, start, c as int),
    {
        let res = Self::dijkstra_core(g, start, true, false);
        let ts = res.0;
        if ts.len() == 0 {
            None
        } else {
            let pair = ts[ts.len() - 1];
            proof {
                let tss = ts@;
                let last = tss.len() - 1;
                assert(tss[last].0 == tss[0].0);
                assert(has_path(g, start, tss[last].1, tss[last].0 as int));
                assert(no_target_below(g, start, tss[0].0 as int));
            }
            Some(pair)
        }
    }

    /// Every reachable target, each exactly once, in non-decreasing
    /// cost order, each with exactly its minimal path cost.
    pub fn find_all<G: Neighbors>(g: &G, start: u64) -> (r: Vec<(u64, u64)>)
        requires
            (start as nat) < g.size_bound(),
        ensures
            all_targets_report(g, start, r@),
    {
        let res = Self::dijkstra_core(g, start, false, false);
        res.0
    }

    /// The cheapest target cost together with every tied minimal-cost
    /// path to every target popped at that cost.  Under strictly
    /// positive weights the list is exhaustive: every minimal-cost
    /// path to every target is in it; under duplicate-free edge lists
    /// no path appears twice.
    #[verifier::rlimit(100)]
    #[verifier::spinoff_prover]
    pub fn find_first_paths<G: Neighbors>(g: &G, start: u64) -> (r: Option<(u64, Vec<Vec<u64>>)>)
        requires
            (start as nat) < g.size_bound(),
        ensures
            r is None ==> (forall|t: u64, c: int|
                g.is_target(t) && t != start && 0 <= c < u64::MAX as int ==> !(#[trigger] has_path(
                    g,
                    start,
                    t,
                    c,
                ))),
            r matches Some((c, paths)) ==> no_target_below(g, start, c as int) && target_at(
                g,
                start,
                c,
            ) && (forall|x: int|
                0 <= x < paths@.len() ==> result_path(g, start, c, (#[trigger] paths@[x])@)),
            r matches Some((c, paths)) ==> (no_dup_edges(g) ==> (forall|x1: int, x2: int|
                0 <= x1 < x2 < paths@.len() ==> (#[trigger] paths@[x1])@ != (
                #[trigger] paths@[x2])@)),
            r matches Some((c, paths)) ==> (positive_weights(g) ==> covers_all_ties(
                g,
                start,
                c,
                paths@,
            )),
    {
        let res = Self::dijkstra_core(g, start, true, true);
        let ts = res.0;
        let mut ps = res.1;
        if ts.len() == 0 {
            None
        } else {
            let cost = ts[0].0;
            proof {
                let tss = ts@;
                let pss = ps@;
                assert(has_path(g, start, tss[0].1, tss[0].0 as int));
                assert(g.is_target(tss[0].1) && tss[0].1 != start);
                assert(target_at(g, start, cost));
                assert forall|i: int, k: int|
                    0 <= i < pss.len() && 0 <= k < pss[i].1@.len() implies result_path(
                    g,
                    start,
                    cost,
                    ((#[trigger] pss[i].1@[k]))@,
                ) by {
                    let p = (pss[i].1@[k])@;
                    assert(connects(g, p, start, tss[i].1, tss[i].0 as int));
                    assert(tss[i].0 == tss[0].0);
                    assert(g.is_target(tss[i].1) && tss[i].1 != start);
                    assert(p.len() >= 1) by {
                        if p.len() == 0 {
                            assert(!path_ok(g, p, tss[i].0 as int));
                        }
                    }
                    assert(p.last() == tss[i].1);
                }
                if no_dup_edges(g) {
                    // paths of different entries end at different targets
                    assert forall|i1: int, k1: int, i2: int, k2: int|
                        0 <= i1 < i2 < pss.len() && 0 <= k1 < pss[i1].1@.len() && 0 <= k2
                            < pss[i2].1@.len() implies (#[trigger] pss[i1].1@[k1])@ != (
                    #[trigger] pss[i2].1@[k2])@ by {
                        let p1 = (pss[i1].1@[k1])@;
                        let p2 = (pss[i2].1@[k2])@;
                        assert(p1.last() == tss[i1].1);
                        assert(p2.last() == tss[i2].1);
                        assert(tss[i1].1 != tss[i2].1);
                    }
                }
                if positive_weights(g) {
                    // every minimal path to any target already sits in
                    // the entry of its reported target
                    assert forall|p: Seq<u64>, t: u64|
                        g.is_target(t) && t != start && #[trigger] connects(
                            g,
                            p,
                            start,
                            t,
                            cost as int,
                        ) implies (exists|i: int, kk: int|
                        0 <= i < pss.len() && 0 <= kk < pss[i].1@.len() && (
                        #[trigger] pss[i].1@[kk])@ == p) by {
                        assert(has_path(g, start, t, tss[0].0 as int));
                        let i = choose|i: int| 0 <= i < tss.len() && (#[trigger] tss[i]).1 == t;
                        assert(tss[i].0 == tss[0].0);
                        assert(pss[i].0 == tss[i].0);
                        assert(connects(g, p, start, tss[i].1, pss[i].0 as int));
                        let kk = choose|kk: int|
                            0 <= kk < pss[i].1@.len() && (#[trigger] pss[i].1@[kk])@ == p;
                        assert(0 <= i < pss.len() && 0 <= kk < pss[i].1@.len() && (
                        pss[i].1@[kk])@ == p);
                    }
                }
            }
            let mut all: Vec<Vec<u64>> = Vec::new();
            while ps.len() > 0
                invariant
                    forall|i: int, k: int|
                        0 <= i < ps@.len() && 0 <= k < ps@[i].1@.len() ==> result_path(
                            g,
                            start,
                            cost,
                            ((#[trigger] ps@[i].1@[k]))@,
                        ),
                    forall|x: int|
                        0 <= x < all@.len() ==> result_path(g, start, cost, (#[trigger] all@[x])@),
                    no_dup_edges(g) ==> (forall|x1: int, x2: int|
                        0 <= x1 < x2 < all@.len() ==> (#[trigger] all@[x1])@ != (
                        #[trigger] all@[x2])@),
                    no_dup_edges(g) ==> (forall|x: int, i: int, k: int|
                        0 <= x < all@.len() && 0 <= i < ps@.len() && 0 <= k < ps@[i].1@.len()
                            ==> (#[trigger] all@[x])@ != (#[trigger] ps@[i].1@[k])@),
                    no_dup_edges(g) ==> (forall|i: int, k1: int, k2: int|
                        0 <= i < ps@.len() && 0 <= k1 < k2 < ps@[i].1@.len() ==> (
                        #[trigger] ps@[i].1@[k1])@ != (#[trigger] ps@[i].1@[k2])@),
                    no_dup_edges(g) ==> (forall|i1: int, k1: int, i2: int, k2: int|
                        0 <= i1 < i2 < ps@.len() && 0 <= k1 < ps@[i1].1@.len() && 0 <= k2
                            < ps@[i2].1@.len() ==> (#[trigger] ps@[i1].1@[k1])@ != (
                        #[trigger] ps@[i2].1@[k2])@),
                    positive_weights(g) ==> (forall|p: Seq<u64>, t: u64|
                        g.is_target(t) && t != start && #[trigger] connects(
                            g,
                            p,
                            start,
                            t,
                            cost as int,
                        ) ==> (exists|x: int|
                            0 <= x < all@.len() && (#[trigger] all@[x])@ == p) || (exists|
                            i: int,
                            kk: int,
                        |
                            0 <= i < ps@.len() && 0 <= kk < ps@[i].1@.len() && (
                            #[trigger] ps@[i].1@[kk])@ == p)),
                decreases ps@.len(),
            {
                let ghost ps_pre = ps@;
                let entry = ps.remove(0);
                let mut list = entry.1;
                proof {
                    assert(entry == ps_pre[0]);
                    assert forall|i: int| 0 <= i < ps@.len() implies #[trigger] ps@[i]
                        == ps_pre[i + 1] by {}
                    if positive_weights(g) {
                        assert forall|p: Seq<u64>, t: u64|
                            g.is_target(t) && t != start && #[trigger] connects(
                                g,
                                p,
                                start,
                                t,
                                cost as int,
                            ) implies (exists|x: int|
                            0 <= x < all@.len() && (#[trigger] all@[x])@ == p) || (exists|kk: int|
                            0 <= kk < list@.len() && (#[trigger] list@[kk])@ == p) || (exists|
                            i: int,
                            kk: int,
                        |
                            0 <= i < ps@.len() && 0 <= kk < ps@[i].1@.len() && (
                            #[trigger] ps@[i].1@[kk])@ == p) by {
                            if !(exists|x: int|
                                0 <= x < all@.len() && (#[trigger] all@[x])@ == p) {
                                let (i0, kk0) = choose|i0: int, kk0: int|
                                    0 <= i0 < ps_pre.len() && 0 <= kk0 < ps_pre[i0].1@.len() && (
                                    #[trigger] ps_pre[i0].1@[kk0])@ == p;
                                if i0 == 0 {
                                    assert(list@ == ps_pre[0].1@);
                                    assert((list@[kk0])@ == p);
                                } else {
                                    assert(ps@[i0 - 1] == ps_pre[i0]);
                                    assert((ps@[i0 - 1].1@[kk0])@ == p);
                                }
                            }
                        }
                    }
                }
                while list.len() > 0
                    invariant
                        forall|k: int|
                            0 <= k < list@.len() ==> result_path(
                                g,
                                start,
                                cost,
                                (#[trigger] list@[k])@,
                            ),
                        forall|i: int, k: int|
                            0 <= i < ps@.len() && 0 <= k < ps@[i].1@.len() ==> result_path(
                                g,
                                start,
                                cost,
                                ((#[trigger] ps@[i].1@[k]))@,
                            ),
                        forall|x: int|
                            0 <= x < all@.len() ==> result_path(
                                g,
                                start,
                                cost,
                                (#[trigger] all@[x])@,
                            ),
                        no_dup_edges(g) ==> (forall|x1: int, x2: int|
                            0 <= x1 < x2 < all@.len() ==> (#[trigger] all@[x1])@ != (
                            #[trigger] all@[x2])@),
                        no_dup_edges(g) ==> (forall|x: int, k: int|
                            0 <= x < all@.len() && 0 <= k < list@.len() ==> (
                            #[trigger] all@[x])@ != (#[trigger] list@[k])@),
                        no_dup_edges(g) ==> (forall|x: int, i: int, k: int|
                            0 <= x < all@.len() && 0 <= i < ps@.len() && 0 <= k < ps@[i].1@.len()
                                ==> (#[trigger] all@[x])@ != (#[trigger] ps@[i].1@[k])@),
                        no_dup_edges(g) ==> (forall|k1: int, k2: int|
                            0 <= k1 < k2 < list@.len() ==> (#[trigger] list@[k1])@ != (
                            #[trigger] list@[k2])@),
                        no_dup_edges(g) ==> (forall|k: int, i: int, k2: int|
                            0 <= k < list@.len() && 0 <= i < ps@.len() && 0 <= k2
                                < ps@[i].1@.len() ==> (#[trigger] list@[k])@ != (
                            #[trigger] ps@[i].1@[k2])@),
                        no_dup_edges(g) ==> (forall|i: int, k1: int, k2: int|
                            0 <= i < ps@.len() && 0 <= k1 < k2 < ps@[i].1@.len() ==> (
                            #[trigger] ps@[i].1@[k1])@ != (#[trigger] ps@[i].1@[k2])@),
                        no_dup_edges(g) ==> (forall|i1: int, k1: int, i2: int, k2: int|
                            0 <= i1 < i2 < ps@.len() && 0 <= k1 < ps@[i1].1@.len() && 0 <= k2
                                < ps@[i2].1@.len() ==> (#[trigger] ps@[i1].1@[k1])@ != (
                            #[trigger] ps@[i2].1@[k2])@),
                        positive_weights(g) ==> (forall|p: Seq<u64>, t: u64|
                            g.is_target(t) && t != start && #[trigger] connects(
                                g,
                                p,
                                start,
                                t,
                                cost as int,
                            ) ==> (exists|x: int|
                                0 <= x < all@.len() && (#[trigger] all@[x])@ == p) || (exists|
                                kk: int,
                            |
                                0 <= kk < list@.len() && (#[trigger] list@[kk])@ == p) || (exists|
                                i: int,
                                kk: int,
                            |
                                0 <= i < ps@.len() && 0 <= kk < ps@[i].1@.len() && (
                                #[trigger] ps@[i].1@[kk])@ == p)),
                    decreases list@.len(),
                {
                    let ghost list_pre = list@;
                    let p = list.remove(0);
                    proof {
                        assert(p == list_pre[0]);
                        assert forall|k: int| 0 <= k < list@.len() implies #[trigger] list@[k]
                            == list_pre[k + 1] by {}
                    }
                    let ghost all_pre = all@;
                    all.push(p);
                    proof {
                        if positive_weights(g) {
                            assert forall|p2: Seq<u64>, t: u64|
                                g.is_target(t) && t != start && #[trigger] connects(
                                    g,
                                    p2,
                                    start,
                                    t,
                                    cost as int,
                                ) implies (exists|x: int|
                                0 <= x < all@.len() && (#[trigger] all@[x])@ == p2) || (exists|
                                kk: int,
                            |
                                0 <= kk < list@.len() && (#[trigger] list@[kk])@ == p2) || (
                            exists|i: int, kk: int|
                                0 <= i < ps@.len() && 0 <= kk < ps@[i].1@.len() && (
                                #[trigger] ps@[i].1@[kk])@ == p2) by {
                                if exists|x: int|
                                    0 <= x < all_pre.len() && (#[trigger] all_pre[x])@ == p2 {
                                    let x = choose|x: int|
                                        0 <= x < all_pre.len() && (#[trigger] all_pre[x])@ == p2;
                                    assert((all@[x])@ == p2);
                                } else if exists|kk: int|
                                    0 <= kk < list_pre.len() && (#[trigger] list_pre[kk])@ == p2 {
                                    let kk = choose|kk: int|
                                        0 <= kk < list_pre.len() && (#[trigger] list_pre[kk])@
                                            == p2;
                                    if kk == 0 {
                                        assert((all@[all@.len() - 1])@ == p2);
                                    } else {
                                        assert((list@[kk - 1])@ == p2);
                                    }
                                }
                            }
                        }
                    }
                }
            }
            proof {
                if positive_weights(g) {
                    assert(covers_all_ties(g, start, cost, all@)) by {
                        assert forall|p: Seq<u64>, t: u64|
                            g.is_target(t) && t != start && #[trigger] connects(
                                g,
                                p,
                                start,
                                t,
                                cost as int,
                            ) implies exists|x: int|
                            0 <= x < all@.len() && (#[trigger] all@[x])@ == p by {}
                    }
                }
            }
            Some((cost, all))
        }
    }

    /// One entry per reachable target, in non-decreasing cost order,
    /// holding the tied minimal-cost paths known when the target was
    /// settled: entry by entry, the list follows a full all-targets
    /// report, every stored path reaching that entry's target at
    /// exactly the reported cost.  Under strictly positive weights
    /// each entry is non-empty and exhausts its target's minimal
    /// paths, so the report the entries spell out is the one the
    /// all-targets cost query describes.
    pub fn find_all_paths<G: Neighbors>(g: &G, start: u64) -> (r: Vec<(u64, Vec<Vec<u64>>)>)
        requires
            (start as nat) < g.size_bound(),
        ensures
            exists|ts: Seq<(u64, u64)>|
                all_targets_report(g, start, ts) && #[trigger] paths_report_for(g, start, ts, r@),
            forall|i: int, j: int|
                0 <= i < j < r@.len() ==> (#[trigger] r@[i]).0 <= (#[trigger] r@[j]).0,
            forall|i: int, k: int|
                0 <= i < r@.len() && 0 <= k < r@[i].1@.len() ==> {
                    let p = ((#[trigger] r@[i].1@[k]))@;
                    &&& p.len() >= 1
                    &&& g.is_target(p.last())
                    &&& p.last() != start
                    &&& connects(g, p, start, p.last(), r@[i].0 as int)
                },
            no_dup_edges(g) ==> paths_distinct(r@),
            positive_weights(g) ==> (exists|ts: Seq<(u64, u64)>|
                all_targets_report(g, start, ts) && #[trigger] paths_report_for(g, start, ts, r@)
                    && paths_full(g, start, ts, r@) && (forall|i: int|
                    0 <= i < r@.len() ==> (#[trigger] r@[i]).1@.len() >= 1 && ts[i].1
                        == r@[i].1@[0]@.last())),
    {
        let res = Self::dijkstra_core(g, start, false, true);
        proof {
            let ts = res.0@;
            let ps = res.1@;
            assert(paths_report_for(g, start, ts, ps));
            assert(all_targets_report(g, start, ts));
            if positive_weights(g) {
                assert(paths_full(g, start, ts, ps));
                assert forall|i: int|
                    0 <= i < ps.len() implies (#[trigger] ps[i]).1@.len() >= 1 && ts[i].1
                    == ps[i].1@[0]@.last() by {
                    let p = (ps[i].1@[0])@;
                    assert(connects(g, p, start, ts[i].1, ts[i].0 as int));
                    assert(p.len() >= 1) by {
                        if p.len() == 0 {
                            assert(!path_ok(g, p, ts[i].0 as int));
                        }
                    }
                    assert(p.last() == ts[i].1);
                }
            }
            assert forall|i: int, k: int|
                0 <= i < ps.len() && 0 <= k < ps[i].1@.len() implies {
                let p = ((#[trigger] ps[i].1@[k]))@;
                &&& p.len() >= 1
                &&& g.is_target(p.last())
                &&& p.last() != start
                &&& connects(g, p, start, p.last(), ps[i].0 as int)
            } by {
                let p = (ps[i].1@[k])@;
                assert(connects(g, p, start, ts[i].1, ts[i].0 as int));
                assert(p.len() >= 1) by {
                    if p.len() == 0 {
                        assert(!path_ok(g, p, ts[i].0 as int));
                    }
                }
                assert(p.last() == ts[i].1);
                assert(g.is_target(ts[i].1) && ts[i].1 != start);
            }
            assert forall|i: int, j: int|
                0 <= i < j < ps.len() implies (#[trigger] ps[i]).0 <= (#[trigger] ps[j]).0 by {
                assert(ts[i].0 <= ts[j].0);
            }
        }
        res.1
    }
}

/// Whether two graphs expose identical edges (they may flag targets
/// differently).
pub open spec fn same_edges<G: Neighbors, H: Neighbors>(g: &G, h: &H) -> bool {
    forall|n: u64| #[trigger] g.edges(n) == h.edges(n)
}

/// Paths only depend on edges, not on target flags.
proof fn lemma_path_transfer<G: Neighbors, H: Neighbors>(g: &G, h: &H, p: Seq<u64>, c: int)
    requires
        same_edges(g, h),
        path_ok(g, p, c),
    ensures
        path_ok(h, p, c),
    decreases p.len(),
{
    if p.len() >= 2 {
        let w = choose|w: u64|
            #[trigger] has_edge(g, p[p.len() - 2], p[p.len() - 1], w) && path_ok(
                g,
                p.drop_last(),
                c - w,
            );
        lemma_path_transfer(g, h, p.drop_last(), c - w);
        let j = choose|j: int|
            0 <= j < g.edges(p[p.len() - 2]).len() && #[trigger] g.edges(p[p.len() - 2])[j] == (
                w,
                p[p.len() - 1],
            );
        assert(h.edges(p[p.len() - 2])[j] == (w, p[p.len() - 1]));
        assert(has_edge(h, p[p.len() - 2], p[p.len() - 1], w));
        assert(path_ok(h, p, c));
    }
}

/// The pair `e` is one of the report's entries.
pub open spec fn report_has(ts: Seq<(u64, u64)>, e: (u64, u64)) -> bool {
    exists|j: int| 0 <= j < ts.len() && ts[j] == e
}

/// Repeating a query changes nothing but the order of ties: any two
/// full all-targets reports of the same graph and start have the same
/// length and exactly the same cost-and-target entries, so two runs of
/// the all-targets mode can differ at most in how entries of equal
/// cost are interleaved.
#[verifier::rlimit(100)]
#[verifier::spinoff_prover]
pub proof fn lemma_reports_agree<G: Neighbors>(
    g: &G,
    start: u64,
    ts1: Seq<(u64, u64)>,
    ts2: Seq<(u64, u64)>,
)
    requires
        all_targets_report(g, start, ts1),
        all_targets_report(g, start, ts2),
    ensures
        ts1.len() == ts2.len(),
        forall|i: int| 0 <= i < ts1.len() ==> report_has(ts2, #[trigger] ts1[i]),
        forall|j: int| 0 <= j < ts2.len() ==> report_has(ts1, #[trigger] ts2[j]),
{
    lemma_report_entries(g, start, ts1, ts2);
    lemma_report_entries(g, start, ts2, ts1);
    let n1 = ts1.map_values(|e: (u64, u64)| e.1);
    let n2 = ts2.map_values(|e: (u64, u64)| e.1);
    assert forall|i: int, j: int|
        0 <= i < j < n1.len() implies #[trigger] n1[i] != #[trigger] n1[j] by {
        assert(ts1[i].1 != ts1[j].1);
    }
    assert forall|i: int, j: int|
        0 <= i < j < n2.len() implies #[trigger] n2[i] != #[trigger] n2[j] by {
        assert(ts2[i].1 != ts2[j].1);
    }
    assert(n1.no_duplicates());
    assert(n2.no_duplicates());
    n1.unique_seq_to_set();
    n2.unique_seq_to_set();
    assert forall|t: u64| n1.to_set().contains(t) implies n2.to_set().contains(t) by {
        let i = choose|i: int| 0 <= i < n1.len() && n1[i] == t;
        assert(ts1[i].1 == t);
        assert(report_has(ts2, ts1[i]));
        let j = choose|j: int| 0 <= j < ts2.len() && ts2[j] == ts1[i];
        assert(n2[j] == t);
        assert(n2.contains(t));
    }
    assert forall|t: u64| n2.to_set().contains(t) implies n1.to_set().contains(t) by {
        let j = choose|j: int| 0 <= j < n2.len() && n2[j] == t;
        assert(ts2[j].1 == t);
        assert(report_has(ts1, ts2[j]));
        let i = choose|i: int| 0 <= i < ts1.len() && ts1[i] == ts2[j];
        assert(n1[i] == t);
        assert(n1.contains(t));
    }
    assert(n1.to_set() =~= n2.to_set());
}

/// Each entry of one sound-and-complete report appears in any other:
/// its target is reachable at its exact minimal cost, so the other
/// report lists that target, and minimality pins the same cost.
#[verifier::rlimit(100)]
#[verifier::spinoff_prover]
proof fn lemma_report_entries<G: Neighbors>(
    g: &G,
    start: u64,
    ts1: Seq<(u64, u64)>,
    ts2: Seq<(u64, u64)>,
)
    requires
        all_targets_report(g, start, ts1),
        all_targets_report(g, start, ts2),
    ensures
        forall|i: int| 0 <= i < ts1.len() ==> report_has(ts2, #[trigger] ts1[i]),
{
    assert forall|i: int| 0 <= i < ts1.len() implies report_has(ts2, #[trigger] ts1[i]) by {
        let c = ts1[i].0;
        let t = ts1[i].1;
        assert(has_path(g, start, t, c as int));
        let j = choose|j: int| 0 <= j < ts2.len() && (#[trigger] ts2[j]).1 == t;
        assert(has_path(g, start, t, ts2[j].0 as int));
        let p1 = choose|p: Seq<u64>| #[trigger] connects(g, p, start, t, c as int);
        let p2 = choose|p: Seq<u64>| #[trigger] connects(g, p, start, t, ts2[j].0 as int);
        assert(connects(g, p1, start, t, c as int));
        assert(connects(g, p2, start, t, ts2[j].0 as int));
        assert(no_path_below(g, start, t, c as int));
        assert(no_path_below(g, start, t, ts2[j].0 as int));
        assert(ts2[j].0 as int >= c as int);
        assert(c as int >= ts2[j].0 as int);
        assert(ts2[j].0 == c && ts2[j].1 == t);
        assert(ts2[j] == ts1[i]);
        assert(report_has(ts2, ts1[i]));
    }
}

/// Consistency between query modes: when two graphs share their edges,
/// a cost that is exact and minimal for reaching `t` in one is the
/// same as an exact minimal cost for `t` in the other.  This is what
/// ties the cost reported for a node by the all-targets mode to the
/// cost the cheapest-target mode reports when run on a graph that
/// flags that node alone.
pub proof fn lemma_mode_consistency<G: Neighbors, H: Neighbors>(
    g: &G,
    h: &H,
    start: u64,
    t: u64,
    c1: u64,
    c2: u64,
)
    requires
        same_edges(g, h),
        has_path(g, start, t, c1 as int),
        no_path_below(g, start, t, c1 as int),
        has_path(h, start, t, c2 as int),
        no_path_below(h, start, t, c2 as int),
    ensures
        c1 == c2,
{
    let p1 = choose|p: Seq<u64>| #[trigger] connects(g, p, start, t, c1 as int);
    lemma_path_transfer(g, h, p1, c1 as int);
    assert(connects(h, p1, start, t, c1 as int));
    let p2 = choose|p: Seq<u64>| #[trigger] connects(h, p, start, t, c2 as int);
    lemma_path_transfer(h, g, p2, c2 as int);
    assert(connects(g, p2, start, t, c2 as int));
}

/// The edges leaving `n` in an explicit `(from, weight, to)` edge list.
pub open spec fn edges_of(list: Seq<(u64, u64, u64)>, n: u64) -> Seq<(u64, u64)>
    decreases list.len(),
{
    if list.len() == 0 {
        Seq::empty()
    } else {
        let rest = edges_of(list.drop_last(), n);
        if list.last().0 == n {
            rest.push((list.last().1, list.last().2))
        } else {
            rest
        }
    }
}

/// A strict upper bound on every node an edge list can produce.
pub open spec fn bound_of(list: Seq<(u64, u64, u64)>) -> nat
    decreases list.len(),
{
    if list.len() == 0 {
        1
    } else {
        let rest = bound_of(list.drop_last());
        let cand = (list.last().2 as nat) + 1;
        if cand > rest {
            cand
        } else {
            rest
        }
    }
}

proof fn lemma_edges_of_bounded(list: Seq<(u64, u64, u64)>, n: u64)
    ensures
        forall|j: int|
            0 <= j < edges_of(list, n).len() ==> ((#[trigger] edges_of(list, n)[j]).1 as nat)
                < bound_of(list),
    decreases list.len(),
{
    if list.len() > 0 {
        lemma_edges_of_bounded(list.drop_last(), n);
        assert(bound_of(list) >= bound_of(list.drop_last()));
        assert(bound_of(list) >= (list.last().2 as nat) + 1);
        let rest = edges_of(list.drop_last(), n);
        assert forall|j: int|
            0 <= j < edges_of(list, n).len() implies ((#[trigger] edges_of(list, n)[j]).1 as nat)
            < bound_of(list) by {
            if list.last().0 == n {
                if j < rest.len() {
                    assert(edges_of(list, n)[j] == rest[j]);
                    assert((rest[j].1 as nat) < bound_of(list.drop_last()));
                } else {
                    assert(edges_of(list, n)[j] == (list.last().1, list.last().2));
                }
            } else {
                assert(edges_of(list, n)[j] == rest[j]);
                assert((rest[j].1 as nat) < bound_of(list.drop_last()));
            }
        }
    }
}

/// An explicit graph given by an edge list and a set of target nodes:
/// the simplest [`Neighbors`] implementation, handy for small fixture
/// graphs and tests.
pub struct EdgeList {
    pub edges: Vec<(u64, u64, u64)>,
    pub targets: Vec<u64>,
}

/// Membership in a plain node vector.
fn contains_u64(v: &Vec<u64>, x: u64) -> (r: bool)
    ensures
        r == v@.contains(x),
{
    let mut i: usize = 0;
    let mut r = false;
    while i < v.len()
        invariant
            0 <= i <= v@.len(),
            r == exists|k: int| 0 <= k < i && v@[k] == x,
        decreases v@.len() - i,
    {
        if v[i] == x {
            r = true;
            proof {
                assert(v@[i as int] == x);
            }
        }
        i = i + 1;
    }
    r
}

impl Neighbors for EdgeList {
    open spec fn edges(&self, node: u64) -> Seq<(u64, u64)> {
        edges_of(self.edges@, node)
    }

    open spec fn is_target(&self, node: u64) -> bool {
        self.targets@.contains(node)
    }

    open spec fn size_bound(&self) -> nat {
        bound_of(self.edges@)
    }

    fn next(&self, node: u64) -> (r: Vec<(u64, u64, bool)>) {
        let mut r: Vec<(u64, u64, bool)> = Vec::new();
        let mut i: usize = 0;
        while i < self.edges.len()
            invariant
                0 <= i <= self.edges@.len(),
                r@.len() == edges_of(self.edges@.take(i as int), node).len(),
                forall|x: int|
                    0 <= x < r@.len() ==> #[trigger] r@[x] == (
                        edges_of(self.edges@.take(i as int), node)[x].0,
                        edges_of(self.edges@.take(i as int), node)[x].1,
                        self.targets@.contains(edges_of(self.edges@.take(i as int), node)[x].1),
                    ),
            decreases self.edges@.len() - i,
        {
            let e = self.edges[i];
            let ghost pre = self.edges@.take(i as int);
            let ghost post = self.edges@.take(i as int + 1);
            proof {
                assert(post.drop_last() =~= pre);
                assert(post.last() == self.edges@[i as int]);
            }
            if e.0 == node {
                let flag = contains_u64(&self.targets, e.2);
                r.push((e.1, e.2, flag));
                proof {
                    assert(edges_of(post, node) =~= edges_of(pre, node).push((e.1, e.2)));
                }
            } else {
                proof {
                    assert(edges_of(post, node) =~= edges_of(pre, node));
                }
            }
            i = i + 1;
        }
        proof {
            assert(self.edges@.take(self.edges@.len() as int) =~= self.edges@);
            lemma_edges_of_bounded(self.edges@, node);
        }
        r
    }
}

} // verus!
