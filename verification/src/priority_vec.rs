//! A priority queue of values grouped into cost buckets, popped
//! cheapest bucket first and newest value first within a bucket.

use vstd::prelude::*;

verus! {

/// One cost bucket.
pub struct PriorityBucket<T> {
    pub key: u64,
    pub items: Vec<T>,
}

/// Buckets with strictly increasing keys, none empty.
pub struct PriorityVec<T> {
    pub buckets: Vec<PriorityBucket<T>>,
}

impl<T> PriorityVec<T> {
    pub open spec fn wf(&self) -> bool {
        &&& forall|i: int, j: int|
            0 <= i < j < self.buckets@.len() ==> #[trigger] self.buckets@[i].key
                < #[trigger] self.buckets@[j].key
        &&& forall|i: int|
            0 <= i < self.buckets@.len() ==> #[trigger] self.buckets@[i].items@.len() > 0
    }

    /// The values stored under key `k`, oldest first.
    pub open spec fn at_key(&self, k: u64) -> Seq<T> {
        if exists|i: int| 0 <= i < self.buckets@.len() && (#[trigger] self.buckets@[i].key) == k {
            let i = choose|i: int|
                0 <= i < self.buckets@.len() && (#[trigger] self.buckets@[i].key) == k;
            self.buckets@[i].items@
        } else {
            Seq::empty()
        }
    }

    pub fn new() -> (r: Self)
        ensures
            r.wf(),
            r.buckets@.len() == 0,
    {
        PriorityVec { buckets: Vec::new() }
    }

    /// File `t` under key `k`.
    pub fn insert(&mut self, k: u64, t: T)
        requires
            old(self).wf(),
        ensures
            final(self).wf(),
            final(self).at_key(k) =~= old(self).at_key(k).push(t),
            forall|k2: u64| k2 != k ==> final(self).at_key(k2) =~= old(self).at_key(k2),
    {
        let ghost pre = *self;
        let mut i: usize = 0;
        while i < self.buckets.len() && self.buckets[i].key < k
            invariant
                *self == pre,
                0 <= i <= self.buckets@.len(),
                forall|x: int| 0 <= x < i ==> #[trigger] self.buckets@[x].key < k,
            decreases self.buckets@.len() - i,
        {
            i = i + 1;
        }
        if i < self.buckets.len() && self.buckets[i].key == k {
            let mut b = self.buckets.remove(i);
            b.items.push(t);
            self.buckets.insert(i, b);
            proof {
                lemma_pv_update(pre, *self, i as int, k, t);
            }
        } else {
            let mut items: Vec<T> = Vec::new();
            items.push(t);
            let ghost mid = *self;
            self.buckets.insert(i, PriorityBucket { key: k, items });
            proof {
                lemma_pv_new_bucket(pre, *self, i as int, k, t);
            }
        }
    }

    /// Remove and return the newest value of the cheapest bucket.
    pub fn pop(&mut self) -> (r: Option<(u64, T)>)
        requires
            old(self).wf(),
        ensures
            final(self).wf(),
            old(self).buckets@.len() == 0 ==> r is None && *final(self) == *old(self),
            old(self).buckets@.len() > 0 ==> {
                let k = old(self).buckets@[0].key;
                &&& r matches Some(p) && p.0 == k && p.1 == old(self).at_key(k).last()
                &&& final(self).at_key(k) =~= old(self).at_key(k).drop_last()
                &&& forall|k2: u64| k2 != k ==> final(self).at_key(k2) =~= old(self).at_key(k2)
                &&& (forall|i: int|
                    0 <= i < old(self).buckets@.len() ==> k <= (#[trigger] old(
                        self,
                    ).buckets@[i]).key)
            },
    {
        if self.buckets.len() == 0 {
            return None;
        }
        let ghost pre = *self;
        let mut b = self.buckets.remove(0);
        let k = b.key;
        let t_opt = b.items.pop();
        match t_opt {
            None => {
                proof {
                    assert(false);
                }
                None
            }
            Some(t) => {
                if b.items.len() > 0 {
                    self.buckets.insert(0, b);
                }
                proof {
                    lemma_pv_pop(pre, *self, k, t);
                }
                Some((k, t))
            }
        }
    }
}

/// After appending to the bucket at `i`, only key `k` changed.
proof fn lemma_pv_update<T>(pre: PriorityVec<T>, post: PriorityVec<T>, i: int, k: u64, t: T)
    requires
        pre.wf(),
        0 <= i < pre.buckets@.len(),
        pre.buckets@[i].key == k,
        post.buckets@.len() == pre.buckets@.len(),
        forall|x: int|
            0 <= x < pre.buckets@.len() && x != i ==> #[trigger] post.buckets@[x]
                == pre.buckets@[x],
        post.buckets@[i].key == k,
        post.buckets@[i].items@ =~= pre.buckets@[i].items@.push(t),
    ensures
        post.wf(),
        post.at_key(k) =~= pre.at_key(k).push(t),
        forall|k2: u64| k2 != k ==> post.at_key(k2) =~= pre.at_key(k2),
{
    assert forall|x: int, y: int|
        0 <= x < y < post.buckets@.len() implies #[trigger] post.buckets@[x].key
        < #[trigger] post.buckets@[y].key by {
        assert(post.buckets@[x].key == pre.buckets@[x].key);
        assert(post.buckets@[y].key == pre.buckets@[y].key);
    }
    assert forall|x: int|
        0 <= x < post.buckets@.len() implies #[trigger] post.buckets@[x].items@.len() > 0 by {
        if x != i {
            assert(post.buckets@[x] == pre.buckets@[x]);
        }
    }
    lemma_pv_key_unique(pre, i, k);
    lemma_pv_key_unique(post, i, k);
    assert forall|k2: u64| k2 != k implies post.at_key(k2) =~= pre.at_key(k2) by {
        lemma_pv_same_lookup(pre, post, k2, i);
    }
}

/// The bucket holding key `k` is unique, so `at_key` reads it.
proof fn lemma_pv_key_unique<T>(v: PriorityVec<T>, i: int, k: u64)
    requires
        v.wf(),
        0 <= i < v.buckets@.len(),
        v.buckets@[i].key == k,
    ensures
        v.at_key(k) == v.buckets@[i].items@,
{
    let j = choose|j: int| 0 <= j < v.buckets@.len() && (#[trigger] v.buckets@[j].key) == k;
    if j != i {
        if j < i {
            assert(v.buckets@[j].key < v.buckets@[i].key);
        } else {
            assert(v.buckets@[i].key < v.buckets@[j].key);
        }
    }
}

/// Keys other than the changed one look up the same bucket.
proof fn lemma_pv_same_lookup<T>(
    pre: PriorityVec<T>,
    post: PriorityVec<T>,
    k2: u64,
    i: int,
)
    requires
        pre.wf(),
        post.wf(),
        post.buckets@.len() == pre.buckets@.len(),
        0 <= i < pre.buckets@.len(),
        forall|x: int|
            0 <= x < pre.buckets@.len() && x != i ==> #[trigger] post.buckets@[x]
                == pre.buckets@[x],
        k2 != pre.buckets@[i].key,
        k2 != post.buckets@[i].key,
    ensures
        post.at_key(k2) =~= pre.at_key(k2),
{
    if exists|x: int| 0 <= x < pre.buckets@.len() && (#[trigger] pre.buckets@[x].key) == k2 {
        let x = choose|x: int| 0 <= x < pre.buckets@.len() && (#[trigger] pre.buckets@[x].key) == k2;
        assert(x != i);
        assert(post.buckets@[x] == pre.buckets@[x]);
        lemma_pv_key_unique(pre, x, k2);
        lemma_pv_key_unique(post, x, k2);
    } else {
        if exists|x: int| 0 <= x < post.buckets@.len() && (#[trigger] post.buckets@[x].key) == k2 {
            let x = choose|x: int|
                0 <= x < post.buckets@.len() && (#[trigger] post.buckets@[x].key) == k2;
            assert(x != i);
            assert(post.buckets@[x] == pre.buckets@[x]);
        }
    }
}

/// A new bucket at its sorted place.
proof fn lemma_pv_new_bucket<T>(pre: PriorityVec<T>, post: PriorityVec<T>, i: int, k: u64, t: T)
    requires
        pre.wf(),
        0 <= i <= pre.buckets@.len(),
        forall|x: int| 0 <= x < i ==> #[trigger] pre.buckets@[x].key < k,
        forall|x: int| i <= x < pre.buckets@.len() ==> #[trigger] pre.buckets@[x].key > k,
        post.buckets@.len() == pre.buckets@.len() + 1,
        forall|x: int| 0 <= x < i ==> #[trigger] post.buckets@[x] == pre.buckets@[x],
        forall|x: int|
            i < x < post.buckets@.len() ==> #[trigger] post.buckets@[x] == pre.buckets@[x - 1],
        post.buckets@[i].key == k,
        post.buckets@[i].items@ =~= seq![t],
    ensures
        post.wf(),
        post.at_key(k) =~= pre.at_key(k).push(t),
        forall|k2: u64| k2 != k ==> post.at_key(k2) =~= pre.at_key(k2),
{
    assert forall|x: int, y: int|
        0 <= x < y < post.buckets@.len() implies #[trigger] post.buckets@[x].key
        < #[trigger] post.buckets@[y].key by {
        if x < i && y < i {
            assert(post.buckets@[x] == pre.buckets@[x]);
            assert(post.buckets@[y] == pre.buckets@[y]);
        } else if x < i && y > i {
            assert(post.buckets@[x] == pre.buckets@[x]);
            assert(post.buckets@[y] == pre.buckets@[y - 1]);
        } else if x < i && y == i {
            assert(post.buckets@[x] == pre.buckets@[x]);
        } else if x == i {
            assert(i < y < post.buckets@.len());
            assert(post.buckets@[y] == pre.buckets@[y - 1]);
            assert(pre.buckets@[y - 1].key > k);
        } else {
            assert(i < x < post.buckets@.len());
            assert(i < y < post.buckets@.len());
            assert(post.buckets@[x] == pre.buckets@[x - 1]);
            assert(post.buckets@[y] == pre.buckets@[y - 1]);
            assert(0 <= x - 1 < y - 1 < pre.buckets@.len());
            assert(pre.buckets@[x - 1].key < pre.buckets@[y - 1].key);
        }
    }
    assert forall|x: int|
        0 <= x < post.buckets@.len() implies #[trigger] post.buckets@[x].items@.len() > 0 by {
        if x < i {
            assert(post.buckets@[x] == pre.buckets@[x]);
        } else if x > i {
            assert(post.buckets@[x] == pre.buckets@[x - 1]);
        }
    }
    lemma_pv_key_unique(post, i, k);
    // k was absent before
    if exists|x: int| 0 <= x < pre.buckets@.len() && (#[trigger] pre.buckets@[x].key) == k {
        let x = choose|x: int| 0 <= x < pre.buckets@.len() && (#[trigger] pre.buckets@[x].key) == k;
    }
    assert(pre.at_key(k) =~= Seq::<T>::empty());
    assert forall|k2: u64| k2 != k implies post.at_key(k2) =~= pre.at_key(k2) by {
        if exists|x: int| 0 <= x < pre.buckets@.len() && (#[trigger] pre.buckets@[x].key) == k2 {
            let x = choose|x: int|
                0 <= x < pre.buckets@.len() && (#[trigger] pre.buckets@[x].key) == k2;
            lemma_pv_key_unique(pre, x, k2);
            if x < i {
                assert(post.buckets@[x] == pre.buckets@[x]);
                lemma_pv_key_unique(post, x, k2);
            } else {
                assert(post.buckets@[x + 1] == pre.buckets@[x]);
                lemma_pv_key_unique(post, x + 1, k2);
            }
        } else {
            if exists|x: int| 0 <= x < post.buckets@.len() && (#[trigger] post.buckets@[x].key)
                == k2 {
                let x = choose|x: int|
                    0 <= x < post.buckets@.len() && (#[trigger] post.buckets@[x].key) == k2;
                if x < i {
                    assert(pre.buckets@[x].key == k2);
                } else if x > i {
                    assert(pre.buckets@[x - 1].key == k2);
                }
            }
        }
    }
}

/// Popping takes the newest value of the cheapest bucket.
proof fn lemma_pv_pop<T>(pre: PriorityVec<T>, post: PriorityVec<T>, k: u64, t: T)
    requires
        pre.wf(),
        pre.buckets@.len() > 0,
        k == pre.buckets@[0].key,
        t == pre.buckets@[0].items@.last(),
        pre.buckets@[0].items@.len() > 1 ==> post.buckets@.len() == pre.buckets@.len()
            && post.buckets@[0].key == k && post.buckets@[0].items@ =~= pre.buckets@[0].items@.drop_last()
            && (forall|x: int|
            1 <= x < pre.buckets@.len() ==> #[trigger] post.buckets@[x] == pre.buckets@[x]),
        pre.buckets@[0].items@.len() == 1 ==> post.buckets@ =~= pre.buckets@.remove(0),
    ensures
        post.wf(),
        pre.at_key(k) == pre.buckets@[0].items@,
        post.at_key(k) =~= pre.at_key(k).drop_last(),
        forall|k2: u64| k2 != k ==> post.at_key(k2) =~= pre.at_key(k2),
        forall|i: int| 0 <= i < pre.buckets@.len() ==> k <= (#[trigger] pre.buckets@[i]).key,
{
    lemma_pv_key_unique(pre, 0, k);
    assert forall|i: int| 0 <= i < pre.buckets@.len() implies k
        <= (#[trigger] pre.buckets@[i]).key by {
        if i > 0 {
            assert(pre.buckets@[0].key < pre.buckets@[i].key);
        }
    }
    if pre.buckets@[0].items@.len() > 1 {
        assert forall|x: int, y: int|
            0 <= x < y < post.buckets@.len() implies #[trigger] post.buckets@[x].key
            < #[trigger] post.buckets@[y].key by {
            if x == 0 {
                assert(post.buckets@[y] == pre.buckets@[y]);
            } else {
                assert(post.buckets@[x] == pre.buckets@[x]);
                assert(post.buckets@[y] == pre.buckets@[y]);
            }
        }
        assert forall|x: int|
            0 <= x < post.buckets@.len() implies #[trigger] post.buckets@[x].items@.len() > 0 by {
            if x > 0 {
                assert(post.buckets@[x] == pre.buckets@[x]);
            }
        }
        lemma_pv_key_unique(post, 0, k);
        assert forall|k2: u64| k2 != k implies post.at_key(k2) =~= pre.at_key(k2) by {
            lemma_pv_same_lookup(pre, post, k2, 0);
        }
    } else {
        assert forall|x: int, y: int|
            0 <= x < y < post.buckets@.len() implies #[trigger] post.buckets@[x].key
            < #[trigger] post.buckets@[y].key by {
            assert(post.buckets@[x] == pre.buckets@[x + 1]);
            assert(post.buckets@[y] == pre.buckets@[y + 1]);
        }
        assert forall|x: int|
            0 <= x < post.buckets@.len() implies #[trigger] post.buckets@[x].items@.len() > 0 by {
            assert(post.buckets@[x] == pre.buckets@[x + 1]);
        }
        assert(post.at_key(k) =~= Seq::<T>::empty()) by {
            if exists|x: int| 0 <= x < post.buckets@.len() && (#[trigger] post.buckets@[x].key)
                == k {
                let x = choose|x: int|
                    0 <= x < post.buckets@.len() && (#[trigger] post.buckets@[x].key) == k;
                assert(post.buckets@[x] == pre.buckets@[x + 1]);
                assert(pre.buckets@[0].key < pre.buckets@[x + 1].key);
            }
        }
        assert(pre.at_key(k).drop_last() =~= Seq::<T>::empty());
        assert forall|k2: u64| k2 != k implies post.at_key(k2) =~= pre.at_key(k2) by {
            if exists|x: int| 0 <= x < pre.buckets@.len() && (#[trigger] pre.buckets@[x].key)
                == k2 {
                let x = choose|x: int|
                    0 <= x < pre.buckets@.len() && (#[trigger] pre.buckets@[x].key) == k2;
                assert(x != 0);
                assert(post.buckets@[x - 1] == pre.buckets@[x]);
                lemma_pv_key_unique(pre, x, k2);
                lemma_pv_key_unique(post, x - 1, k2);
            } else {
                if exists|x: int| 0 <= x < post.buckets@.len() && (#[trigger] post.buckets@[x].key)
                    == k2 {
                    let x = choose|x: int|
                        0 <= x < post.buckets@.len() && (#[trigger] post.buckets@[x].key) == k2;
                    assert(pre.buckets@[x + 1].key == k2);
                }
            }
        }
    }
}

} // verus!
