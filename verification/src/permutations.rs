//! Exhaustive permutation generators: plain permutations of a slice,
//! and permutations of grouped indistinguishable values.

use vstd::prelude::*;

verus! {

/// The factorial.
pub open spec fn fact(n: nat) -> nat
    decreases n,
{
    if n == 0 {
        1
    } else {
        n * fact((n - 1) as nat)
    }
}

/// Swapping two slots leaves the multiset of values unchanged.
proof fn lemma_swap_multiset<T>(s: Seq<T>, i: int, j: int)
    requires
        0 <= i < s.len(),
        0 <= j < s.len(),
    ensures
        s.update(i, s[j]).update(j, s[i]).to_multiset() == s.to_multiset(),
{
    broadcast use vstd::seq_lib::group_to_multiset_ensures;
    broadcast use vstd::multiset::group_multiset_axioms;
    broadcast use vstd::multiset::group_multiset_properties;

    let s1 = s.update(i, s[j]);
    let s2 = s1.update(j, s[i]);
    if i == j {
        assert(s2 =~= s);
    } else {
        vstd::seq_lib::to_multiset_update(s, i, s[j]);
        vstd::seq_lib::to_multiset_update(s1, j, s[i]);
        assert(s1[j] == s[j]);
        assert(s.to_multiset().contains(s[i]));
        assert(s.to_multiset().contains(s[j]));
        assert(s2.to_multiset() =~= s.to_multiset());
    }
}

pub struct Permutations {}

impl Permutations {
    /// Heap's algorithm over the first `size` slots, appending every
    /// arrangement of the whole array to `out`.
    fn perm<T: Copy>(array: &mut Vec<T>, size: usize, out: &mut Vec<Vec<T>>)
        requires
            size <= old(array)@.len(),
            size >= 1,
        ensures
            final(array)@.len() == old(array)@.len(),
            final(array)@.to_multiset() == old(array)@.to_multiset(),
            forall|q: int|
                size <= q < old(array)@.len() ==> final(array)@[q] == old(array)@[q],
            final(out)@.len() == old(out)@.len() + fact(size as nat),
            forall|k: int|
                0 <= k < old(out)@.len() ==> #[trigger] final(out)@[k] == old(out)@[k],
            forall|k: int|
                old(out)@.len() <= k < final(out)@.len() ==> (#[trigger] final(out)@[k])@.len()
                    == old(array)@.len() && final(out)@[k]@.to_multiset()
                    == old(array)@.to_multiset(),
            forall|k: int, q: int|
                old(out)@.len() <= k < final(out)@.len() && size <= q < old(array)@.len()
                    ==> #[trigger] (final(out)@[k])@[q] == old(array)@[q],
        decreases size,
    {
        if size == 1 {
            out.push(copy_items(array));
            proof {
                assert(fact(1) == 1) by {
                    assert(fact(1) == 1 * fact(0));
                }
                assert(out@.last()@ == array@);
            }
            return ;
        }
        let mut i: usize = 0;
        let ghost base = out@.len();
        let ghost n = array@.len();
        let ghost arr0 = array@;
        while i < size
            invariant
                1 < size <= n,
                n == array@.len(),
                0 <= i <= size,
                array@.to_multiset() == arr0.to_multiset(),
                forall|q: int| size <= q < n ==> array@[q] == arr0[q],
                out@.len() == base + i * fact((size - 1) as nat),
                forall|k: int| 0 <= k < base ==> #[trigger] out@[k] == old(out)@[k],
                forall|k: int|
                    base <= k < out@.len() ==> (#[trigger] out@[k])@.len() == n && out@[k]@.to_multiset()
                        == arr0.to_multiset(),
                forall|k: int, q: int|
                    base <= k < out@.len() && size <= q < n ==> #[trigger] (out@[k])@[q] == arr0[q],
            decreases size - i,
        {
            let ghost before = out@.len();
            let ghost acall = array@;
            Self::perm(array, size - 1, out);
            proof {
                assert(out@.len() == before + fact((size - 1) as nat));
                assert((i + 1) * fact((size - 1) as nat) == i * fact((size - 1) as nat) + fact(
                    (size - 1) as nat,
                )) by (nonlinear_arith);
            }
            let ghost aswap = array@;
            if size % 2 == 1 {
                let a = array[0];
                let b = array[size - 1];
                array.set(0, b);
                array.set(size - 1, a);
                proof {
                    lemma_swap_multiset(aswap, 0, size - 1);
                }
            } else {
                let a = array[i];
                let b = array[size - 1];
                array.set(i, b);
                array.set(size - 1, a);
                proof {
                    lemma_swap_multiset(aswap, i as int, size - 1);
                }
            }
            i = i + 1;
        }
        proof {
            assert(size * fact((size - 1) as nat) == fact(size as nat)) by {
                assert(fact(size as nat) == size * fact((size - 1) as nat));
            }
        }
    }

    /// Every arrangement of the array, in Heap's order.  The array
    /// itself is left in whatever order the walk ends with.
    pub fn iter<T: Copy>(array: &mut Vec<T>) -> (r: Vec<Vec<T>>)
        requires
            old(array)@.len() >= 1,
        ensures
            final(array)@.len() == old(array)@.len(),
            final(array)@.to_multiset() == old(array)@.to_multiset(),
            r@.len() == fact(old(array)@.len()),
            forall|k: int|
                0 <= k < r@.len() ==> (#[trigger] r@[k])@.len() == old(array)@.len()
                    && r@[k]@.to_multiset() == old(array)@.to_multiset(),
    {
        let mut out: Vec<Vec<T>> = Vec::new();
        let size = array.len();
        Self::perm(array, size, &mut out);
        out
    }

    /// Every arrangement that keeps the last element in place.
    pub fn iter_skip_last<T: Copy>(array: &mut Vec<T>) -> (r: Vec<Vec<T>>)
        requires
            old(array)@.len() >= 2,
        ensures
            final(array)@.len() == old(array)@.len(),
            final(array)@.to_multiset() == old(array)@.to_multiset(),
            final(array)@[old(array)@.len() - 1] == old(array)@[old(array)@.len() - 1],
            r@.len() == fact((old(array)@.len() - 1) as nat),
            forall|k: int|
                0 <= k < r@.len() ==> (#[trigger] r@[k])@.len() == old(array)@.len()
                    && r@[k]@.to_multiset() == old(array)@.to_multiset() && r@[k]@[old(
                    array,
                )@.len() - 1] == old(array)@[old(array)@.len() - 1],
    {
        let mut out: Vec<Vec<T>> = Vec::new();
        let size = array.len() - 1;
        Self::perm(array, size, &mut out);
        out
    }
}

/// A plain copy of a vector of copyable values.
fn copy_items<T: Copy>(v: &Vec<T>) -> (r: Vec<T>)
    ensures
        r@ =~= v@,
{
    let mut r: Vec<T> = Vec::new();
    let mut i: usize = 0;
    while i < v.len()
        invariant
            0 <= i <= v@.len(),
            r@ =~= v@.take(i as int),
        decreases v@.len() - i,
    {
        r.push(v[i]);
        i = i + 1;
    }
    proof {
        assert(v@.take(v@.len() as int) =~= v@);
    }
    r
}

/// One stretch of equal slots in a group's occupancy pattern: either
/// slots filled with the group's value or a gap left for later groups.
#[derive(Clone, Copy, Debug)]
pub enum Span {
    Filled(usize),
    Gap(usize),
}

/// The number of slots a span covers.
pub open spec fn span_len(s: Span) -> nat {
    match s {
        Span::Filled(n) => n as nat,
        Span::Gap(n) => n as nat,
    }
}

/// The number of slots a whole pattern covers.
pub open spec fn spans_sum(s: Seq<Span>) -> nat
    decreases s.len(),
{
    if s.len() == 0 {
        0
    } else {
        spans_sum(s.drop_last()) + span_len(s.last())
    }
}

/// One group's walking state: where its copies currently sit.
struct Group<T: Copy> {
    spans: Vec<Span>,
    v: T,
}

impl<T: Copy> Group<T> {
    spec fn wf(&self) -> bool {
        &&& self.spans@.len() >= 1
        &&& spans_sum(self.spans@) <= 0x1000_0000
    }

    /// A fresh pattern: a gap over the later groups' slots, then this
    /// group's copies packed at the end.
    fn new(v: T, len: usize, total_len: usize) -> (r: Self)
        requires
            len <= total_len,
            total_len <= 0x1000_0000,
        ensures
            r.wf(),
    {
        let mut spans: Vec<Span> = Vec::new();
        if total_len != len {
            spans.push(Span::Gap(total_len - len));
        }
        spans.push(Span::Filled(len));
        proof {
            if total_len != len {
                lemma_spans_sum2(spans@);
                assert(spans_sum(spans@) == total_len);
            } else {
                assert(spans@.drop_last() =~= Seq::<Span>::empty());
                assert(spans@.last() == Span::Filled(len));
                assert(spans_sum(spans@.drop_last()) == 0);
                assert(spans_sum(spans@) == len);
            }
        }
        Group { spans, v }
    }

    /// Advance the pattern; true when it wrapped back to the start.
    fn next(&mut self) -> (wrapped: bool)
        requires
            old(self).wf(),
        ensures
            final(self).wf(),
            final(self).v == old(self).v,
    {
        if self.spans.len() == 1 {
            true
        } else if self.spans.len() == 2 && matches!(self.spans[0], Span::Filled(_)) {
            // the copies reached the front: wrap around
            let a = self.spans[0];
            let b = self.spans[1];
            self.spans.set(0, b);
            self.spans.set(1, a);
            proof {
                lemma_spans_sum2(old(self).spans@);
                lemma_spans_sum2(self.spans@);
            }
            true
        } else {
            let idx = self.spans.len() - 1;
            span_step(&mut self.spans, idx, 0);
            false
        }
    }
}

/// The slot count of a two-element pattern, spelled out.
proof fn lemma_spans_sum2(s: Seq<Span>)
    requires
        s.len() == 2,
    ensures
        spans_sum(s) == span_len(s[0]) + span_len(s[1]),
{
    let single = seq![s[0]];
    assert(s.drop_last() =~= single);
    assert(single.drop_last() =~= Seq::<Span>::empty());
    assert(spans_sum(single.drop_last()) == 0);
    assert(single.last() == s[0]);
    assert(spans_sum(single) == span_len(s[0]));
}

/// Replacing one span changes the slot count by the length difference.
proof fn lemma_sum_update(s: Seq<Span>, i: int, x: Span)
    requires
        0 <= i < s.len(),
    ensures
        spans_sum(s.update(i, x)) + span_len(s[i]) == spans_sum(s) + span_len(x),
    decreases s.len(),
{
    let s2 = s.update(i, x);
    if i == s.len() - 1 {
        assert(s2.drop_last() =~= s.drop_last());
        assert(s2.last() == x);
    } else {
        assert(s2.drop_last() =~= s.drop_last().update(i, x));
        assert(s2.last() == s.last());
        lemma_sum_update(s.drop_last(), i, x);
        assert(s.drop_last()[i] == s[i]);
    }
}

/// A prefix covers no more slots than the whole.
proof fn lemma_sum_take(s: Seq<Span>, k: int)
    requires
        0 <= k <= s.len(),
    ensures
        spans_sum(s.take(k)) <= spans_sum(s),
    decreases s.len(),
{
    if k == s.len() {
        assert(s.take(k) =~= s);
    } else {
        assert(s.drop_last().take(k) =~= s.take(k));
        lemma_sum_take(s.drop_last(), k);
    }
}

/// Appending a span adds its length to the count.
proof fn lemma_sum_push(s: Seq<Span>, x: Span)
    ensures
        spans_sum(s.push(x)) == spans_sum(s) + span_len(x),
{
    assert(s.push(x).drop_last() =~= s);
}

/// Move one filled slot one stretch forward, sending everything behind
/// it back to the tail; the workhorse of the pattern walk.
fn span_step(spans: &mut Vec<Span>, idx: usize, extra: usize)
    requires
        1 <= idx < old(spans)@.len(),
        spans_sum(old(spans)@) + extra <= 0x1000_0000,
    ensures
        final(spans)@.len() >= 1,
        spans_sum(final(spans)@) <= spans_sum(old(spans)@) + extra,
    decreases idx,
{
    let ghost sum0 = spans_sum(spans@);
    let slen = spans.len();
    proof {
        assert(idx < slen);
    }
    let prev = spans[idx - 1];
    let here = spans[idx];
    match (prev, here) {
        (Span::Gap(n), Span::Filled(s)) => {
            if n == 0 || s == 0 {
                // zero-width stretches cannot arise in a real pattern
                return ;
            }
            proof {
                lemma_spans_sum_bound(spans@, idx - 1);
                lemma_spans_sum_bound(spans@, idx as int);
            }
            if n > 1 {
                proof {
                    lemma_sum_update(spans@, idx - 1, Span::Gap((n - 1) as usize));
                }
                spans.set(idx - 1, Span::Gap(n - 1));
                proof {
                    lemma_spans_sum_bound(spans@, idx as int);
                    lemma_sum_update(spans@, idx as int, Span::Filled(1));
                }
                spans.set(idx, Span::Filled(1));
                proof {
                    lemma_sum_take(spans@, idx + 1);
                    assert(spans@.take(idx + 1) =~= spans@.take(idx + 1));
                }
                let ghost pre_trunc = spans@;
                spans.truncate(idx + 1);
                proof {
                    assert(spans@ =~= pre_trunc.take(idx + 1));
                    // one gap slot and most of the filled run were given up
                    assert(spans_sum(spans@) + s <= sum0);
                }
            } else if idx > 1 {
                if let Span::Filled(a) = spans[idx - 2] {
                    proof {
                        lemma_spans_sum_bound(spans@, idx - 2);
                        lemma_sum_update(spans@, idx - 2, Span::Filled((a + 1) as usize));
                    }
                    spans.set(idx - 2, Span::Filled(a + 1));
                    proof {
                        lemma_sum_take_elem2(spans@, idx - 1, idx - 1, idx as int);
                        assert(span_len(spans@[idx - 1]) == n);
                        assert(span_len(spans@[idx as int]) == s);
                    }
                    let ghost pre_trunc = spans@;
                    spans.truncate(idx - 1);
                    proof {
                        assert(spans@ =~= pre_trunc.take(idx - 1));
                        assert(spans_sum(spans@) + s <= sum0 + 1 - n);
                        assert(spans_sum(spans@) + s <= sum0);
                    }
                } else {
                    // the pattern alternates, so this cannot happen;
                    // leave the state unchanged rather than fail
                    return ;
                }
            } else {
                proof {
                    lemma_sum_take_elem(spans@, 1, idx as int);
                    assert(span_len(spans@[idx as int]) == s);
                }
                let ghost pre_trunc = spans@;
                spans.truncate(1);
                proof {
                    assert(spans@ =~= pre_trunc.take(1));
                    lemma_sum_update(spans@, 0, Span::Filled(1));
                    assert(spans@[0] == pre_trunc[0]);
                    assert(span_len(spans@[0]) == n);
                }
                spans.set(0, Span::Filled(1));
                proof {
                    // n is 1 here, so the swap keeps the count
                    assert(spans_sum(spans@) + s <= sum0);
                }
            }
            let ghost mid = spans@;
            proof {
                lemma_sum_push(spans@, Span::Gap((extra + 1) as usize));
            }
            spans.push(Span::Gap(extra + 1));
            if s > 1 {
                proof {
                    lemma_sum_push(spans@, Span::Filled((s - 1) as usize));
                }
                spans.push(Span::Filled(s - 1));
            }
        }
        (Span::Filled(_), Span::Gap(n)) => {
            if idx < 2 {
                // a pattern never begins with a gap followed by the end
                return ;
            }
            proof {
                lemma_spans_sum_bound(spans@, idx as int);
                lemma_sum_update(spans@, idx as int, Span::Gap(0));
            }
            spans.set(idx, Span::Gap(0));
            span_step(spans, idx - 1, n + extra);
        }
        _ => {
            // adjacent spans of the same kind cannot arise; keep the
            // state unchanged rather than fail
        }
    }
}

/// A prefix plus any one dropped span still fits the total.
proof fn lemma_sum_take_elem(s: Seq<Span>, k: int, j: int)
    requires
        0 <= k <= j < s.len(),
    ensures
        spans_sum(s.take(k)) + span_len(s[j]) <= spans_sum(s),
    decreases s.len(),
{
    if j == s.len() - 1 {
        assert(s.drop_last().take(k) =~= s.take(k));
        lemma_sum_take(s.drop_last(), k);
    } else {
        assert(s.drop_last().take(k) =~= s.take(k));
        assert(s.drop_last()[j] == s[j]);
        lemma_sum_take_elem(s.drop_last(), k, j);
    }
}

/// A prefix plus any two dropped spans still fit the total.
proof fn lemma_sum_take_elem2(s: Seq<Span>, k: int, j1: int, j2: int)
    requires
        0 <= k <= j1 < j2 < s.len(),
    ensures
        spans_sum(s.take(k)) + span_len(s[j1]) + span_len(s[j2]) <= spans_sum(s),
    decreases s.len(),
{
    if j2 == s.len() - 1 {
        assert(s.drop_last().take(k) =~= s.take(k));
        assert(s.drop_last()[j1] == s[j1]);
        lemma_sum_take_elem(s.drop_last(), k, j1);
    } else {
        assert(s.drop_last().take(k) =~= s.take(k));
        assert(s.drop_last()[j1] == s[j1]);
        assert(s.drop_last()[j2] == s[j2]);
        lemma_sum_take_elem2(s.drop_last(), k, j1, j2);
    }
}

/// Any single span counts into the total.
proof fn lemma_spans_sum_bound(s: Seq<Span>, i: int)
    requires
        0 <= i < s.len(),
    ensures
        span_len(s[i]) <= spans_sum(s),
    decreases s.len(),
{
    if i == s.len() - 1 {
    } else {
        lemma_spans_sum_bound(s.drop_last(), i);
        assert(s.drop_last()[i] == s[i]);
    }
}

/// Walks every distinct arrangement of groups of identical values
/// over a row of slots.
pub struct GroupedPermutations<T: Copy> {
    groups: Vec<Group<T>>,
    next_vec: Vec<T>,
    next_spans: Vec<(usize, Span, T)>,
    done: bool,
}

/// The summed slot counts of a group list.
pub open spec fn counts_sum<T>(gs: Seq<(T, usize)>) -> int
    decreases gs.len(),
{
    if gs.len() == 0 {
        0
    } else {
        counts_sum(gs.drop_last()) + gs.last().1
    }
}

/// Slot counts cannot be negative.
proof fn lemma_counts_nonneg<T>(gs: Seq<(T, usize)>)
    ensures
        counts_sum(gs) >= 0,
    decreases gs.len(),
{
    if gs.len() > 0 {
        lemma_counts_nonneg(gs.drop_last());
    }
}

/// A prefix never sums to more than the whole list.
proof fn lemma_counts_prefix<T>(gs: Seq<(T, usize)>, i: int)
    requires
        0 <= i <= gs.len(),
    ensures
        counts_sum(gs.take(i)) <= counts_sum(gs),
    decreases gs.len() - i,
{
    if i == gs.len() {
        assert(gs.take(i) =~= gs);
    } else {
        lemma_counts_prefix(gs, i + 1);
        assert(gs.take(i + 1).drop_last() =~= gs.take(i));
        assert(counts_sum(gs.take(i + 1)) == counts_sum(gs.take(i)) + gs[i].1);
    }
}

impl<T: Copy> GroupedPermutations<T> {
    /// The walker's internal patterns are consistent.
    pub closed spec fn wf(&self) -> bool {
        &&& forall|i: int| 0 <= i < self.groups@.len() ==> (#[trigger] self.groups@[i]).wf()
        &&& self.next_spans@.len() == self.groups@.len()
        &&& self.groups@.len() >= 1
    }

    /// A walker over the arrangements of the given groups, each pair
    /// being a value and how many copies of it fill the row.
    pub fn new(groups: &Vec<(T, usize)>) -> (r: Self)
        requires
            groups@.len() >= 1,
            counts_sum(groups@) <= 0x1000_0000,
        ensures
            r.wf(),
            r.width() == counts_sum(groups@),
    {
        let glen = groups.len();
        let mut total_len: usize = 0;
        let mut i: usize = 0;
        proof {
            assert(groups@.take(0) =~= Seq::<(T, usize)>::empty());
        }
        while i < glen
            invariant
                0 <= i <= glen,
                glen == groups@.len(),
                counts_sum(groups@) <= 0x1000_0000,
                total_len == counts_sum(groups@.take(i as int)),
            decreases glen - i,
        {
            proof {
                lemma_counts_prefix(groups@, i + 1);
                assert(groups@.take(i + 1).drop_last() =~= groups@.take(i as int));
                assert(counts_sum(groups@.take(i + 1)) == counts_sum(groups@.take(i as int))
                    + groups@[i as int].1);
                assert(counts_sum(groups@.take(i as int)) >= 0) by {
                    lemma_counts_nonneg(groups@.take(i as int));
                }
                lemma_counts_nonneg(groups@.take(i + 1));
            }
            total_len = total_len + groups[i].1;
            i = i + 1;
        }
        proof {
            assert(groups@.take(glen as int) =~= groups@);
        }
        let first_v = groups[0].0;
        let next_vec = fill_vec(first_v, total_len);

        let mut left = total_len;
        let mut gs: Vec<Group<T>> = Vec::new();
        let mut gi: usize = 0;
        while gi < groups.len()
            invariant
                0 <= gi <= groups@.len(),
                forall|k: int| 0 <= k < gs@.len() ==> (#[trigger] gs@[k]).wf(),
                left <= total_len,
                total_len <= 0x1000_0000,
            decreases groups@.len() - gi,
        {
            let len = groups[gi].1;
            if len <= left {
                gs.push(Group::new(groups[gi].0, len, left));
                left = left - len;
            } else {
                gs.push(Group::new(groups[gi].0, 0, left));
            }
            gi = gi + 1;
        }
        let mut rev: Vec<Group<T>> = Vec::new();
        while gs.len() > 0
            invariant
                forall|k: int| 0 <= k < rev@.len() ==> (#[trigger] rev@[k]).wf(),
                forall|k: int| 0 <= k < gs@.len() ==> (#[trigger] gs@[k]).wf(),
            decreases gs@.len(),
        {
            let ghost pre = gs@;
            let g = gs.pop();
            match g {
                Some(g) => {
                    proof {
                        assert(g == pre[pre.len() - 1]);
                    }
                    rev.push(g);
                }
                None => {
                }
            }
        }
        if rev.len() == 0 {
            // groups is non-empty, so at least one pattern exists
            rev.push(Group::new(first_v, 0, 0));
        }
        let mut next_spans: Vec<(usize, Span, T)> = Vec::new();
        let mut si: usize = 0;
        while si < rev.len()
            invariant
                0 <= si <= rev@.len(),
                next_spans@.len() == si,
                forall|k: int| 0 <= k < rev@.len() ==> (#[trigger] rev@[k]).wf(),
            decreases rev@.len() - si,
        {
            let v = rev[si].v;
            next_spans.push((0, Span::Gap(0), v));
            si = si + 1;
        }
        GroupedPermutations { groups: rev, next_vec, next_spans, done: false }
    }

    /// Advance every group's pattern, odometer style.
    fn tick(&mut self)
        requires
            old(self).wf(),
        ensures
            final(self).wf(),
            final(self).next_vec@.len() == old(self).next_vec@.len(),
    {
        let mut i: usize = 0;
        while i < self.groups.len()
            invariant
                self.wf(),
                self.next_vec@.len() == old(self).next_vec@.len(),
                0 <= i <= self.groups@.len(),
            decreases self.groups@.len() - i,
        {
            let ghost pre = self.groups@;
            let mut g = self.groups.remove(i);
            let wrapped = g.next();
            self.groups.insert(i, g);
            proof {
                assert forall|k: int|
                    0 <= k < self.groups@.len() implies (#[trigger] self.groups@[k]).wf() by {
                    if k < i {
                        assert(self.groups@[k] == pre[k]);
                    } else if k > i {
                        assert(self.groups@[k] == pre[k]);
                    }
                }
            }
            if !wrapped {
                return ;
            }
            i = i + 1;
        }
        self.done = true;
    }

    /// The number of slots each arrangement fills.
    pub closed spec fn width(&self) -> nat {
        self.next_vec@.len()
    }

    /// The walk has wrapped: nothing more will be produced.
    pub closed spec fn finished(&self) -> bool {
        self.done
    }

    /// The next arrangement, or `None` once the walk has wrapped.
    pub fn next_permutation(&mut self) -> (r: Option<Vec<T>>)
        requires
            old(self).wf(),
        ensures
            final(self).wf(),
            r matches Some(v) ==> v@.len() == old(self).width(),
            final(self).width() == old(self).width(),
            old(self).finished() ==> r is None && *final(self) == *old(self),
            r is None ==> final(self).finished(),
    {
        if self.done {
            return None;
        }
        let glen = self.groups.len();
        let mut i: usize = 0;
        while i < glen
            invariant
                self.wf(),
                old(self).done == false,
                glen == self.groups@.len(),
                self.next_vec@.len() == old(self).next_vec@.len(),
                0 <= i <= glen,
            decreases glen - i,
        {
            let v = self.groups[i].v;
            let first = self.groups[i].spans[0];
            self.next_spans.set(i, (0, first, v));
            i = i + 1;
        }
        let vlen = self.next_vec.len();
        let mut vi: usize = 0;
        while vi < vlen
            invariant
                self.wf(),
                old(self).done == false,
                glen == self.groups@.len(),
                vlen == self.next_vec@.len(),
                self.next_vec@.len() == old(self).next_vec@.len(),
                0 <= vi <= vlen,
            decreases vlen - vi,
        {
            let mut gi: usize = glen;
            let mut placed = false;
            while gi > 0 && !placed
                invariant
                    self.wf(),
                    old(self).done == false,
                    glen == self.groups@.len(),
                    vlen == self.next_vec@.len(),
                    self.next_vec@.len() == old(self).next_vec@.len(),
                    0 <= gi <= glen,
                    vi < vlen,
                decreases gi,
            {
                gi = gi - 1;
                let (mut span_idx, mut span, v) = self.next_spans[gi];
                if matches!(span, Span::Filled(0)) || matches!(span, Span::Gap(0)) {
                    // this stretch is exhausted: fetch the next one
                    let slen2 = self.groups[gi].spans.len();
                    proof {
                        assert(self.groups@[gi as int].wf());
                    }
                    if span_idx < slen2 - 1 {
                        span_idx = span_idx + 1;
                        span = self.groups[gi].spans[span_idx];
                    } else {
                        // a malformed pattern cannot fill the row
                        self.done = true;
                        return None;
                    }
                }
                match span {
                    Span::Gap(n) => {
                        if n >= 1 {
                            self.next_spans.set(gi, (span_idx, Span::Gap(n - 1), v));
                        } else {
                            self.next_spans.set(gi, (span_idx, Span::Gap(0), v));
                        }
                    }
                    Span::Filled(n) => {
                        if n >= 1 {
                            self.next_spans.set(gi, (span_idx, Span::Filled(n - 1), v));
                        } else {
                            self.next_spans.set(gi, (span_idx, Span::Filled(0), v));
                        }
                        self.next_vec.set(vi, v);
                        placed = true;
                    }
                }
            }
            vi = vi + 1;
        }
        self.tick();
        Some(copy_items(&self.next_vec))
    }
}

/// A vector holding `n` copies of one value.
fn fill_vec<T: Copy>(v: T, n: usize) -> (r: Vec<T>)
    ensures
        r@.len() == n,
{
    let mut r: Vec<T> = Vec::new();
    let mut i: usize = 0;
    while i < n
        invariant
            0 <= i <= n,
            r@.len() == i,
        decreases n - i,
    {
        r.push(v);
        i = i + 1;
    }
    r
}

} // verus!
