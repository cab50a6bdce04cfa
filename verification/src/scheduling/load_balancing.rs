//! Balancing ready tasks across CPUs: how many tasks each CPU should hold, and which moves
//! from overloaded to underloaded CPUs get there.

use vstd::prelude::*;
use super::task::Task;

verus! {

/// Shortest interval between two balancing passes, in nanoseconds (500 ms).
pub const REBALANCE_INTERVAL: u64 = 500_000_000;

/// A move of `count` ready tasks from CPU `src` to CPU `dst`.
#[derive(Debug, Clone, Copy, PartialEq, Eq, Structural)]
pub struct Transfer {
    pub src: usize,
    pub dst: usize,
    pub count: usize,
}

/// The sum of `s`.
pub open spec fn sum(s: Seq<int>) -> int
    decreases s.len(),
{
    if s.len() == 0 { 0 } else { sum(s.drop_last()) + s.last() }
}

/// How many tasks CPU `cpu` of `cpus` should hold when there are `total`: an even share, the
/// first `total % cpus` CPUs taking one more.
pub open spec fn target(total: int, cpus: int, cpu: int) -> int {
    total / cpus + if cpu < total % cpus { 1int } else { 0int }
}

/// The task counts after the moves `ts`, in order.
pub open spec fn apply(c: Seq<int>, ts: Seq<Transfer>) -> Seq<int>
    decreases ts.len(),
{
    if ts.len() == 0 {
        c
    } else {
        let p = apply(c, ts.drop_last());
        let t = ts.last();
        p.update(t.src as int, p[t.src as int] - t.count).update(t.dst as int, p[t.dst as int] + t.count)
    }
}

/// Each move takes tasks that its source holds at that point.
pub open spec fn feasible(c: Seq<int>, ts: Seq<Transfer>) -> bool
    decreases ts.len(),
{
    if ts.len() == 0 {
        true
    } else {
        let t = ts.last();
        &&& feasible(c, ts.drop_last())
        &&& t.src < c.len() && t.dst < c.len() && t.src != t.dst && t.count > 0
        &&& apply(c, ts.drop_last())[t.src as int] >= t.count
    }
}

/// The counts as integers.
pub open spec fn as_ints(c: Seq<usize>) -> Seq<int> {
    c.map_values(|x: usize| x as int)
}

/// Whether a balancing pass is due at `now`, the last one having run at `last`.
pub fn rebalance_due(now: u64, last: u64) -> (r: bool)
    requires
        last <= now,
    ensures
        r == (now - last >= REBALANCE_INTERVAL),
{
    !(now - last < REBALANCE_INTERVAL)
}

proof fn lemma_sum_update(s: Seq<int>, i: int, v: int)
    requires
        0 <= i < s.len(),
    ensures
        sum(s.update(i, v)) == sum(s) - s[i] + v,
    decreases s.len(),
{
    if i < s.len() - 1 {
        lemma_sum_update(s.drop_last(), i, v);
        assert(s.update(i, v).drop_last() =~= s.drop_last().update(i, v));
    } else {
        assert(s.update(i, v).drop_last() =~= s.drop_last());
    }
}

proof fn lemma_sum_nonpos_zero(s: Seq<int>)
    requires
        sum(s) == 0,
        forall|i: int| 0 <= i < s.len() ==> s[i] <= 0,
    ensures
        forall|i: int| 0 <= i < s.len() ==> s[i] == 0,
    decreases s.len(),
{
    if s.len() > 0 {
        lemma_sum_upper(s.drop_last());
        lemma_sum_nonpos_zero(s.drop_last());
        assert forall|i: int| 0 <= i < s.len() implies s[i] == 0 by {
            if i < s.len() - 1 { assert(s.drop_last()[i] == s[i]); }
        }
    }
}

proof fn lemma_sum_upper(s: Seq<int>)
    requires
        forall|i: int| 0 <= i < s.len() ==> s[i] <= 0,
    ensures
        sum(s) <= 0,
    decreases s.len(),
{
    if s.len() > 0 {
        lemma_sum_upper(s.drop_last());
    }
}

proof fn lemma_sum_lower(s: Seq<int>)
    requires
        forall|i: int| 0 <= i < s.len() ==> s[i] >= 0,
    ensures
        sum(s) >= 0,
    decreases s.len(),
{
    if s.len() > 0 {
        lemma_sum_lower(s.drop_last());
    }
}

proof fn lemma_sum_nonneg_zero(s: Seq<int>)
    requires
        sum(s) == 0,
        forall|i: int| 0 <= i < s.len() ==> s[i] >= 0,
    ensures
        forall|i: int| 0 <= i < s.len() ==> s[i] == 0,
    decreases s.len(),
{
    if s.len() > 0 {
        lemma_sum_lower(s.drop_last());
        lemma_sum_nonneg_zero(s.drop_last());
        assert forall|i: int| 0 <= i < s.len() implies s[i] == 0 by {
            if i < s.len() - 1 { assert(s.drop_last()[i] == s[i]); }
        }
    }
}

/// The targets of all CPUs add up to the total.
proof fn lemma_targets_sum(total: int, cpus: int, k: int)
    requires
        cpus > 0,
        total >= 0,
        0 <= k <= cpus,
    ensures
        sum(Seq::new(k as nat, |i: int| target(total, cpus, i)))
            == k * (total / cpus) + if k < total % cpus { k } else { total % cpus },
    decreases k,
{
    let sq = Seq::new(k as nat, |i: int| target(total, cpus, i));
    if k > 0 {
        lemma_targets_sum(total, cpus, k - 1);
        assert(sq.drop_last() =~= Seq::new((k - 1) as nat, |i: int| target(total, cpus, i)));
        assert(sq.last() == target(total, cpus, k - 1));
        let q = total / cpus;
        let r = total % cpus;
        assert(k * q == (k - 1) * q + q) by (nonlinear_arith);
        assert(sum(sq) == sum(sq.drop_last()) + sq.last());
        assert((if k < r { k } else { r }) == (if k - 1 < r { k - 1 } else { r }) + (if k - 1 < r { 1int } else { 0int }));
    } else {
        assert(sq =~= Seq::<int>::empty());
    }
}

/// The moves that even out the ready queues of CPUs holding `counts` tasks: each CPU ends with
/// its target (see [`target`]), each move takes tasks its source holds at that point, and the
/// moves pair the overloaded CPUs with the underloaded ones, lowest first. With a single CPU or
/// no task at all there is nothing to move.
pub fn rebalance_plan(counts: &[usize]) -> (r: Vec<Transfer>)
    requires
        sum(as_ints(counts@)) <= isize::MAX,
    ensures
        feasible(as_ints(counts@), r@),
        counts@.len() <= 1 ==> r@.len() == 0,
        sum(as_ints(counts@)) == 0 ==> r@.len() == 0,
        counts@.len() > 1 ==> forall|i: int| 0 <= i < counts@.len() ==>
            #[trigger] apply(as_ints(counts@), r@)[i] == target(sum(as_ints(counts@)), counts@.len() as int, i),
{
    let n = counts.len();
    let ghost c = as_ints(counts@);
    proof { lemma_as_ints(counts@); }
    let mut plan: Vec<Transfer> = Vec::new();
    if n <= 1 {
        return plan;
    }
    let mut total: usize = 0;
    let mut i: usize = 0;
    while i < n
        invariant
            n == counts@.len(),
            c == as_ints(counts@),
            c.len() == n,
            forall|j: int| 0 <= j < n ==> #[trigger] c[j] == counts@[j] && c[j] >= 0,
            sum(c) <= isize::MAX,
            i <= n,
            total == sum(c.subrange(0, i as int)),
        decreases n - i,
    {
        proof {
            assert(c.subrange(0, i + 1).drop_last() =~= c.subrange(0, i as int));
            assert(c.subrange(0, i + 1).last() == c[i as int]);
            lemma_sum_split(c, i + 1);
        }
        total = total + counts[i];
        i = i + 1;
    }
    assert(c.subrange(0, n as int) =~= c);
    if total == 0 {
        proof {
            lemma_sum_nonneg_zero(c);
            assert(plan@ =~= Seq::<Transfer>::empty());
            assert(apply(c, plan@) == c);
            assert forall|k: int| 0 <= k < n implies #[trigger] apply(c, plan@)[k] == target(sum(c), n as int, k) by {
                assert(c[k] == 0);
                vstd::arithmetic::div_mod::lemma_small_mod(0, n as nat);
                assert(0int / (n as int) == 0) by (nonlinear_arith) requires n > 0;
            }
        }
        return plan;
    }
    let base = total / n;
    let rem = total % n;
    proof {
        vstd::arithmetic::div_mod::lemma_fundamental_div_mod(total as int, n as int);
        assert forall|k: int| 0 <= k < n implies 0 <= #[trigger] target(total as int, n as int, k) <= total by {
            assert(base * n + rem == total);
            assert(base <= base * n) by (nonlinear_arith) requires n > 1, base >= 0;
        }
    }
    let mut surplus: Vec<isize> = Vec::new();
    let mut cpu: usize = 0;
    while cpu < n
        invariant
            n == counts@.len(),
            n > 1,
            c == as_ints(counts@),
            total == sum(c),
            total <= isize::MAX,
            base == total / n,
            rem == total % n,
            cpu <= n,
            c.len() == n,
            forall|j: int| 0 <= j < n ==> #[trigger] c[j] == counts@[j] && c[j] >= 0,
            surplus@.len() == cpu,
            forall|k: int| 0 <= k < cpu ==> #[trigger] surplus@[k] == c[k] - target(total as int, n as int, k),
            forall|k: int| 0 <= k < n ==> 0 <= #[trigger] target(total as int, n as int, k) <= total,
        decreases n - cpu,
    {
        let t = base + if cpu < rem { 1usize } else { 0usize };
        proof {
            assert(c[cpu as int] <= total) by { lemma_elem_le_sum(c, cpu as int); }
            assert(t == target(total as int, n as int, cpu as int));
        }
        surplus.push(counts[cpu] as isize - t as isize);
        cpu = cpu + 1;
    }
    proof {
        lemma_targets_sum(total as int, n as int, n as int);
        vstd::arithmetic::div_mod::lemma_fundamental_div_mod(total as int, n as int);
        assert(n * (total / n) == (total / n) * n) by (nonlinear_arith);
        let tg = Seq::new(n as nat, |i: int| target(total as int, n as int, i));
        lemma_sum_diff(c, tg, surplus@.map_values(|x: isize| x as int));
    }
    let mut src: usize = 0;
    let mut dst: usize = 0;
    while src < n && dst < n
        invariant
            n == counts@.len(),
            n > 1,
            c == as_ints(counts@),
            total == sum(c),
            surplus@.len() == n,
            src <= n,
            dst <= n,
            sum(surplus@.map_values(|x: isize| x as int)) == 0,
            forall|k: int| 0 <= k < src ==> #[trigger] surplus@[k] <= 0,
            forall|k: int| 0 <= k < dst ==> #[trigger] surplus@[k] >= 0,
            forall|k: int| 0 <= k < n ==> #[trigger] apply(c, plan@)[k]
                == target(total as int, n as int, k) + surplus@[k],
            forall|k: int| 0 <= k < n ==> target(total as int, n as int, k) >= 0 && #[trigger] surplus@[k] <= c[k]
                && surplus@[k] >= -isize::MAX,
            apply(c, plan@).len() == n,
            feasible(c, plan@),
        decreases 2 * n - src - dst,
    {
        while src < n && surplus[src] <= 0
            invariant
                surplus@.len() == n,
                src <= n,
                forall|k: int| 0 <= k < src ==> #[trigger] surplus@[k] <= 0,
            decreases n - src,
        {
            src = src + 1;
        }
        while dst < n && surplus[dst] >= 0
            invariant
                surplus@.len() == n,
                dst <= n,
                forall|k: int| 0 <= k < dst ==> #[trigger] surplus@[k] >= 0,
            decreases n - dst,
        {
            dst = dst + 1;
        }
        if src < n && dst < n {
        let a = surplus[src];
        let b = -surplus[dst];
        let m = if a < b { a } else { b };
        let ghost before = surplus@.map_values(|x: isize| x as int);
        let ghost p = plan@;
        plan.push(Transfer { src, dst, count: m as usize });
        surplus.set(src, a - m);
        let d = surplus[dst];
        surplus.set(dst, d + m);
        proof {
            assert(plan@.drop_last() =~= p);
            lemma_sum_update(before, src as int, a - m);
            lemma_sum_update(before.update(src as int, a - m), dst as int, d + m);
            assert(surplus@.map_values(|x: isize| x as int) =~= before.update(src as int, a - m).update(dst as int, d + m));
        }
        if surplus[src] == 0 {
            src = src + 1;
        } else {
            dst = dst + 1;
        }
        }
    }
    proof {
        let s = surplus@.map_values(|x: isize| x as int);
        if src >= n {
            assert forall|k: int| 0 <= k < n implies s[k] <= 0 by { assert(surplus@[k] <= 0); }
            lemma_sum_nonpos_zero(s);
        } else {
            assert forall|k: int| 0 <= k < n implies s[k] >= 0 by { assert(surplus@[k] >= 0); }
            lemma_sum_nonneg_zero(s);
        }
        assert forall|k: int| 0 <= k < n implies #[trigger] surplus@[k] == 0 by { assert(s[k] == surplus@[k]); }
    }
    plan
}

proof fn lemma_as_ints(c: Seq<usize>)
    ensures
        as_ints(c).len() == c.len(),
        forall|j: int| 0 <= j < c.len() ==> #[trigger] as_ints(c)[j] == c[j] && as_ints(c)[j] >= 0,
{
}

proof fn lemma_sum_split(s: Seq<int>, k: int)
    requires
        0 <= k <= s.len(),
        forall|i: int| 0 <= i < s.len() ==> s[i] >= 0,
    ensures
        sum(s.subrange(0, k)) <= sum(s),
    decreases s.len() - k,
{
    if k < s.len() {
        lemma_sum_split(s, k + 1);
        assert(s.subrange(0, k + 1).drop_last() =~= s.subrange(0, k));
        assert(s.subrange(0, k + 1).last() == s[k]);
    } else {
        assert(s.subrange(0, k) =~= s);
    }
}

proof fn lemma_elem_le_sum(s: Seq<int>, i: int)
    requires
        0 <= i < s.len(),
        forall|j: int| 0 <= j < s.len() ==> s[j] >= 0,
    ensures
        s[i] <= sum(s),
    decreases s.len(),
{
    lemma_sum_lower(s.drop_last());
    if i < s.len() - 1 {
        lemma_elem_le_sum(s.drop_last(), i);
    }
}

proof fn lemma_sum_diff(a: Seq<int>, b: Seq<int>, d: Seq<int>)
    requires
        a.len() == b.len(),
        d.len() == a.len(),
        forall|i: int| 0 <= i < a.len() ==> #[trigger] d[i] == a[i] - b[i],
    ensures
        sum(d) == sum(a) - sum(b),
    decreases a.len(),
{
    if a.len() > 0 {
        lemma_sum_diff(a.drop_last(), b.drop_last(), d.drop_last());
    }
}

/// Moves `n` ready tasks from `src` to `dst`: the last task of `src` is taken first and lands
/// first, so the moved tasks keep no order but the one their popping gives.
pub fn move_tasks(src: &mut Vec<Task>, dst: &mut Vec<Task>, n: usize)
    requires
        n <= old(src)@.len(),
    ensures
        final(src)@ == old(src)@.subrange(0, old(src)@.len() - n),
        final(dst)@ == old(dst)@ + old(src)@.subrange(old(src)@.len() - n, old(src)@.len() as int).reverse(),
        final(src)@.to_multiset().add(final(dst)@.to_multiset()) == old(src)@.to_multiset().add(old(dst)@.to_multiset()),
{
    let ghost s0 = src@;
    let ghost d0 = dst@;
    let ghost len = s0.len();
    let mut k: usize = 0;
    proof {
        assert(s0.subrange(len - 0, len as int).reverse() =~= Seq::<Task>::empty());
        assert(d0 + Seq::<Task>::empty() =~= d0);
        assert(s0.subrange(0, len - 0) =~= s0);
    }
    while k < n
        invariant
            k <= n,
            n <= len,
            len == s0.len(),
            src@ == s0.subrange(0, len - k),
            dst@ == d0 + s0.subrange(len - k, len as int).reverse(),
        decreases n - k,
    {
        let t = src.pop().unwrap();
        dst.push(t);
        k = k + 1;
        proof {
            assert(src@ =~= s0.subrange(0, len - k));
            assert(s0.subrange(len - k, len as int).reverse() =~= s0.subrange(len - (k - 1), len as int).reverse().push(t));
            assert(dst@ =~= d0 + s0.subrange(len - k, len as int).reverse());
        }
    }
    proof {
        let cut = len - n;
        let moved = s0.subrange(cut, len as int);
        assert(s0 =~= s0.subrange(0, cut) + moved);
        vstd::seq_lib::lemma_multiset_commutative(s0.subrange(0, cut), moved);
        vstd::seq_lib::lemma_multiset_commutative(d0, moved.reverse());
        lemma_reverse_multiset(moved);
        assert(src@.to_multiset().add(dst@.to_multiset()) =~= s0.to_multiset().add(d0.to_multiset()));
    }
}

/// Reversing keeps the elements.
proof fn lemma_reverse_multiset(s: Seq<Task>)
    ensures
        s.reverse().to_multiset() == s.to_multiset(),
    decreases s.len(),
{
    broadcast use vstd::seq_lib::group_to_multiset_ensures;
    if s.len() > 0 {
        let t = s.drop_first();
        lemma_reverse_multiset(t);
        assert(s.reverse() =~= t.reverse().push(s[0]));
        assert(s =~= seq![s[0]] + t);
        vstd::seq_lib::lemma_multiset_commutative(seq![s[0]], t);
        assert(seq![s[0]].to_multiset() =~= vstd::multiset::Multiset::singleton(s[0])) by {
            assert(seq![s[0]] =~= Seq::<Task>::empty().push(s[0]));
        }
        assert(s.reverse().to_multiset() =~= s.to_multiset());
    } else {
        assert(s.reverse() =~= s);
    }
}


/// The ready queues as sequences of tasks.
pub open spec fn queue_seqs(qs: Seq<Vec<Task>>) -> Seq<Seq<Task>> {
    qs.map_values(|q: Vec<Task>| q@)
}

/// The number of tasks each queue holds.
pub open spec fn queue_lens(qs: Seq<Vec<Task>>) -> Seq<int> {
    qs.map_values(|q: Vec<Task>| q@.len() as int)
}

/// Every task of the queues `qs`, with multiplicity.
pub open spec fn all_tasks(qs: Seq<Seq<Task>>) -> vstd::multiset::Multiset<Task>
    decreases qs.len(),
{
    if qs.len() == 0 {
        vstd::multiset::Multiset::empty()
    } else {
        all_tasks(qs.drop_last()).add(qs.last().to_multiset())
    }
}

/// Replacing queue `i` by `a` trades its tasks for those of `a`.
proof fn lemma_all_tasks_update(qs: Seq<Seq<Task>>, i: int, a: Seq<Task>)
    requires
        0 <= i < qs.len(),
    ensures
        all_tasks(qs.update(i, a)).add(qs[i].to_multiset()) == all_tasks(qs).add(a.to_multiset()),
    decreases qs.len(),
{
    broadcast use vstd::multiset::group_multiset_axioms;
    let u = qs.update(i, a);
    if i == qs.len() - 1 {
        assert(u.drop_last() =~= qs.drop_last());
        assert(all_tasks(u).add(qs[i].to_multiset()) =~= all_tasks(qs).add(a.to_multiset()));
    } else {
        lemma_all_tasks_update(qs.drop_last(), i, a);
        assert(u.drop_last() =~= qs.drop_last().update(i, a));
        assert(u.last() == qs.last());
        assert(qs.drop_last()[i] == qs[i]);
        let d = all_tasks(qs.drop_last().update(i, a));
        assert(all_tasks(u) == d.add(qs.last().to_multiset()));
        assert(all_tasks(qs) == all_tasks(qs.drop_last()).add(qs.last().to_multiset()));
        let dd = all_tasks(qs.drop_last());
        assert forall|x: Task| #[trigger] all_tasks(u).add(qs[i].to_multiset()).count(x)
            == all_tasks(qs).add(a.to_multiset()).count(x) by {
            assert(d.add(qs[i].to_multiset()).count(x) == dd.add(a.to_multiset()).count(x));
        }
        assert(all_tasks(u).add(qs[i].to_multiset()) =~= all_tasks(qs).add(a.to_multiset()));
    }
}

/// Moves `t.count` tasks from queue `t.src` to queue `t.dst` (see [`move_tasks`]); no task is
/// lost or made twice.
fn apply_transfer(queues: &mut Vec<Vec<Task>>, t: Transfer)
    requires
        t.src < old(queues)@.len(),
        t.dst < old(queues)@.len(),
        t.src != t.dst,
        t.count <= old(queues)@[t.src as int]@.len(),
    ensures
        final(queues)@.len() == old(queues)@.len(),
        queue_lens(final(queues)@) == queue_lens(old(queues)@).update(t.src as int, old(queues)@[t.src as int]@.len() - t.count)
            .update(t.dst as int, old(queues)@[t.dst as int]@.len() + t.count),
        all_tasks(queue_seqs(final(queues)@)) == all_tasks(queue_seqs(old(queues)@)),
{
    let ghost q0 = queue_seqs(queues@);
    let mut a: Vec<Task> = Vec::new();
    let mut b: Vec<Task> = Vec::new();
    std::mem::swap(&mut a, &mut queues[t.src]);
    std::mem::swap(&mut b, &mut queues[t.dst]);
    let ghost a0 = a@;
    let ghost b0 = b@;
    move_tasks(&mut a, &mut b, t.count);
    let ghost mid = queues@;
    std::mem::swap(&mut a, &mut queues[t.src]);
    std::mem::swap(&mut b, &mut queues[t.dst]);
    proof {
        let q1 = q0.update(t.src as int, a0.subrange(0, a0.len() - t.count));
        let newa = a0.subrange(0, a0.len() - t.count);
        let newb = queue_seqs(queues@)[t.dst as int];
        assert(queue_seqs(queues@) =~= q1.update(t.dst as int, newb));
        lemma_all_tasks_update(q0, t.src as int, newa);
        lemma_all_tasks_update(q1, t.dst as int, newb);
        assert(q1[t.dst as int] == b0);
        assert(q0[t.src as int] == a0);
        let m0 = all_tasks(q0);
        let m2 = all_tasks(queue_seqs(queues@));
        assert(newa.to_multiset().add(newb.to_multiset()) == a0.to_multiset().add(b0.to_multiset()));
        assert(m2.add(b0.to_multiset()).add(a0.to_multiset()) =~= m0.add(newa.to_multiset()).add(newb.to_multiset()));
        assert(m2 =~= m0) by {
            assert forall|x: Task| m2.count(x) == m0.count(x) by {
                assert(m2.add(b0.to_multiset()).add(a0.to_multiset()).count(x)
                    == m0.add(newa.to_multiset()).add(newb.to_multiset()).count(x));
                assert(newa.to_multiset().add(newb.to_multiset()).count(x) == a0.to_multiset().add(b0.to_multiset()).count(x));
            }
        }
        assert(queue_lens(queues@) =~= queue_lens(old(queues)@).update(t.src as int, old(queues)@[t.src as int]@.len() - t.count)
            .update(t.dst as int, old(queues)@[t.dst as int]@.len() + t.count));
    }
}

/// One balancing pass over ready queues that are all at hand: the moves of [`rebalance_plan`]
/// carried out in order. No task is lost or duplicated, and with more than one queue each
/// queue ends with its target share (see [`target`]); one queue, or no task, moves nothing.
pub fn rebalance_queues(queues: &mut Vec<Vec<Task>>)
    requires
        sum(queue_lens(old(queues)@)) <= isize::MAX,
    ensures
        final(queues)@.len() == old(queues)@.len(),
        all_tasks(queue_seqs(final(queues)@)) == all_tasks(queue_seqs(old(queues)@)),
        old(queues)@.len() > 1 ==> forall|i: int| 0 <= i < old(queues)@.len() ==>
            #[trigger] final(queues)@[i]@.len() == target(sum(queue_lens(old(queues)@)), old(queues)@.len() as int, i),
        old(queues)@.len() <= 1 || sum(queue_lens(old(queues)@)) == 0 ==> final(queues)@ == old(queues)@,
{
    let mut counts: Vec<usize> = Vec::new();
    let mut k: usize = 0;
    while k < queues.len()
        invariant
            k <= queues@.len(),
            counts@.len() == k,
            forall|j: int| 0 <= j < k ==> #[trigger] counts@[j] == queues@[j]@.len(),
        decreases queues@.len() - k,
    {
        counts.push(queues[k].len());
        k = k + 1;
    }
    proof {
        assert(as_ints(counts@) =~= queue_lens(queues@));
    }
    let plan = rebalance_plan(&counts);
    let ghost c = queue_lens(queues@);
    let ghost m0 = all_tasks(queue_seqs(queues@));
    let ghost q0 = queues@;
    let mut i: usize = 0;
    while i < plan.len()
        invariant
            i <= plan@.len(),
            c == queue_lens(q0),
            q0 == old(queues)@,
            feasible(c, plan@),
            queues@.len() == q0.len(),
            queue_lens(queues@) == apply(c, plan@.subrange(0, i as int)),
            all_tasks(queue_seqs(queues@)) == m0,
            m0 == all_tasks(queue_seqs(q0)),
            plan@.len() == 0 ==> queues@ == q0,
        decreases plan@.len() - i,
    {
        let t = plan[i];
        proof {
            lemma_feasible_prefix(c, plan@, i as int + 1);
            assert(plan@.subrange(0, i + 1).drop_last() =~= plan@.subrange(0, i as int));
            assert(plan@.subrange(0, i + 1).last() == t);
            assert(queue_lens(queues@)[t.src as int] == queues@[t.src as int]@.len());
        }
        apply_transfer(queues, t);
        i = i + 1;
    }
    proof {
        assert(plan@.subrange(0, plan@.len() as int) =~= plan@);
        if q0.len() > 1 {
            assert forall|j: int| 0 <= j < q0.len() implies
                #[trigger] queues@[j]@.len() == target(sum(c), q0.len() as int, j) by {
                assert(queue_lens(queues@)[j] == queues@[j]@.len());
            }
        }
    }
}

/// The moves before a feasible sequence's `k`-th are feasible too.
proof fn lemma_feasible_prefix(c: Seq<int>, ts: Seq<Transfer>, k: int)
    requires
        0 <= k <= ts.len(),
        feasible(c, ts),
    ensures
        feasible(c, ts.subrange(0, k)),
    decreases ts.len() - k,
{
    if k == ts.len() {
        assert(ts.subrange(0, k) =~= ts);
    } else {
        lemma_feasible_prefix(c, ts, k + 1);
        assert(ts.subrange(0, k + 1).drop_last() =~= ts.subrange(0, k));
    }
}

} // verus!
