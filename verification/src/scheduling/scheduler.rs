//! The per-CPU scheduler: at each timer tick it saves the running task's stack pointer, sends
//! the sleeping tasks through their queues again, and switches to the next ready task.

use vstd::prelude::*;
use std::collections::VecDeque;
use vstd::multiset::Multiset;
use super::task::{Task, TaskState, queue_of};

verus! {

broadcast use vstd::seq_lib::group_to_multiset_ensures;

/// The tasks of `s` that belong in queue `q`, taken from the last to the first.
pub open spec fn picked(s: Seq<Task>, q: int) -> Seq<Task>
    decreases s.len(),
{
    if s.len() == 0 {
        Seq::empty()
    } else {
        let r = picked(s.drop_first(), q);
        if queue_of(s[0].state) == q { r.push(s[0]) } else { r }
    }
}

/// The scheduler's state as plain sequences: the running task, then the ready, terminated and
/// sleeping queues.
pub struct SchedView {
    pub curr: Task,
    pub ready: Seq<Task>,
    pub terminate: Seq<Task>,
    pub sleep: Seq<Task>,
}

/// The state after the sleeping tasks have been sent through their queues again: the ready and
/// terminated ones leave, the others come back in reverse order.
pub open spec fn after_wake(v: SchedView) -> SchedView {
    SchedView {
        curr: v.curr,
        ready: v.ready + picked(v.sleep, 0),
        terminate: v.terminate + picked(v.sleep, 2),
        sleep: picked(v.sleep, 1),
    }
}

/// The state after task `t` has been put in the queue of its state.
pub open spec fn enqueue(v: SchedView, t: Task) -> SchedView {
    match t.state {
        TaskState::Ready => SchedView { ready: v.ready.push(t), ..v },
        TaskState::Terminate => SchedView { terminate: v.terminate.push(t), ..v },
        TaskState::Wait(_) => SchedView { sleep: v.sleep.push(t), ..v },
    }
}

/// One tick from state `v`, the running task having stopped at `old_sp`: the sleeping tasks
/// are sent through their queues, then the running task keeps the processor if it is ready and
/// nothing else is; otherwise the first ready task (or the idle task when there is none) runs
/// and the stopped task joins the queue of its state.
pub open spec fn tick(v: SchedView, old_sp: usize, idle: Task) -> SchedView {
    let w = after_wake(SchedView { curr: Task { sp: old_sp, ..v.curr }, ..v });
    if w.ready.len() == 0 && w.curr.state == TaskState::Ready {
        w
    } else {
        let next = if w.ready.len() > 0 { w.ready[0] } else { idle };
        let rest = if w.ready.len() > 0 { w.ready.drop_first() } else { w.ready };
        enqueue(SchedView { curr: next, ready: rest, ..w }, w.curr)
    }
}

/// Every task the state holds: the running one, then the queues.
pub open spec fn all_tasks(v: SchedView) -> Seq<Task> {
    seq![v.curr] + v.ready + v.terminate + v.sleep
}

/// The identities of the tasks the state holds.
pub open spec fn all_ids(v: SchedView) -> Multiset<u64> {
    all_tasks(v).map_values(|t: Task| t.id).to_multiset()
}

/// A sleeping task's wake-up time must be expressible in nanoseconds.
pub open spec fn wait_times_fit(s: Seq<Task>) -> bool {
    forall|i: int| 0 <= i < s.len() ==> (#[trigger] s[i].state matches TaskState::Wait(t) ==> t.nanos() <= u64::MAX)
}

/// The scheduler of one CPU.
pub struct Scheduler {
    curr: Task,
    ready: VecDeque<Task>,
    terminate: Vec<Task>,
    sleep: Vec<Task>,
}

impl Scheduler {
    /// The state of the scheduler.
    pub closed spec fn view_state(&self) -> SchedView {
        SchedView { curr: self.curr, ready: self.ready@, terminate: self.terminate@, sleep: self.sleep@ }
    }

    /// A scheduler running `idle`, with empty queues.
    pub fn new(idle: &Task) -> (r: Self)
        ensures
            r.view_state() == (SchedView { curr: *idle, ready: Seq::empty(), terminate: Seq::empty(), sleep: Seq::empty() }),
    {
        Self { curr: *idle, ready: VecDeque::new(), terminate: Vec::new(), sleep: Vec::new() }
    }

    /// Queues `t` at the back of the ready queue.
    pub fn add_task(&mut self, t: Task)
        ensures
            final(self).view_state() == (SchedView { ready: old(self).view_state().ready.push(t), ..old(self).view_state() }),
    {
        self.ready.push_back(t)
    }

    /// The task running now.
    pub fn current(&self) -> (r: Task)
        ensures
            r == self.view_state().curr,
    {
        self.curr
    }

    /// Puts `task` in the queue of its state.
    fn move_to_queue(&mut self, task: Task)
        ensures
            final(self).view_state() == enqueue(old(self).view_state(), task),
    {
        match task.state {
            TaskState::Ready => self.ready.push_back(task),
            TaskState::Terminate => self.terminate.push(task),
            TaskState::Wait(_) => self.sleep.push(task),
        }
    }

    /// Sends every sleeping task through the queue of its state again, from the last to the first.
    fn wake_sleepers(&mut self, now: u64)
        requires
            wait_times_fit(old(self).sleep@),
        ensures
            final(self).view_state() == after_wake(old(self).view_state()),
    {
        let ghost s = self.sleep@;
        let ghost r0 = self.ready@;
        let ghost t0 = self.terminate@;
        let n = self.sleep.len();
        let mut wake_queue: Vec<usize> = Vec::new();
        let mut i: usize = 0;
        while i < n
            invariant
                n == s.len(),
                self.sleep@ == s,
                wait_times_fit(s),
                i <= n,
                wake_queue@ == Seq::new(i as nat, |k: int| k as usize),
            decreases n - i,
        {
            match self.sleep[i].state {
                TaskState::Wait(x) => {
                    if x.to_nanos() > now { wake_queue.push(i) } else { wake_queue.push(i) }
                },
                _ => wake_queue.push(i),
            }
            i = i + 1;
            assert(wake_queue@ =~= Seq::new(i as nat, |k: int| k as usize));
        }
        let mut idx = n;
        assert(s.subrange(0, n as int) =~= s);
        assert(s.subrange(n as int, n as int) =~= Seq::<Task>::empty());
        assert(r0 + Seq::<Task>::empty() =~= r0);
        assert(t0 + Seq::<Task>::empty() =~= t0);
        while idx > 0
            invariant
                n == s.len(),
                wake_queue@ == Seq::new(n as nat, |k: int| k as usize),
                idx <= n,
                self.curr == old(self).curr,
                self.sleep@ == s.subrange(0, idx as int) + picked(s.subrange(idx as int, n as int), 1),
                self.ready@ == r0 + picked(s.subrange(idx as int, n as int), 0),
                self.terminate@ == t0 + picked(s.subrange(idx as int, n as int), 2),
            decreases idx,
        {
            let k = wake_queue[idx - 1];
            let ghost before = self.view_state();
            let task = self.sleep.remove(k);
            proof {
                let suf = s.subrange(k as int, n as int);
                assert(suf.drop_first() =~= s.subrange(idx as int, n as int));
                assert(suf[0] == s[k as int]);
                assert(task == s[k as int]);
                assert(self.sleep@ =~= s.subrange(0, k as int) + picked(s.subrange(idx as int, n as int), 1));
            }
            self.move_to_queue(task);
            idx = k;
            proof {
                let suf = s.subrange(idx as int, n as int);
                let old_suf = suf.drop_first();
                match task.state {
                    TaskState::Ready => {
                        assert(self.ready@ =~= r0 + picked(suf, 0));
                        assert(self.sleep@ =~= s.subrange(0, idx as int) + picked(suf, 1));
                        assert(self.terminate@ =~= t0 + picked(suf, 2));
                    },
                    TaskState::Terminate => {
                        assert(self.ready@ =~= r0 + picked(suf, 0));
                        assert(self.sleep@ =~= s.subrange(0, idx as int) + picked(suf, 1));
                        assert(self.terminate@ =~= t0 + picked(suf, 2));
                    },
                    TaskState::Wait(_) => {
                        assert(self.ready@ =~= r0 + picked(suf, 0));
                        assert(self.sleep@ =~= s.subrange(0, idx as int) + picked(suf, 1));
                        assert(self.terminate@ =~= t0 + picked(suf, 2));
                    },
                }
            }
        }
        assert(s.subrange(0, 0) =~= Seq::<Task>::empty());
        assert(s.subrange(0, n as int) =~= s);
        assert(self.sleep@ =~= picked(s, 1));
    }

    /// One timer tick: the running task stopped at `old_sp`; `now` is the time since boot and
    /// `idle` the task to run when nothing else can. Returns the stack pointer to resume.
    pub fn sched_logic(&mut self, old_sp: usize, now: u64, idle: &Task) -> (r: usize)
        requires
            wait_times_fit(old(self).view_state().sleep),
        ensures
            final(self).view_state() == tick(old(self).view_state(), old_sp, *idle),
            r == final(self).view_state().curr.sp,
    {
        self.curr.sp = old_sp;
        self.wake_sleepers(now);
        let next_task = self.ready.pop_front();
        if next_task.is_none() && self.curr.state == TaskState::Ready {
            return self.curr.sp;
        }
        let next = match next_task {
            Some(t) => t,
            None => *idle,
        };
        let old_task = self.curr;
        self.curr = next;
        self.move_to_queue(old_task);
        self.curr.sp
    }
}

proof fn lemma_picked_ids(s: Seq<Task>)
    ensures
        (picked(s, 0) + picked(s, 2) + picked(s, 1)).map_values(|t: Task| t.id).to_multiset()
            == s.map_values(|t: Task| t.id).to_multiset(),
    decreases s.len(),
{
    broadcast use vstd::seq_lib::lemma_multiset_commutative;
    let f = |t: Task| t.id;
    if s.len() == 0 {
        assert((picked(s, 0) + picked(s, 2) + picked(s, 1)).map_values(f) =~= Seq::<u64>::empty());
        assert(s.map_values(f) =~= Seq::<u64>::empty());
    } else {
        let t = s.drop_first();
        lemma_picked_ids(t);
        let a = picked(t, 0).map_values(f);
        let b = picked(t, 2).map_values(f);
        let c = picked(t, 1).map_values(f);
        assert((picked(t, 0) + picked(t, 2) + picked(t, 1)).map_values(f) =~= a + b + c);
        assert(s.map_values(f) =~= seq![s[0].id] + t.map_values(f));
        let q = queue_of(s[0].state);
        let m = (picked(s, 0) + picked(s, 2) + picked(s, 1)).map_values(f);
        if q == 0 {
            assert(m =~= a.push(s[0].id) + b + c);
        } else if q == 2 {
            assert(m =~= a + b.push(s[0].id) + c);
        } else {
            assert(m =~= a + b + c.push(s[0].id));
        }
        assert(seq![s[0].id].to_multiset() =~= Multiset::empty().insert(s[0].id));
    }
}

/// A tick loses no task and makes none up: afterwards the scheduler holds the same tasks as
/// before, plus the idle task when it was switched in.
pub proof fn lemma_tick_keeps_tasks(v: SchedView, old_sp: usize, idle: Task)
    ensures
        ({
            let w = after_wake(SchedView { curr: Task { sp: old_sp, ..v.curr }, ..v });
            let idle_in = w.ready.len() == 0 && w.curr.state != TaskState::Ready;
            all_ids(tick(v, old_sp, idle)) == if idle_in { all_ids(v).insert(idle.id) } else { all_ids(v) }
        }),
{
    broadcast use vstd::seq_lib::lemma_multiset_commutative;
    let f = |t: Task| t.id;
    let v1 = SchedView { curr: Task { sp: old_sp, ..v.curr }, ..v };
    let w = after_wake(v1);
    lemma_picked_ids(v.sleep);
    let rd = v.ready.map_values(f);
    let tm = v.terminate.map_values(f);
    let p0 = picked(v.sleep, 0).map_values(f);
    let p1 = picked(v.sleep, 1).map_values(f);
    let p2 = picked(v.sleep, 2).map_values(f);
    assert((picked(v.sleep, 0) + picked(v.sleep, 2) + picked(v.sleep, 1)).map_values(f) =~= p0 + p2 + p1);
    assert(all_tasks(v).map_values(f) =~= seq![v.curr.id] + rd + tm + v.sleep.map_values(f));
    assert(all_tasks(w).map_values(f) =~= seq![v.curr.id] + (rd + p0) + (tm + p2) + p1);
    assert(all_ids(w) == all_ids(v));
    let r = tick(v, old_sp, idle);
    if w.ready.len() == 0 && w.curr.state == TaskState::Ready {
    } else {
        let next = if w.ready.len() > 0 { w.ready[0] } else { idle };
        let rest = if w.ready.len() > 0 { w.ready.drop_first() } else { w.ready };
        let wr = w.ready.map_values(f);
        let rs = rest.map_values(f);
        let wt = w.terminate.map_values(f);
        let ws = w.sleep.map_values(f);
        if w.ready.len() > 0 {
            assert(wr =~= seq![next.id] + rs);
        } else {
            assert(rs =~= wr);
        }
        let c = w.curr.id;
        match w.curr.state {
            TaskState::Ready => {
                assert(all_tasks(r).map_values(f) =~= seq![next.id] + rs.push(c) + wt + ws);
            },
            TaskState::Terminate => {
                assert(all_tasks(r).map_values(f) =~= seq![next.id] + rs + wt.push(c) + ws);
            },
            TaskState::Wait(_) => {
                assert(all_tasks(r).map_values(f) =~= seq![next.id] + rs + wt + ws.push(c));
            },
        }
        assert(all_tasks(w).map_values(f) =~= seq![c] + wr + wt + ws);
        assert(seq![c].to_multiset() =~= Multiset::empty().insert(c));
        assert(seq![next.id].to_multiset() =~= Multiset::empty().insert(next.id));
        assert(rs.push(c) =~= rs + seq![c]);
        assert(wt.push(c) =~= wt + seq![c]);
        assert(ws.push(c) =~= ws + seq![c]);
        if w.ready.len() > 0 {
            assert(all_ids(r) =~= all_ids(w));
        } else {
            assert(all_ids(r) =~= all_ids(w).insert(idle.id));
        }
    }
}

} // verus!
