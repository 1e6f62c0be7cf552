use crate::os::{Os, admitted_or_same, lemma_admitted_then_dispatched, can_run, dispatched_or_same, lemma_dispatched_trans, lemma_only_dispatched_trans, wheel_deadline};
use crate::proc::{PId, Process, ProcessState, Task, burst_step};
use crate::timer::WheelModel;
use crate::queues::{
    KeyedQueue, queue_keys, queue_new, queue_peek, queue_pop, queue_push, set_contains,
    set_insert, set_is_empty, set_items, set_new, set_pop_first, set_remove,
};
use indexmap::IndexSet;
use std::collections::HashMap;
use std::collections::VecDeque;
use vstd::prelude::*;

verus! {

broadcast use vstd::std_specs::hash::group_hash_axioms;

/// What running `pid` for one tick and reacting to it did, from `old` to
/// `new`, given that the tick turned its record into `m` and returned `t`:
/// on an I/O-bound segment it leaves the processor and waits the segment out
/// (or terminates if that was all its work); on completion it leaves the
/// processor; on a CPU-bound segment it keeps its record. Every other process
/// at most got dispatched.
pub open spec fn burst_outcome(old: Os, new: Os, pid: PId, m: Process, t: Option<Task>) -> bool {
    &&& new.same_config(&old)
    &&& new.table().len() == old.table().len()
    &&& new.lookup(pid) is Some
    &&& forall|i: int|
        0 <= i < old.table().len() && i != pid ==> #[trigger] dispatched_or_same(
            old.table()[i],
            new.table()[i],
        )
    &&& match t {
        Some(Task::IOBound(d)) => {
            let n = new.lookup(pid)->0;
            &&& new.running() != Some(pid)
            &&& n.tasks@ == m.tasks@.drop_first()
            &&& n.time_have_burst == m.time_have_burst + d
            &&& n.time_have_burst >= n.burst_time ==> {
                &&& n.state == ProcessState::Terminated
                &&& n.complete_time == Some(old.spec_clock())
                &&& new.timers() == old.timers()
            }
            &&& n.time_have_burst < n.burst_time ==> {
                &&& n.state == ProcessState::Waiting
                &&& new.timers() == old.timers().added(pid, wheel_deadline(d as nat))
            }
        },
        Some(Task::CPUBound(_)) => {
            &&& new.timers() == old.timers()
            &&& dispatched_or_same(Some(m), new.table()[pid as int])
        },
        None => {
            &&& new.timers() == old.timers()
            &&& m.spec_is_complete()
            &&& new.lookup(pid) == Some(m)
            &&& new.running() != Some(pid)
        },
    }
}

/// One tick of the process on the processor of `old`, as `burst_proc` does
/// it; with none, a process is dispatched and nothing else changes.
pub open spec fn burst_effect(old: Os, new: Os) -> bool {
    if old.running() is Some && old.lookup(old.running()->0) is Some {
        let pid = old.running()->0;
        exists|m: Process, t: Option<Task>|
            burst_step(old.lookup(pid)->0, m, old.spec_clock(), t) && #[trigger] burst_outcome(
                old,
                new,
                pid,
                m,
                t,
            )
    } else {
        new.only_dispatched(&old) && new.runs_ready()
    }
}

/// The bucket under the cursor holds no due entry.
pub open spec fn drained(w: WheelModel<PId>) -> bool {
    forall|i: int| 0 <= i < w.slots[w.cursor as int].len() ==> !#[trigger] w.is_due(w.cursor as int, i)
}

/// What admitting due wake-ups and dispatching onto an idle processor did,
/// from `old` to `mid`: only the bucket under the cursor lost entries, none
/// of them due is left; processes only went from waiting or ready to ready
/// or running; a process on the processor stays there, and one put there is
/// live and `Running`.
pub open spec fn admit_effect(old: Os, mid: Os) -> bool {
    &&& mid.wf()
    &&& mid.same_config(&old)
    &&& mid.table().len() == old.table().len()
    &&& mid.timers().cursor == old.timers().cursor
    &&& mid.timers().size() == old.timers().size()
    &&& forall|b: int|
        0 <= b < old.timers().size() && b != old.timers().cursor ==> #[trigger] mid.timers().slots[b]
            == old.timers().slots[b]
    &&& drained(mid.timers())
    &&& forall|i: int|
        0 <= i < old.table().len() ==> #[trigger] admitted_or_same(old.table()[i], mid.table()[i])
    &&& mid.running() == old.running() || mid.runs_ready()
    &&& old.running() is Some && old.lookup(old.running()->0) is Some ==> mid.running() == old.running()
}

/// What `on_tick` does: due wake-ups are admitted and an idle processor is
/// given a process (`admit_effect`), then the process on the processor runs
/// for a tick (`burst_effect`).
pub open spec fn tick_effect(old: Os, new: Os) -> bool {
    &&& new.same_config(&old)
    &&& new.timers().cursor == old.timers().cursor
    &&& drained(new.timers())
    &&& exists|mid: Os|
        #![trigger burst_effect(mid, new)]
        admit_effect(old, mid) && burst_effect(mid, new)
}

pub proof fn lemma_added_stays_drained(w: WheelModel<PId>, x: PId, d: nat)
    requires
        w.wf(),
        d >= 1,
        drained(w),
    ensures
        drained(w.added(x, d)),
        w.added(x, d).cursor == w.cursor,
{
    let n = w.size() as int;
    let a = w.added(x, d);
    let c = w.cursor as int;
    assert(w.rounds_for(d) >= 1) by {
        vstd::arithmetic::div_mod::lemma_fundamental_div_mod(d as int, n);
        if d as int % n == 0 {
            assert(d as int / n >= 1) by (nonlinear_arith)
                requires d == n * (d as int / n) + 0, d >= 1, n > 0;
        }
    }
    let b = w.target(d) as int;
    assert(0 <= b < n);
    if b == c {
        assert(a.slots[c] == w.slots[c].push((x, w.rounds_for(d))));
    } else {
        assert(a.slots[c] == w.slots[c]);
    }
    assert forall|i: int| 0 <= i < a.slots[c].len() implies !#[trigger] a.is_due(c, i) by {
        if b == c && i == w.slots[c].len() {
            assert(a.slots[c][i].1 == w.rounds_for(d));
        } else {
            assert(a.slots[c][i] == w.slots[c][i]);
            assert(!w.is_due(c, i));
        }
    }
}

/// A scheduling policy. It keeps its own ready structure and acts on the
/// kernel only through the kernel's operations; the per-tick algorithm is
/// shared by all policies.
pub trait Scheduler {
    /// The policy's own bookkeeping agrees with itself.
    spec fn inv(&self) -> bool;

    /// Admission of `pid` into the ready structure; the kernel is untouched.
    fn on_process_ready(&mut self, os: &mut Os, pid: PId)
        requires
            old(self).inv(),
            old(os).wf(),
        ensures
            final(self).inv(),
            *final(os) == *old(os),
    ;

    /// Puts the next process on the processor, or leaves it idle.
    fn switch_process(&mut self, os: &mut Os)
        requires
            old(self).inv(),
            old(os).wf(),
        ensures
            final(self).inv(),
            final(os).wf(),
            final(os).only_dispatched(old(os)),
            final(os).runs_ready(),
    ;

    /// Preemption check after `pid` has run for a tick.
    fn on_process_burst(&mut self, os: &mut Os, pid: PId)
        requires
            old(self).inv(),
            old(os).wf(),
        ensures
            final(self).inv(),
            final(os).wf(),
            final(os).only_dispatched(old(os)),
            final(os).running() == old(os).running() || final(os).runs_ready(),
    {
    }

    /// One tick: wake-ups that are due are admitted, an idle processor gets a
    /// process, and the process on the processor runs for a tick.
    fn on_tick(&mut self, os: &mut Os)
        requires
            old(self).inv(),
            old(os).wf(),
        ensures
            final(self).inv(),
            final(os).wf(),
            tick_effect(*old(os), *final(os)),
    {
        loop
            invariant
                self.inv(),
                os.wf(),
                os.same_config(old(os)),
                os.table().len() == old(os).table().len(),
                os.timers().cursor == old(os).timers().cursor,
                os.timers().size() == old(os).timers().size(),
                os.running() == old(os).running(),
                forall|b: int|
                    0 <= b < old(os).timers().size() && b != old(os).timers().cursor ==> #[trigger] os.timers().slots[b]
                        == old(os).timers().slots[b],
                forall|i: int|
                    0 <= i < old(os).table().len() ==> #[trigger] admitted_or_same(old(os).table()[i], os.table()[i]),
            ensures
                os.wf(),
                os.same_config(old(os)),
                os.table().len() == old(os).table().len(),
                os.timers().cursor == old(os).timers().cursor,
                os.timers().size() == old(os).timers().size(),
                os.running() == old(os).running(),
                forall|b: int|
                    0 <= b < old(os).timers().size() && b != old(os).timers().cursor ==> #[trigger] os.timers().slots[b]
                        == old(os).timers().slots[b],
                forall|i: int|
                    0 <= i < old(os).table().len() ==> #[trigger] admitted_or_same(old(os).table()[i], os.table()[i]),
                drained(os.timers()),
            decreases os.timers().slots[os.timers().cursor as int].len(),
        {
            proof {
                os.lemma_wf(0);
            }
            let ghost before = *os;
            match os.expired_timeout() {
                Some(p) => {
                    proof {
                        assert forall|i: int| 0 <= i < old(os).table().len() implies #[trigger] admitted_or_same(
                            old(os).table()[i],
                            os.table()[i],
                        ) by {
                            assert(admitted_or_same(old(os).table()[i], before.table()[i]));
                            if i != p {
                                assert(os.table()[i] == before.table()[i]);
                            }
                        }
                        assert forall|b: int|
                            0 <= b < old(os).timers().size() && b != old(os).timers().cursor implies #[trigger] os.timers().slots[b]
                                == old(os).timers().slots[b] by {
                            assert(before.timers().slots[b] == old(os).timers().slots[b]);
                        }
                    }
                    self.on_process_ready(os, p);
                },
                None => {
                    break ;
                },
            }
        }
        let ghost drained_os = *os;
        if os.current_proc().is_none() {
            self.switch_process(os);
            proof {
                assert forall|i: int| 0 <= i < old(os).table().len() implies #[trigger] admitted_or_same(
                    old(os).table()[i],
                    os.table()[i],
                ) by {
                    lemma_admitted_then_dispatched(old(os).table()[i], drained_os.table()[i], os.table()[i]);
                }
            }
        }
        let ghost mid = *os;
        proof {
            os.lemma_wf(0);
            let o = *old(os);
            assert(mid.wf());
            assert(mid.same_config(&o));
            assert(mid.timers().cursor == o.timers().cursor);
            assert(drained(mid.timers()));
            assert(mid.running() == o.running() || mid.runs_ready());
            if o.running() is Some && o.lookup(o.running()->0) is Some {
                let r = o.running()->0;
                assert(admitted_or_same(o.table()[r as int], drained_os.table()[r as int]));
                assert(drained_os.lookup(r) is Some);
                assert(mid.running() == o.running());
            }
            assert(admit_effect(*old(os), mid));
        }
        proof {
            os.lemma_wf(0);
        }
        self.burst_proc(os);
        proof {
            os.lemma_wf(0);
            if final_timers_added(mid, *os) {
                let (x, d) = choose|x: PId, d: nat| d >= 1 && os.timers() == mid.timers().added(x, d);
                lemma_added_stays_drained(mid.timers(), x, d);
            }
            assert(burst_effect(mid, *os));
        }
    }

    /// Runs the process on the processor for one tick and reacts to what
    /// the tick left: a segment boundary, completion, or nothing to run.
    fn burst_proc(&mut self, os: &mut Os)
        requires
            old(self).inv(),
            old(os).wf(),
        ensures
            final(self).inv(),
            final(os).wf(),
            burst_effect(*old(os), *final(os)),
            final(os).timers() == old(os).timers() || final_timers_added(*old(os), *final(os)),
    {
        let ghost start = *os;
        match os.burst_running() {
            Some((pid, t, done)) => {
                let ghost m = os.lookup(pid)->0;
                let ghost after_burst = *os;
                proof {
                    os.lemma_wf(pid);
                    assert forall|i: int| 0 <= i < start.table().len() && i != pid implies after_burst.table()[i]
                        == start.table()[i] by {}
                }
                match t {
                    Some(task) => {
                        self.run_task(os, task, pid);
                    },
                    None => {
                        os.complete_proc(pid);
                        proof {
                            assert(os.table() =~= after_burst.table());
                        }
                        if os.is_proc_running(pid) {
                            self.switch_process(os);
                        }
                    },
                }
                let ghost before_hook = *os;
                proof {
                    assert(after_burst.lookup(pid) is Some);
                    match t {
                        Some(Task::IOBound(d)) => {
                            assert(io_effect(after_burst, before_hook, d, pid));
                        },
                        Some(Task::CPUBound(_)) => {
                            assert(before_hook == after_burst);
                        },
                        None => {
                            assert(dispatched_or_same(after_burst.table()[pid as int], before_hook.table()[pid as int]));
                        },
                    }
                    assert(before_hook.lookup(pid) is Some);
                    assert forall|i: int| 0 <= i < start.table().len() && i != pid implies #[trigger] dispatched_or_same(
                        start.table()[i],
                        before_hook.table()[i],
                    ) by {
                        assert(after_burst.table()[i] == start.table()[i]);
                        if t is None {
                            assert(dispatched_or_same(after_burst.table()[i], before_hook.table()[i]));
                        }
                    }
                }
                self.on_process_burst(os, pid);
                proof {
                    assert forall|i: int| 0 <= i < start.table().len() && i != pid implies #[trigger] dispatched_or_same(
                        start.table()[i],
                        os.table()[i],
                    ) by {
                        assert(dispatched_or_same(before_hook.table()[i], os.table()[i]));
                        lemma_dispatched_trans(start.table()[i], before_hook.table()[i], os.table()[i]);
                    }
                    assert(dispatched_or_same(before_hook.table()[pid as int], os.table()[pid as int]));
                    match t {
                        Some(Task::IOBound(d)) => {
                            assert(m.tasks@[0] == Task::IOBound(d));
                            assert(wheel_deadline(d as nat) >= 1);
                        },
                        Some(Task::CPUBound(_)) => {},
                        None => {},
                    }
                    assert(os.same_config(&start));
                    assert(os.table().len() == start.table().len());
                    assert(os.lookup(pid) is Some);
                    match t {
                        Some(Task::IOBound(d)) => {
                            assert(os.running() != Some(pid));
                        },
                        Some(Task::CPUBound(_)) => {
                            assert(os.timers() == start.timers());
                            assert(dispatched_or_same(Some(m), os.table()[pid as int]));
                        },
                        None => {
                            assert(os.running() != Some(pid));
                        },
                    }
                    assert(burst_outcome(start, *os, pid, m, t));
                }
            },
            None => {
                self.switch_process(os);
            },
        }
    }

    fn run_task(&mut self, os: &mut Os, task: Task, pid: PId)
        requires
            old(self).inv(),
            old(os).wf(),
        ensures
            final(self).inv(),
            final(os).wf(),
            task is CPUBound ==> *final(os) == *old(os),
            task matches Task::IOBound(d) ==> io_effect(*old(os), *final(os), d, pid),
    {
        match task {
            Task::CPUBound(duration) => self.run_cpu_bound_task(os, duration, pid),
            Task::IOBound(duration) => self.run_io_bound_task(os, duration, pid),
        }
    }

    /// A process in a CPU-bound segment keeps the processor.
    fn run_cpu_bound_task(&mut self, os: &mut Os, duration: u64, pid: PId)
        requires
            old(self).inv(),
            old(os).wf(),
        ensures
            final(self).inv(),
            *final(os) == *old(os),
    {
    }

    /// A process that reaches an I/O-bound segment leaves the processor: its
    /// active segment is popped and counted, then it waits `duration` ticks,
    /// or terminates if that was all its work.
    fn run_io_bound_task(&mut self, os: &mut Os, duration: u64, pid: PId)
        requires
            old(self).inv(),
            old(os).wf(),
        ensures
            final(self).inv(),
            final(os).wf(),
            io_effect(*old(os), *final(os), duration, pid),
    {
        let ghost start = *os;
        proof {
            os.lemma_wf(pid);
        }
        match os.bump_proc(pid) {
            Some((_, exhausted)) => {
                if exhausted {
                    os.complete_proc(pid);
                } else {
                    os.await_proc(pid, duration);
                }
            },
            None => {},
        }
        let ghost before = *os;
        proof {
            assert forall|i: int| 0 <= i < start.table().len() && i != pid implies before.table()[i]
                == start.table()[i] by {}
            if start.lookup(pid) is Some {
                let q = before.lookup(pid)->0;
                assert(q.state == ProcessState::Waiting || q.state == ProcessState::Terminated);
            }
        }
        if os.is_proc_running(pid) {
            self.switch_process(os);
            proof {
                assert(dispatched_or_same(before.table()[pid as int], os.table()[pid as int]) || pid >= before.table().len());
            }
        }
        proof {
            assert forall|i: int| 0 <= i < start.table().len() && i != pid implies #[trigger] dispatched_or_same(
                start.table()[i],
                os.table()[i],
            ) by {
                assert(before.table()[i] == start.table()[i]);
                assert(dispatched_or_same(before.table()[i], os.table()[i]));
            }
        }
    }
}

/// What `run_io_bound_task` does for `pid` with a wait of `duration`.
pub open spec fn io_effect(old: Os, new: Os, duration: u64, pid: PId) -> bool {
    &&& new.same_config(&old)
    &&& new.table().len() == old.table().len()
    &&& old.running() == Some(pid) ==> new.running() != Some(pid)
    &&& forall|i: int|
        0 <= i < old.table().len() && i != pid ==> #[trigger] dispatched_or_same(
            old.table()[i],
            new.table()[i],
        )
    &&& old.lookup(pid) is None ==> new.timers() == old.timers()
    &&& old.lookup(pid) is Some ==> {
        let o = old.lookup(pid)->0;
        let n = new.lookup(pid)->0;
        &&& new.lookup(pid) is Some
        &&& o.tasks@.len() > 0 ==> n.tasks@ == o.tasks@.drop_first() && n.time_have_burst
            == o.time_have_burst + o.tasks@[0].spec_duration()
        &&& !o.spec_is_complete() && n.time_have_burst >= n.burst_time ==> {
            &&& n.state == ProcessState::Terminated
            &&& n.complete_time == Some(old.spec_clock())
            &&& new.timers() == old.timers()
        }
        &&& !o.spec_is_complete() && n.time_have_burst < n.burst_time ==> {
            &&& n.state == ProcessState::Waiting
            &&& new.timers() == old.timers().added(pid, wheel_deadline(duration as nat))
        }
    }
}

/// The wheel of `new` is that of `old` with one wake-up added at least one
/// tick ahead.
pub open spec fn final_timers_added(old: Os, new: Os) -> bool {
    exists|x: PId, d: nat| d >= 1 && new.timers() == old.timers().added(x, d)
}

/// First come, first served: one FIFO queue, no preemption.
pub struct FCFSScheduler {
    ready_queue: VecDeque<PId>,
}

impl FCFSScheduler {
    pub fn new() -> (r: Self)
        ensures
            r.queued().len() == 0,
    {
        FCFSScheduler { ready_queue: VecDeque::new() }
    }

    /// Ready processes, oldest first.
    pub closed spec fn queued(&self) -> Seq<PId> {
        self.ready_queue@
    }
}

impl Scheduler for FCFSScheduler {
    open spec fn inv(&self) -> bool {
        true
    }

    /// The process joins the back of the queue.
    fn on_process_ready(&mut self, os: &mut Os, pid: PId)
        ensures
            final(self).queued() == old(self).queued().push(pid),
            *final(os) == *old(os),
    {
        self.ready_queue.push_back(pid);
    }

    /// The process at the front of the queue, the one that became ready
    /// first, is dispatched.
    fn switch_process(&mut self, os: &mut Os)
        ensures
            old(self).queued().len() == 0 ==> final(self).queued() == old(self).queued()
                && final(os).running() is None,
            old(self).queued().len() > 0 ==> {
                &&& final(self).queued() == old(self).queued().drop_first()
                &&& old(os).ready(old(self).queued()[0]) ==> final(os).running() == Some(old(self).queued()[0])
                &&& !old(os).ready(old(self).queued()[0]) ==> final(os).running() is None
            },
    {
        let next = self.ready_queue.pop_front();
        proof {
            if old(self).ready_queue@.len() > 0 {
                assert(self.ready_queue@ =~= old(self).ready_queue@.drop_first());
            }
        }
        match next {
            Some(q) => {
                if os.is_ready(q) {
                    os.switch_proc(Some(q));
                } else {
                    os.switch_proc(None);
                }
            },
            None => os.switch_proc(None),
        }
    }
}

/// Shortest job first: the ready process with the least total burst time is
/// dispatched; no preemption.
pub struct SJFScheduler {
    ready_queue: KeyedQueue,
}

impl SJFScheduler {
    pub fn new() -> (r: Self)
        ensures
            forall|p: PId| !(#[trigger] r.keys().contains_key(p)),
    {
        SJFScheduler { ready_queue: queue_new() }
    }

    /// Ready processes with their total burst times.
    pub closed spec fn keys(&self) -> Map<PId, u64> {
        queue_keys(self.ready_queue)
    }
}

impl Scheduler for SJFScheduler {
    open spec fn inv(&self) -> bool {
        true
    }

    /// A live process is queued under its total burst time.
    fn on_process_ready(&mut self, os: &mut Os, pid: PId)
        ensures
            *final(os) == *old(os),
            match old(os).lookup(pid) {
                Some(p) => final(self).keys() == old(self).keys().insert(pid, p.burst_time),
                None => final(self).keys() == old(self).keys(),
            },
    {
        if let Some(proc) = os.get_proc(pid) {
            let p = proc.burst_time;
            queue_push(&mut self.ready_queue, pid, p);
        }
    }

    /// A queued process with the least total burst time is dispatched.
    fn switch_process(&mut self, os: &mut Os)
        ensures
            (forall|p: PId| !(#[trigger] old(self).keys().contains_key(p))) ==> final(os).running() is None
                && final(self).keys() == old(self).keys(),
            (exists|p: PId| #[trigger] old(self).keys().contains_key(p)) ==> exists|q: PId| {
                &&& #[trigger] old(self).keys().contains_key(q)
                &&& final(self).keys() == old(self).keys().remove(q)
                &&& (forall|p: PId| #[trigger]
                    old(self).keys().contains_key(p) ==> old(self).keys()[q] <= old(self).keys()[p])
                &&& old(os).ready(q) ==> final(os).running() == Some(q)
                &&& !old(os).ready(q) ==> final(os).running() is None
            },
    {
        let next = queue_pop(&mut self.ready_queue);
        match next {
            Some((pid, _)) => {
                assert(old(self).keys().contains_key(pid));
                if os.is_ready(pid) {
                    os.switch_proc(Some(pid));
                } else {
                    os.switch_proc(None);
                }
            },
            None => os.switch_proc(None),
        }
    }
}

/// Shortest time to completion first: ready processes are keyed by the work
/// they have left, and the running process is preempted as soon as a ready
/// one has strictly less left.
pub struct STCFScheduler {
    ready_queue: KeyedQueue,
}

impl STCFScheduler {
    pub fn new() -> (r: Self)
        ensures
            forall|p: PId| !(#[trigger] r.keys().contains_key(p)),
    {
        STCFScheduler { ready_queue: queue_new() }
    }

    /// Ready processes with the work they had left when queued.
    pub closed spec fn keys(&self) -> Map<PId, u64> {
        queue_keys(self.ready_queue)
    }
}

impl Scheduler for STCFScheduler {
    open spec fn inv(&self) -> bool {
        true
    }

    /// A live process is queued under its remaining time.
    fn on_process_ready(&mut self, os: &mut Os, pid: PId)
        ensures
            *final(os) == *old(os),
            match old(os).lookup(pid) {
                Some(p) => final(self).keys() == old(self).keys().insert(pid, p.remaining_time),
                None => final(self).keys() == old(self).keys(),
            },
    {
        if let Some(proc) = os.get_proc(pid) {
            let p = proc.remaining_time;
            queue_push(&mut self.ready_queue, pid, p);
        }
    }

    /// A queued process with the least remaining time is dispatched.
    fn switch_process(&mut self, os: &mut Os)
        ensures
            (forall|p: PId| !(#[trigger] old(self).keys().contains_key(p))) ==> final(os).running() is None
                && final(self).keys() == old(self).keys(),
            (exists|p: PId| #[trigger] old(self).keys().contains_key(p)) ==> exists|q: PId| {
                &&& #[trigger] old(self).keys().contains_key(q)
                &&& final(self).keys() == old(self).keys().remove(q)
                &&& (forall|p: PId| #[trigger]
                    old(self).keys().contains_key(p) ==> old(self).keys()[q] <= old(self).keys()[p])
                &&& old(os).ready(q) ==> final(os).running() == Some(q)
                &&& !old(os).ready(q) ==> final(os).running() is None
            },
    {
        let next = queue_pop(&mut self.ready_queue);
        match next {
            Some((pid, _)) => {
                assert(old(self).keys().contains_key(pid));
                if os.is_ready(pid) {
                    os.switch_proc(Some(pid));
                } else {
                    os.switch_proc(None);
                }
            },
            None => os.switch_proc(None),
        }
    }

    /// When a ready process has strictly less work left than `pid` on the
    /// processor, `pid` gives way to the best ready process and is queued
    /// again under its remaining time.
    fn on_process_burst(&mut self, os: &mut Os, pid: PId)
        ensures
            ({
                let rem = old(os).lookup(pid)->0.remaining_time;
                let shorter = exists|p: PId| #[trigger]
                    old(self).keys().contains_key(p) && old(self).keys()[p] < rem;
                &&& old(os).running() == Some(pid) && old(os).lookup(pid) is Some && shorter
                    && !old(self).keys().contains_key(pid) ==> {
                    &&& final(os).running() != Some(pid)
                    &&& exists|q: PId| {
                        &&& #[trigger] old(self).keys().contains_key(q)
                        &&& forall|p: PId| #[trigger]
                            old(self).keys().contains_key(p) ==> old(self).keys()[q] <= old(self).keys()[p]
                        &&& final(self).keys() == old(self).keys().remove(q).insert(pid, rem)
                        &&& old(os).ready(q) ==> final(os).running() == Some(q)
                        &&& !old(os).ready(q) ==> final(os).running() is None
                    }
                }
                &&& !shorter ==> *final(os) == *old(os) && final(self).keys() == old(self).keys()
            }),
    {
        if !os.is_proc_running(pid) {
            return;
        }
        let remaining = match os.get_proc(pid) {
            Some(p) => p.remaining_time,
            None => {
                return;
            },
        };
        let best = queue_peek(&self.ready_queue);
        let preempt = match best {
            Some((_, key)) => key < remaining,
            None => false,
        };
        proof {
            if !preempt {
                if best is Some {
                    let key = (best->0).1;
                    assert forall|p: PId| #[trigger]
                        old(self).keys().contains_key(p) implies !(old(self).keys()[p] < remaining) by {
                        assert(key <= old(self).keys()[p]);
                    }
                }
            } else {
                assert(old(self).keys().contains_key((best->0).0));
            }
        }
        if preempt {
            let ghost os0 = *os;
            let ghost k0 = self.keys();
            os.set_runnable(pid);
            let ghost os1 = *os;
            proof {
                os.lemma_wf(pid);
                assert forall|q: PId| q != pid implies #[trigger] os1.ready(q) == os0.ready(q) by {
                    if q < os0.table().len() {
                        assert(os1.table()[q as int] == os0.table()[q as int]);
                    }
                }
            }
            self.switch_process(os);
            let ghost k1 = self.keys();
            queue_push(&mut self.ready_queue, pid, remaining);
            proof {
                lemma_only_dispatched_trans(&os0, &os1, os);
                let q = choose|q: PId| {
                    &&& #[trigger] k0.contains_key(q)
                    &&& k1 == k0.remove(q)
                    &&& (forall|p: PId| #[trigger] k0.contains_key(p) ==> k0[q] <= k0[p])
                    &&& os1.ready(q) ==> os.running() == Some(q)
                    &&& !os1.ready(q) ==> os.running() is None
                };
                if !k0.contains_key(pid) {
                    assert(q != pid);
                }
            }
        }
    }
}


/// Adds the interval to a slice counter, stopping at the largest value.
fn add_slice(used: u64, interval: u64) -> (r: u64)
    ensures
        r == if used + interval > u64::MAX { u64::MAX as int } else { used + interval },
{
    if used > u64::MAX - interval {
        u64::MAX
    } else {
        used + interval
    }
}

/// Round robin: one FIFO queue; a process that has run for a whole quantum
/// goes to the back of the queue.
pub struct RoundRobinScheduler {
    ready_queue: VecDeque<PId>,
    used_time_slice_map: HashMap<PId, u64>,
    time_slice: u64,
}

impl RoundRobinScheduler {
    pub fn new(time_slice: u64) -> (r: Self)
        ensures
            r.inv(),
            r.queued().len() == 0,
            r.quantum() == time_slice,
            forall|p: PId| #[trigger] r.slice_used(p) == 0,
    {
        RoundRobinScheduler {
            ready_queue: VecDeque::new(),
            used_time_slice_map: HashMap::new(),
            time_slice,
        }
    }

    /// Ready processes, oldest first.
    pub closed spec fn queued(&self) -> Seq<PId> {
        self.ready_queue@
    }

    pub closed spec fn quantum(&self) -> u64 {
        self.time_slice
    }

    /// Ticks `pid` has run since it last went to the back of the queue.
    pub closed spec fn slice_used(&self, pid: PId) -> u64 {
        if self.used_time_slice_map@.contains_key(pid) {
            self.used_time_slice_map@[pid]
        } else {
            0
        }
    }
}

impl Scheduler for RoundRobinScheduler {
    /// No process holds a full quantum without having been sent to the back.
    closed spec fn inv(&self) -> bool {
        forall|p: PId| #[trigger]
            self.used_time_slice_map@.contains_key(p) ==> self.used_time_slice_map@[p] == 0
                || self.used_time_slice_map@[p] < self.time_slice
    }

    fn on_process_ready(&mut self, os: &mut Os, pid: PId)
        ensures
            final(self).queued() == old(self).queued().push(pid),
            *final(os) == *old(os),
    {
        self.ready_queue.push_back(pid);
    }

    fn switch_process(&mut self, os: &mut Os)
        ensures
            old(self).queued().len() == 0 ==> final(self).queued() == old(self).queued()
                && final(os).running() is None,
            old(self).queued().len() > 0 ==> {
                &&& final(self).queued() == old(self).queued().drop_first()
                &&& old(os).ready(old(self).queued()[0]) ==> final(os).running() == Some(old(self).queued()[0])
                &&& !old(os).ready(old(self).queued()[0]) ==> final(os).running() is None
            },
            forall|p: PId| #[trigger] final(self).slice_used(p) == old(self).slice_used(p),
            final(self).quantum() == old(self).quantum(),
    {
        let next = self.ready_queue.pop_front();
        proof {
            if old(self).ready_queue@.len() > 0 {
                assert(self.ready_queue@ =~= old(self).ready_queue@.drop_first());
            }
        }
        match next {
            Some(q) => {
                if os.is_ready(q) {
                    os.switch_proc(Some(q));
                } else {
                    os.switch_proc(None);
                }
            },
            None => os.switch_proc(None),
        }
    }

    /// The process on the processor adds the interval to its slice; once the
    /// slice reaches the quantum it goes to the back of the queue with an
    /// empty slice and the front of the queue is dispatched.
    fn on_process_burst(&mut self, os: &mut Os, pid: PId)
        ensures
            old(os).running() != Some(pid) ==> *final(os) == *old(os) && final(self).queued()
                == old(self).queued() && forall|p: PId| #[trigger] final(self).slice_used(p) == old(self).slice_used(p),
            old(os).running() == Some(pid) ==> {
                let used = old(self).slice_used(pid) + old(os).spec_interval();
                &&& used >= old(self).quantum() ==> {
                    let next = old(self).queued().push(pid)[0];
                    &&& final(self).slice_used(pid) == 0
                    &&& final(self).queued() == old(self).queued().push(pid).drop_first()
                    &&& old(os).ready(next) ==> final(os).running() == Some(next)
                    &&& !old(os).ready(next) ==> final(os).running() is None
                }
                &&& used < old(self).quantum() ==> {
                    &&& final(self).slice_used(pid) == used
                    &&& *final(os) == *old(os)
                    &&& final(self).queued() == old(self).queued()
                }
            },
    {
        if !os.is_proc_running(pid) {
            return;
        }
        let prev = match self.used_time_slice_map.get(&pid) {
            Some(u) => *u,
            None => 0,
        };
        let used = add_slice(prev, os.interval());
        if used >= self.time_slice {
            self.ready_queue.push_back(pid);
            self.used_time_slice_map.insert(pid, 0);
            let ghost os0 = *os;
            os.set_runnable(pid);
            let ghost os1 = *os;
            proof {
                os.lemma_wf(pid);
                assert forall|q: PId| #[trigger] os1.ready(q) == os0.ready(q) by {
                    if q < os0.table().len() && q != pid {
                        assert(os1.table()[q as int] == os0.table()[q as int]);
                    }
                }
            }
            self.switch_process(os);
            proof {
                lemma_only_dispatched_trans(&os0, &os1, os);
            }
        } else {
            self.used_time_slice_map.insert(pid, used);
        }
    }
}

/// Winner of a lottery: the first holder at which the running sum of
/// tickets reaches `draw`.
pub open spec fn winner_of(tickets: Seq<(PId, u64)>, draw: nat) -> Option<PId>
    decreases tickets.len(),
{
    if tickets.len() == 0 {
        None
    } else if draw <= tickets[0].1 {
        Some(tickets[0].0)
    } else {
        winner_of(tickets.drop_first(), (draw - tickets[0].1) as nat)
    }
}

pub open spec fn ticket_sum(tickets: Seq<(PId, u64)>) -> nat
    decreases tickets.len(),
{
    if tickets.len() == 0 {
        0
    } else {
        (tickets[0].1 + ticket_sum(tickets.drop_first())) as nat
    }
}

/// The total of the tickets, stopping at the largest `u64`.
pub open spec fn capped_total(tickets: Seq<(PId, u64)>) -> u64 {
    if ticket_sum(tickets) > u64::MAX {
        u64::MAX
    } else {
        ticket_sum(tickets) as u64
    }
}

/// Walks the holders, taking each one's tickets off `draw`, and returns the
/// holder at which `draw` is used up.
pub fn pick_winner(tickets: &Vec<(PId, u64)>, draw: u64) -> (r: Option<PId>)
    ensures
        r == winner_of(tickets@, draw as nat),
{
    let n = tickets.len();
    let mut i: usize = 0;
    let mut left: u64 = draw;
    assert(tickets@.skip(0) =~= tickets@);
    while i < n
        invariant
            n == tickets@.len(),
            i <= n,
            winner_of(tickets@, draw as nat) == winner_of(tickets@.skip(i as int), left as nat),
        decreases n - i,
    {
        let (pid, t) = tickets[i];
        proof {
            assert(tickets@.skip(i as int).drop_first() =~= tickets@.skip(i + 1));
        }
        if left <= t {
            return Some(pid);
        }
        left = left - t;
        i = i + 1;
    }
    None
}

/// The total number of tickets, stopping at the largest `u64`.
pub fn total_tickets(tickets: &Vec<(PId, u64)>) -> (r: u64)
    ensures
        r == capped_total(tickets@),
{
    let n = tickets.len();
    let mut i: usize = 0;
    let mut total: u64 = 0;
    assert(tickets@.skip(0) =~= tickets@);
    while i < n
        invariant
            n == tickets@.len(),
            i <= n,
            total as nat + ticket_sum(tickets@.skip(i as int)) == ticket_sum(tickets@) || (total
                == u64::MAX && ticket_sum(tickets@) > u64::MAX),
        decreases n - i,
    {
        proof {
            assert(tickets@.skip(i as int).drop_first() =~= tickets@.skip(i + 1));
        }
        let t = tickets[i].1;
        if total == u64::MAX || t > u64::MAX - total {
            total = u64::MAX;
            proof {
                lemma_ticket_sum_skip(tickets@, i as int);
            }
        } else {
            total = total + t;
        }
        i = i + 1;
    }
    proof {
        assert(tickets@.skip(n as int) =~= Seq::<(PId, u64)>::empty());
    }
    total
}

proof fn lemma_ticket_sum_skip(s: Seq<(PId, u64)>, i: int)
    requires
        0 <= i <= s.len(),
    ensures
        ticket_sum(s.skip(i)) <= ticket_sum(s),
    decreases i,
{
    if i > 0 {
        lemma_ticket_sum_skip(s.drop_first(), i - 1);
        assert(s.drop_first().skip(i - 1) =~= s.skip(i));
    } else {
        assert(s.skip(0) =~= s);
    }
}

/// The lottery for a random value `random`: no winner without tickets,
/// otherwise the winner of the draw `random % total + 1`, which lies in
/// `[1, total]`.
pub fn draw_winner(tickets: &Vec<(PId, u64)>, random: u64) -> (r: Option<PId>)
    ensures
        capped_total(tickets@) == 0 ==> r is None,
        capped_total(tickets@) > 0 ==> r == winner_of(
            tickets@,
            (random % capped_total(tickets@) + 1) as nat,
        ),
{
    let total = total_tickets(tickets);
    if total == 0 {
        return None;
    }
    let draw = random % total + 1;
    pick_winner(tickets, draw)
}

/// Relies on `rand::random`: a uniformly drawn `usize`; nothing is known of
/// its value.
#[verifier::external_body]
fn random_number() -> (r: usize) {
    rand::random::<usize>()
}

/// Tickets of a process: its weight times the multiplier, stopping at the
/// largest `u64`.
pub open spec fn tickets_for(priority: u64, multiplier: u64) -> u64 {
    if priority * multiplier > u64::MAX {
        u64::MAX
    } else {
        (priority * multiplier) as u64
    }
}

/// Tickets per unit of weight unless configured otherwise.
pub const TICKET_MULTIPLIER: u64 = 100;

/// Lottery scheduling: each ready process holds tickets in proportion to its
/// weight, and a fresh draw picks the process to run on every tick.
pub struct FairShareScheduler {
    multiplier: u64,
    total_ticket: u64,
    next_pid: Option<PId>,
    process_ticket: Vec<(PId, u64)>,
}

impl FairShareScheduler {
    /// A lottery with one hundred tickets per unit of weight.
    pub fn new() -> (r: Self)
        ensures
            r.holders().len() == 0,
            r.ticket_multiplier() == TICKET_MULTIPLIER,
    {
        Self::with_multiplier(TICKET_MULTIPLIER)
    }

    pub fn with_multiplier(multiplier: u64) -> (r: Self)
        ensures
            r.holders().len() == 0,
            r.ticket_multiplier() == multiplier,
    {
        FairShareScheduler { multiplier, total_ticket: 0, next_pid: None, process_ticket: Vec::new() }
    }

    pub closed spec fn ticket_multiplier(&self) -> u64 {
        self.multiplier
    }

    /// Ticket holders in order of admission.
    pub closed spec fn holders(&self) -> Seq<(PId, u64)> {
        self.process_ticket@
    }

    /// Keeps the holders that are live and ready to run, in their order.
    fn retain_live(&mut self, os: &Os)
        ensures
            final(self).holders() == ready_holders(*os, old(self).holders()),
            final(self).ticket_multiplier() == old(self).ticket_multiplier(),
    {
        let mut kept: Vec<(PId, u64)> = Vec::new();
        let n = self.process_ticket.len();
        let mut i: usize = 0;
        assert(old(self).process_ticket@.take(0) =~= Seq::<(PId, u64)>::empty());
        while i < n
            invariant
                n == self.process_ticket@.len(),
                self.process_ticket@ == old(self).process_ticket@,
                self.multiplier == old(self).multiplier,
                i <= n,
                kept@ == ready_holders(*os, old(self).process_ticket@.take(i as int)),
            decreases n - i,
        {
            let (pid, t) = self.process_ticket[i];
            let ready = match os.get_proc(pid) {
                Some(p) => p.state == ProcessState::Runnable || p.state == ProcessState::Running,
                None => false,
            };
            proof {
                let s = old(self).process_ticket@;
                assert(s.take(i + 1).drop_last() =~= s.take(i as int));
                assert(s.take(i + 1).last() == (pid, t));
            }
            if ready {
                kept.push((pid, t));
            }
            i = i + 1;
        }
        assert(old(self).process_ticket@.take(n as int) =~= old(self).process_ticket@);
        self.process_ticket = kept;
    }
}

/// The holders whose process is live and ready to run, in their order.
pub open spec fn ready_holders(os: Os, s: Seq<(PId, u64)>) -> Seq<(PId, u64)>
    decreases s.len(),
{
    if s.len() == 0 {
        s
    } else {
        let rest = ready_holders(os, s.drop_last());
        if os.lookup(s.last().0) is Some && can_run(os.lookup(s.last().0)->0) {
            rest.push(s.last())
        } else {
            rest
        }
    }
}

/// No process appears twice among the holders.
pub open spec fn distinct_holders(s: Seq<(PId, u64)>) -> bool {
    forall|i: int, j: int| 0 <= i < j < s.len() ==> (#[trigger] s[i]).0 != (#[trigger] s[j]).0
}

/// Keeping the ready holders keeps them distinct, and keeps only holders.
pub proof fn lemma_ready_holders_distinct(os: Os, s: Seq<(PId, u64)>)
    ensures
        forall|k: int| 0 <= k < ready_holders(os, s).len() ==> s.contains(#[trigger] ready_holders(os, s)[k]),
        distinct_holders(s) ==> distinct_holders(ready_holders(os, s)),
    decreases s.len(),
{
    if s.len() > 0 {
        let t = s.drop_last();
        lemma_ready_holders_distinct(os, t);
        let rest = ready_holders(os, t);
        assert forall|k: int| 0 <= k < ready_holders(os, s).len() implies s.contains(#[trigger] ready_holders(os, s)[k]) by {
            if k < rest.len() {
                let j = choose|j: int| 0 <= j < t.len() && t[j] == rest[k];
                assert(s[j] == rest[k]);
            } else {
                assert(s[s.len() - 1] == s.last());
            }
        }
        if distinct_holders(s) {
            assert(distinct_holders(t)) by {
                assert forall|i: int, j: int| 0 <= i < j < t.len() implies (#[trigger] t[i]).0 != (#[trigger] t[j]).0 by {
                    assert(t[i] == s[i] && t[j] == s[j]);
                }
            }
            let r = ready_holders(os, s);
            assert forall|i: int, j: int| 0 <= i < j < r.len() implies (#[trigger] r[i]).0 != (#[trigger] r[j]).0 by {
                if j == rest.len() {
                    let a = choose|a: int| 0 <= a < t.len() && t[a] == rest[i];
                    assert(s[a] == t[a]);
                    assert(s[s.len() - 1] == s.last());
                } else {
                    assert(r[i] == rest[i] && r[j] == rest[j]);
                }
            }
        }
    }
}

/// Every kept holder is live and ready to run.
pub proof fn lemma_ready_holders(os: Os, s: Seq<(PId, u64)>)
    ensures
        forall|k: int|
            0 <= k < ready_holders(os, s).len() ==> {
                let pid = (#[trigger] ready_holders(os, s)[k]).0;
                os.lookup(pid) is Some && can_run(os.lookup(pid)->0)
            },
    decreases s.len(),
{
    if s.len() > 0 {
        lemma_ready_holders(os, s.drop_last());
    }
}

impl Scheduler for FairShareScheduler {
    /// The recorded total is the capped sum of the holders' tickets, and no
    /// process holds tickets twice.
    closed spec fn inv(&self) -> bool {
        &&& self.total_ticket == capped_total(self.process_ticket@)
        &&& distinct_holders(self.process_ticket@)
    }

    /// `pid` holds `tickets_for` its weight, replacing what it held before.
    fn on_process_ready(&mut self, os: &mut Os, pid: PId)
        ensures
            *final(os) == *old(os),
            old(os).lookup(pid) is None ==> final(self).holders() == old(self).holders(),
            final(self).ticket_multiplier() == old(self).ticket_multiplier(),
            old(os).lookup(pid) is Some ==> {
                let h = (pid, tickets_for(old(os).lookup(pid)->0.priority, old(self).ticket_multiplier()));
                ||| exists|k: int|
                    0 <= k < old(self).holders().len() && (#[trigger] old(self).holders()[k]).0 == pid
                        && final(self).holders() == old(self).holders().update(k, h)
                ||| (forall|k: int|
                    0 <= k < old(self).holders().len() ==> (#[trigger] old(self).holders()[k]).0 != pid)
                    && final(self).holders() == old(self).holders().push(h)
            },
    {
        let priority = match os.get_proc(pid) {
            Some(p) => p.priority,
            None => {
                return;
            },
        };
        let ticket = match priority.checked_mul(self.multiplier) {
            Some(t) => t,
            None => u64::MAX,
        };
        let n = self.process_ticket.len();
        let mut i: usize = 0;
        while i < n
            invariant
                n == self.process_ticket@.len(),
                self.process_ticket@ == old(self).process_ticket@,
                self.multiplier == old(self).multiplier,
                i <= n,
                *os == *old(os),
                old(os).lookup(pid) is Some,
                ticket == tickets_for(old(os).lookup(pid)->0.priority, old(self).multiplier),
                old(os).wf(),
                forall|k: int| 0 <= k < i ==> (#[trigger] old(self).process_ticket@[k]).0 != pid,
                distinct_holders(old(self).process_ticket@),
            decreases n - i,
        {
            if self.process_ticket[i].0 == pid {
                self.process_ticket.set(i, (pid, ticket));
                assert(self.process_ticket@[i as int] == (pid, ticket));
                assert(old(self).holders()[i as int].0 == pid);
                assert forall|k: int| 0 <= k < n implies (#[trigger] self.process_ticket@[k]).0
                    == old(self).process_ticket@[k].0 by {}
                assert(distinct_holders(self.process_ticket@)) by {
                    assert forall|a: int, b: int| 0 <= a < b < n implies (#[trigger] self.process_ticket@[a]).0
                        != (#[trigger] self.process_ticket@[b]).0 by {
                        assert(old(self).process_ticket@[a].0 != old(self).process_ticket@[b].0);
                    }
                }
                self.total_ticket = total_tickets(&self.process_ticket);
                return;
            }
            i = i + 1;
        }
        self.process_ticket.push((pid, ticket));
        assert(self.process_ticket@[n as int] == (pid, ticket));
        self.total_ticket = total_tickets(&self.process_ticket);
    }

    /// Holders that are no longer live drop out, and a draw among the others
    /// picks the process to run; with no tickets the processor is left idle.
    fn switch_process(&mut self, os: &mut Os)
        ensures
            final(self).holders() == ready_holders(*old(os), old(self).holders()),
            final(self).ticket_multiplier() == old(self).ticket_multiplier(),
            final(self).holders().len() == 0 || capped_total(final(self).holders()) == 0 ==> final(os).running() is None,
            final(os).running() matches Some(p) ==> exists|k: int|
                0 <= k < final(self).holders().len() && (#[trigger] final(self).holders()[k]).0 == p,
            capped_total(final(self).holders()) > 0 ==> exists|d: nat|
                1 <= d <= capped_total(final(self).holders()) && final(os).running() == #[trigger] winner_of(
                    final(self).holders(),
                    d,
                ),
    {
        proof {
            lemma_ready_holders(*os, self.process_ticket@);
            lemma_ready_holders_distinct(*os, self.process_ticket@);
        }
        self.retain_live(os);
        self.total_ticket = total_tickets(&self.process_ticket);
        if self.total_ticket == 0 {
            self.next_pid = None;
        } else {
            let random = random_number() as u64;
            self.next_pid = draw_winner(&self.process_ticket, random);
            proof {
                if self.next_pid is Some {
                    lemma_winner_holds(self.process_ticket@, (random % self.total_ticket + 1) as nat);
                }
            }
            let ghost d = (random % self.total_ticket + 1) as nat;
            os.switch_proc(self.next_pid);
            assert(os.running() == winner_of(self.process_ticket@, d));
            return;
        }
        os.switch_proc(self.next_pid);
    }

    /// A new draw on every tick, as `switch_process` makes it.
    fn on_process_burst(&mut self, os: &mut Os, pid: PId)
        ensures
            final(self).holders() == ready_holders(*old(os), old(self).holders()),
            final(self).ticket_multiplier() == old(self).ticket_multiplier(),
            final(self).holders().len() == 0 || capped_total(final(self).holders()) == 0 ==> final(os).running() is None,
            final(os).running() matches Some(p) ==> exists|k: int|
                0 <= k < final(self).holders().len() && (#[trigger] final(self).holders()[k]).0 == p,
            capped_total(final(self).holders()) > 0 ==> exists|d: nat|
                1 <= d <= capped_total(final(self).holders()) && final(os).running() == #[trigger] winner_of(
                    final(self).holders(),
                    d,
                ),
    {
        self.switch_process(os);
    }
}

/// A winner is one of the holders.
pub proof fn lemma_winner_holds(tickets: Seq<(PId, u64)>, draw: nat)
    ensures
        winner_of(tickets, draw) matches Some(p) ==> exists|k: int|
            0 <= k < tickets.len() && (#[trigger] tickets[k]).0 == p,
    decreases tickets.len(),
{
    if tickets.len() > 0 && draw > tickets[0].1 {
        lemma_winner_holds(tickets.drop_first(), (draw - tickets[0].1) as nat);
        if let Some(p) = winner_of(tickets, draw) {
            let k = choose|k: int| 0 <= k < tickets.drop_first().len() && (#[trigger] tickets.drop_first()[k]).0 == p;
            assert(tickets[k + 1].0 == p);
        }
    }
}


/// Three levels without repeats, no value on two of them, and `d` on none.
pub open spec fn levels_ok(a: Seq<PId>, b: Seq<PId>, c: Seq<PId>, d: Option<PId>) -> bool {
    &&& a.no_duplicates()
    &&& b.no_duplicates()
    &&& c.no_duplicates()
    &&& forall|p: PId| #[trigger] a.contains(p) ==> !b.contains(p) && !c.contains(p)
    &&& forall|p: PId| #[trigger] b.contains(p) ==> !c.contains(p)
    &&& d matches Some(p) ==> !a.contains(p) && !b.contains(p) && !c.contains(p)
}

/// Levels that only lost values, and gained at most `x` on level `lx`
/// (3 for none), stay well formed.
pub proof fn lemma_levels_ok_move(
    a: Seq<PId>,
    b: Seq<PId>,
    c: Seq<PId>,
    d: Option<PId>,
    a2: Seq<PId>,
    b2: Seq<PId>,
    c2: Seq<PId>,
    d2: Option<PId>,
    x: PId,
    lx: int,
)
    requires
        levels_ok(a, b, c, d),
        a2.no_duplicates(),
        b2.no_duplicates(),
        c2.no_duplicates(),
        forall|p: PId| #[trigger] a2.contains(p) ==> a.contains(p) || (lx == 0 && p == x),
        forall|p: PId| #[trigger] b2.contains(p) ==> b.contains(p) || (lx == 1 && p == x),
        forall|p: PId| #[trigger] c2.contains(p) ==> c.contains(p) || (lx == 2 && p == x),
        lx != 0 ==> !a2.contains(x),
        lx != 1 ==> !b2.contains(x),
        lx != 2 ==> !c2.contains(x),
        d2 matches Some(q) ==> !a2.contains(q) && !b2.contains(q) && !c2.contains(q),
    ensures
        levels_ok(a2, b2, c2, d2),
{
}

/// Without repeats, taking a value out leaves no copy of it, and keeps the
/// other values.
pub proof fn lemma_remove_value_absent(s: Seq<PId>, x: PId)
    requires
        s.no_duplicates(),
    ensures
        !s.remove_value(x).contains(x),
        forall|y: PId| y != x ==> (s.remove_value(x).contains(y) <==> #[trigger] s.contains(y)),
{
    s.index_of_first_ensures(x);
    if s.contains(x) {
        let i = s.index_of_first(x)->0;
        let r = s.remove(i);
        assert forall|k: int| 0 <= k < r.len() implies r[k] != x by {
            if k < i {
                assert(r[k] == s[k]);
            } else {
                assert(r[k] == s[k + 1]);
            }
        }
        assert forall|y: PId| y != x && #[trigger] s.contains(y) implies r.contains(y) by {
            let k = choose|k: int| 0 <= k < s.len() && s[k] == y;
            if k < i {
                assert(r[k] == y);
            } else {
                assert(r[k - 1] == y);
            }
        }
        assert forall|y: PId| y != x && r.contains(y) implies #[trigger] s.contains(y) by {
            let k = choose|k: int| 0 <= k < r.len() && r[k] == y;
            if k < i {
                assert(s[k] == y);
            } else {
                assert(s[k + 1] == y);
            }
        }
    }
}

/// Multi-level feedback queue: three FIFO levels, 0 the highest. A process
/// that uses up the quantum of level 0 or 1 moves one level down; a process
/// at the lowest level gives way whenever a higher level has work. A process
/// that comes back from waiting starts again at level 0.
pub struct MLFQScheduler {
    ready_queues: Vec<IndexSet<PId>>,
    used_time_slice_map: HashMap<PId, u64>,
    running_process: Option<(PId, usize)>,
    time_slices: [u64; 2],
}

impl MLFQScheduler {
    pub fn new(time_slices: [u64; 2]) -> (r: Self)
        ensures
            r.inv(),
            forall|l: int| 0 <= l < 3 ==> (#[trigger] r.level(l)).len() == 0,
            r.quanta() == time_slices@,
    {
        let mut ready_queues: Vec<IndexSet<PId>> = Vec::new();
        ready_queues.push(set_new());
        ready_queues.push(set_new());
        ready_queues.push(set_new());
        MLFQScheduler {
            ready_queues,
            used_time_slice_map: HashMap::new(),
            running_process: None,
            time_slices,
        }
    }

    /// The ready processes of level `l`, oldest first.
    pub closed spec fn level(&self, l: int) -> Seq<PId> {
        set_items(self.ready_queues@[l])
    }

    pub closed spec fn quanta(&self) -> Seq<u64> {
        self.time_slices@
    }

    /// The process this policy last dispatched, with its level.
    pub closed spec fn dispatched(&self) -> Option<(PId, usize)> {
        self.running_process
    }

    /// Ticks `pid` has run at its current level.
    pub closed spec fn slice_used(&self, pid: PId) -> u64 {
        if self.used_time_slice_map@.contains_key(pid) {
            self.used_time_slice_map@[pid]
        } else {
            0
        }
    }

    /// The level of `pid`: the one it was dispatched from while it runs,
    /// otherwise the highest level that holds it, and 0 for a stranger.
    pub open spec fn level_of(&self, pid: PId) -> nat {
        if self.dispatched() is Some && (self.dispatched()->0).0 == pid {
            (self.dispatched()->0).1 as nat
        } else if self.level(0).contains(pid) {
            0
        } else if self.level(1).contains(pid) {
            1
        } else if self.level(2).contains(pid) {
            2
        } else {
            0
        }
    }

    pub fn get_priority(&self, pid: PId) -> (r: usize)
        requires
            self.inv(),
        ensures
            r == self.level_of(pid),
            r < 3,
    {
        if let Some((p, priority)) = self.running_process {
            if p == pid {
                return priority;
            }
        }
        let mut l: usize = 0;
        while l < 3
            invariant
                self.inv(),
                l <= 3,
                !(self.dispatched() matches Some((p, _)) && p == pid),
                forall|k: int| 0 <= k < l ==> !(#[trigger] self.level(k)).contains(pid),
            decreases 3 - l,
        {
            if set_contains(&self.ready_queues[l], pid) {
                return l;
            }
            l = l + 1;
        }
        0
    }

    /// Moves `pid` one level down, unless it is at the lowest level.
    fn level_down(&mut self, pid: PId)
        requires
            old(self).inv(),
        ensures
            final(self).inv(),
            old(self).level_of(pid) < 2 && (old(self).dispatched() matches Some((p, _)) && p == pid)
                ==> final(self).dispatched() is None,
            !(old(self).level_of(pid) < 2 && (old(self).dispatched() matches Some((p, _)) && p == pid))
                ==> final(self).dispatched() == old(self).dispatched(),
            final(self).quanta() == old(self).quanta(),
            forall|p: PId| #[trigger] final(self).slice_used(p) == old(self).slice_used(p),
            old(self).level_of(pid) >= 2 ==> forall|l: int| 0 <= l < 3 ==> #[trigger] final(self).level(l) == old(self).level(l),
            old(self).level_of(pid) < 2 ==> {
                let l = old(self).level_of(pid) as int;
                &&& final(self).level(l) == old(self).level(l).remove_value(pid)
                &&& final(self).level(l + 1).contains(pid)
                &&& forall|k: int| 0 <= k < 3 && k != l && k != l + 1 ==> #[trigger] final(self).level(k) == old(self).level(k)
            },
    {
        let pr = self.get_priority(pid);
        if pr >= 2 {
            return;
        }
        if self.is_proc_running(pid) {
            self.running_process = None;
        }
        proof {
            lemma_remove_value_absent(self.level(pr as int), pid);
        }
        let ghost mid = *self;
        set_remove(&mut self.ready_queues[pr], pid);
        let ghost before = set_items(self.ready_queues@[pr + 1]);
        let added = set_insert(&mut self.ready_queues[pr + 1], pid);
        proof {
            if added {
                assert(before.push(pid)[before.len() as int] == pid);
            }
            let l = pr as int;
            assert(before == mid.level(l + 1));
            assert forall|k: int| 0 <= k < 3 && k != l && k != l + 1 implies #[trigger] self.level(k) == mid.level(k) by {
                assert(self.ready_queues@[k] == mid.ready_queues@[k]);
            }
            assert(self.level(l) == mid.level(l).remove_value(pid));
            assert forall|q: PId| #[trigger] self.level(l + 1).contains(q) implies mid.level(l + 1).contains(q) || q == pid by {
                if added {
                    let lv = self.level(l + 1);
                    let k = choose|k: int| 0 <= k < lv.len() && lv[k] == q;
                    if k < before.len() {
                        assert(before[k] == q);
                    }
                }
            }
            let dm = if mid.running_process is Some { Some((mid.running_process->0).0) } else { None };
            let dn = if self.running_process is Some { Some((self.running_process->0).0) } else { None };
            if dm is Some && dm->0 != pid {
                assert(!mid.level(l + 1).contains(dm->0));
            }
            if l == 0 {
                assert(!mid.level(2).contains(pid) || mid.level(0).contains(pid));
            }
            lemma_levels_ok_move(
                mid.level(0), mid.level(1), mid.level(2), dm,
                self.level(0), self.level(1), self.level(2), dn, pid, l + 1,
            );
        }
    }

    pub fn is_proc_running(&self, pid: PId) -> (r: bool)
        ensures
            r == (self.dispatched() matches Some((p, _)) && p == pid),
    {
        match self.running_process {
            Some((id, _)) => id == pid,
            None => false,
        }
    }
}

impl Scheduler for MLFQScheduler {
    /// Three levels, each without repeats; no process is on two levels, and
    /// the process this policy dispatched is on none.
    closed spec fn inv(&self) -> bool {
        &&& self.ready_queues@.len() == 3
        &&& self.running_process matches Some((_, l)) ==> l < 3
        &&& levels_ok(
            self.level(0),
            self.level(1),
            self.level(2),
            if self.running_process is Some { Some((self.running_process->0).0) } else { None },
        )
    }

    /// A process that becomes ready enters level 0.
    fn on_process_ready(&mut self, os: &mut Os, pid: PId)
        ensures
            *final(os) == *old(os),
            final(self).level(0).contains(pid),
            final(self).level(0) == if old(self).level(0).contains(pid) {
                old(self).level(0)
            } else {
                old(self).level(0).push(pid)
            },
            forall|l: int| 1 <= l < 3 ==> #[trigger] final(self).level(l) == old(self).level(l).remove_value(pid),
            !final(self).level(1).contains(pid),
            !final(self).level(2).contains(pid),
            old(self).dispatched() matches Some((p, _)) && p == pid ==> final(self).dispatched() is None,
            !(old(self).dispatched() matches Some((p, _)) && p == pid) ==> final(self).dispatched() == old(self).dispatched(),
    {
        if self.is_proc_running(pid) {
            self.running_process = None;
        }
        proof {
            lemma_remove_value_absent(self.level(1), pid);
            lemma_remove_value_absent(self.level(2), pid);
        }
        set_remove(&mut self.ready_queues[1], pid);
        set_remove(&mut self.ready_queues[2], pid);
        let ghost before = set_items(self.ready_queues@[0]);
        let added = set_insert(&mut self.ready_queues[0], pid);
        proof {
            if added {
                assert(before.push(pid)[before.len() as int] == pid);
            }
            assert(self.level(0) == before.push(pid) || self.level(0) == before);
            assert(self.level(1) == old(self).level(1).remove_value(pid));
            assert(self.level(2) == old(self).level(2).remove_value(pid));
            assert forall|a: int, b: int, p: PId|
                0 <= a < b < 3 && #[trigger] self.level(a).contains(p) implies !#[trigger] self.level(b).contains(p) by {
                if self.level(b).contains(p) {
                    assert(p != pid);
                    assert(old(self).level(b).contains(p));
                    if a == 0 && !before.contains(p) {
                        assert(self.level(0).last() == pid || self.level(0) == before);
                        let k = choose|k: int| 0 <= k < self.level(0).len() && self.level(0)[k] == p;
                        if self.level(0) == before.push(pid) && k < before.len() {
                            assert(before[k] == p);
                        }
                    }
                    assert(old(self).level(a).contains(p));
                }
            }
        }
    }

    /// The oldest process of the highest level that has one is dispatched.
    fn switch_process(&mut self, os: &mut Os)
        ensures
            (forall|l: int| 0 <= l < 3 ==> (#[trigger] old(self).level(l)).len() == 0) ==> final(os).running() is None && final(self).dispatched() is None,
            final(self).dispatched() matches Some((p, l)) ==> {
                &&& l < 3
                &&& old(self).level(l as int).len() > 0
                &&& p == old(self).level(l as int)[0]
                &&& final(self).level(l as int) == old(self).level(l as int).drop_first()
                &&& forall|k: int| 0 <= k < l ==> (#[trigger] old(self).level(k)).len() == 0
            },
            forall|k: int|
                0 <= k < 3 && (exists|j: int| 0 <= j < k && (#[trigger] old(self).level(j)).len() > 0)
                    ==> #[trigger] final(self).level(k) == old(self).level(k),
            forall|k: int| 0 <= k < 3 && old(self).level(k).len() == 0 ==> #[trigger] final(self).level(k) == old(self).level(k),
            (exists|l: int| 0 <= l < 3 && (#[trigger] old(self).level(l)).len() > 0) ==> exists|l: int| {
                &&& 0 <= l < 3
                &&& (#[trigger] old(self).level(l)).len() > 0
                &&& forall|k: int| 0 <= k < l ==> (#[trigger] old(self).level(k)).len() == 0
                &&& final(self).level(l) == old(self).level(l).drop_first()
                &&& old(os).ready(old(self).level(l)[0]) ==> final(self).dispatched() == Some(
                    (old(self).level(l)[0], l as usize),
                ) && final(os).running() == Some(old(self).level(l)[0])
                &&& !old(os).ready(old(self).level(l)[0]) ==> final(self).dispatched() is None
                    && final(os).running() is None
            },
            final(self).dispatched() matches Some((p, _)) ==> (old(os).lookup(p) is Some && can_run(old(os).lookup(p)->0)
                ==> final(os).running() == Some(p)),
            forall|p: PId| #[trigger] final(self).slice_used(p) == old(self).slice_used(p),
            final(self).quanta() == old(self).quanta(),
    {
        let mut l: usize = 0;
        while l < 3
            invariant
                self.inv(),
                l <= 3,
                os.wf(),
                *os == *old(os),
                self.used_time_slice_map == old(self).used_time_slice_map,
                self.time_slices == old(self).time_slices,
                self.running_process == old(self).running_process,
                forall|k: int| 0 <= k < 3 ==> #[trigger] self.level(k) == old(self).level(k),
                forall|k: int| 0 <= k < l ==> (#[trigger] old(self).level(k)).len() == 0,
            decreases 3 - l,
        {
            let ghost prev = self.ready_queues@;
            assert(self.level(l as int) == old(self).level(l as int));
            assert forall|k: int| 0 <= k < 3 implies set_items(#[trigger] prev[k]) == old(self).level(k) by {
                assert(self.level(k) == old(self).level(k));
            }
            let next = set_pop_first(&mut self.ready_queues[l]);
            if let Some(pid) = next {
                assert(old(self).level(l as int).len() > 0);
                proof {
                    let s0 = set_items(prev[l as int]);
                    assert(s0[0] == pid);
                    assert forall|q: PId| #[trigger] s0.drop_first().contains(q) implies s0.contains(q) && q != pid by {
                        let k = choose|k: int| 0 <= k < s0.drop_first().len() && s0.drop_first()[k] == q;
                        assert(s0[k + 1] == q);
                    }
                    assert(self.level(l as int) == s0.drop_first());
                    assert forall|k: int| 0 <= k < 3 && k != l implies #[trigger] self.level(k) == set_items(prev[k]) by {
                        assert(self.ready_queues@[k] == prev[k]);
                    }
                    assert(s0.contains(pid));
                    let d0 = if old(self).running_process is Some { Some((old(self).running_process->0).0) } else { None };
                    lemma_levels_ok_move(
                        set_items(prev[0]), set_items(prev[1]), set_items(prev[2]), d0,
                        self.level(0), self.level(1), self.level(2), Some(pid), pid, 3,
                    );
                }
                if os.is_ready(pid) {
                    self.running_process = Some((pid, l));
                    os.switch_proc(Some(pid));
                } else {
                    self.running_process = None;
                    os.switch_proc(None);
                }
                return;
            }
            proof {
                assert forall|k: int| 0 <= k < 3 implies #[trigger] self.level(k) == old(self).level(k) by {
                    if k == l {
                        assert(set_items(self.ready_queues@[k]) == set_items(prev[k]));
                    } else {
                        assert(self.ready_queues@[k] == prev[k]);
                    }
                }
            }
            l = l + 1;
        }
        self.running_process = None;
        os.switch_proc(None);
    }

    /// At level 0 or 1: once the slice the process had already used reaches
    /// the level's quantum, it moves one level down with an empty slice,
    /// becomes `Runnable`, and the front of the highest non-empty level is
    /// dispatched; otherwise the interval is added to its slice. At the lowest
    /// level it gives way when a higher level has a ready process: it goes
    /// back to the lowest level and the front of the highest busy level is
    /// dispatched.
    fn on_process_burst(&mut self, os: &mut Os, pid: PId)
        ensures
            old(os).running() != Some(pid) ==> *final(os) == *old(os) && forall|l: int| 0 <= l < 3 ==> #[trigger] final(self).level(l) == old(self).level(l),
            old(os).running() == Some(pid) && old(self).level_of(pid) < 2 ==> {
                let l = old(self).level_of(pid) as int;
                let prev = old(self).slice_used(pid);
                let sum = prev + old(os).spec_interval();
                &&& prev < old(self).quanta()[l] ==> {
                    &&& final(self).slice_used(pid) == if sum > u64::MAX { u64::MAX as int } else { sum }
                    &&& *final(os) == *old(os)
                    &&& final(self).dispatched() == old(self).dispatched()
                    &&& forall|k: int| 0 <= k < 3 ==> #[trigger] final(self).level(k) == old(self).level(k)
                }
                &&& prev >= old(self).quanta()[l] ==> {
                    &&& final(self).slice_used(pid) == 0
                    &&& old(os).ready(pid) ==> final(self).level_of(pid) == l + 1
                    &&& final(os).running() == if final(self).dispatched() is Some {
                        Some((final(self).dispatched()->0).0)
                    } else {
                        None
                    }
                    &&& final(self).dispatched() matches Some((q, k)) ==> k <= l + 1
                }
            },
            old(os).running() == Some(pid) && old(self).level_of(pid) >= 2 ==> {
                &&& old(self).level(0).len() == 0 && old(self).level(1).len() == 0 ==> *final(os) == *old(os)
                    && final(self).dispatched() == old(self).dispatched()
                    && forall|k: int| 0 <= k < 3 ==> #[trigger] final(self).level(k) == old(self).level(k)
                &&& old(self).level(0).len() > 0 || old(self).level(1).len() > 0 ==> {
                    &&& final(self).level_of(pid) == 2
                    &&& exists|h: int| {
                        &&& 0 <= h < 2
                        &&& (#[trigger] old(self).level(h)).len() > 0
                        &&& forall|k: int| 0 <= k < h ==> (#[trigger] old(self).level(k)).len() == 0
                        &&& final(self).level(h) == old(self).level(h).drop_first()
                        &&& old(os).ready(old(self).level(h)[0]) ==> final(self).dispatched() == Some(
                            (old(self).level(h)[0], h as usize),
                        ) && final(os).running() == Some(old(self).level(h)[0])
                        &&& !old(os).ready(old(self).level(h)[0]) ==> final(self).dispatched() is None
                            && final(os).running() is None
                    }
                }
            },
    {
        if !os.is_proc_running(pid) {
            return;
        }
        let priority = self.get_priority(pid);
        if priority >= 2 {
            if !set_is_empty(&self.ready_queues[0]) || !set_is_empty(&self.ready_queues[1]) {
                self.running_process = None;
                let ghost before = set_items(self.ready_queues@[2]);
                let added = set_insert(&mut self.ready_queues[2], pid);
                proof {
                    if added {
                        assert(before.push(pid)[before.len() as int] == pid);
                    }
                    assert(self.level(0) == old(self).level(0));
                    assert(self.level(1) == old(self).level(1));
                    assert(before == old(self).level(2));
                    assert forall|q: PId| #[trigger] self.level(2).contains(q) implies old(self).level(2).contains(q) || q == pid by {
                        if added {
                            let lv = self.level(2);
                            let k = choose|k: int| 0 <= k < lv.len() && lv[k] == q;
                            if k < before.len() {
                                assert(before[k] == q);
                            }
                        }
                    }
                    let d0 = if old(self).running_process is Some { Some((old(self).running_process->0).0) } else { None };
                    assert(!old(self).level(0).contains(pid) && !old(self).level(1).contains(pid));
                    lemma_levels_ok_move(
                        old(self).level(0), old(self).level(1), old(self).level(2), d0,
                        self.level(0), self.level(1), self.level(2), None, pid, 2,
                    );
                    assert(self.level(2).contains(pid));
                    assert(self.level(0).len() > 0 || self.level(1).len() > 0);
                }
                let ghost mid = *self;
                let ghost mid_os = *os;
                os.set_runnable(pid);
                let ghost mid_os2 = *os;
                self.switch_process(os);
                proof {
                    lemma_only_dispatched_trans(&mid_os, &mid_os2, os);
                    assert forall|q: PId| q != pid implies #[trigger] mid_os2.ready(q) == old(os).ready(q) by {
                        if q < old(os).table().len() {
                            assert(mid_os2.table()[q as int] == old(os).table()[q as int]);
                        }
                    }
                    let h = choose|h: int| {
                        &&& 0 <= h < 3
                        &&& (#[trigger] mid.level(h)).len() > 0
                        &&& forall|k: int| 0 <= k < h ==> (#[trigger] mid.level(k)).len() == 0
                        &&& self.level(h) == mid.level(h).drop_first()
                        &&& mid_os2.ready(mid.level(h)[0]) ==> self.dispatched() == Some(
                            (mid.level(h)[0], h as usize),
                        ) && os.running() == Some(mid.level(h)[0])
                        &&& !mid_os2.ready(mid.level(h)[0]) ==> self.dispatched() is None
                            && os.running() is None
                    };
                    assert(h < 2);
                    assert(mid.level(h).contains(mid.level(h)[0]));
                    assert(mid.level(h)[0] != pid);
                    assert(self.level(2) == mid.level(2));
                    assert(!self.level(0).contains(pid)) by {
                        if h == 0 {
                            if self.level(0).contains(pid) {
                                let m = choose|m: int| 0 <= m < self.level(0).len() && self.level(0)[m] == pid;
                                assert(mid.level(0)[m + 1] == pid);
                            }
                        }
                    }
                    assert(!self.level(1).contains(pid)) by {
                        if h == 1 {
                            if self.level(1).contains(pid) {
                                let m = choose|m: int| 0 <= m < self.level(1).len() && self.level(1)[m] == pid;
                                assert(mid.level(1)[m + 1] == pid);
                            }
                        } else {
                            assert(self.level(1) == mid.level(1) || self.level(1) == mid.level(1).drop_first());
                        }
                    }
                    assert(old(self).level(h) == mid.level(h));
                }
            }
        } else {
            let prev = match self.used_time_slice_map.get(&pid) {
                Some(u) => *u,
                None => 0,
            };
            if prev >= self.time_slices[priority] {
                self.level_down(pid);
                self.used_time_slice_map.insert(pid, 0);
                let ghost mid = *self;
                let ghost mid_os = *os;
                os.set_runnable(pid);
                let ghost mid_os2 = *os;
                self.switch_process(os);
                proof {
                    lemma_only_dispatched_trans(&mid_os, &mid_os2, os);
                    let nl = (priority + 1) as int;
                    assert(mid.level(nl).contains(pid));
                    if old(os).ready(pid) {
                        assert(mid_os2.ready(pid));
                        let h = choose|h: int| {
                            &&& 0 <= h < 3
                            &&& (#[trigger] mid.level(h)).len() > 0
                            &&& forall|k: int| 0 <= k < h ==> (#[trigger] mid.level(k)).len() == 0
                            &&& self.level(h) == mid.level(h).drop_first()
                            &&& mid_os2.ready(mid.level(h)[0]) ==> self.dispatched() == Some(
                                (mid.level(h)[0], h as usize),
                            ) && os.running() == Some(mid.level(h)[0])
                            &&& !mid_os2.ready(mid.level(h)[0]) ==> self.dispatched() is None
                                && os.running() is None
                        };
                        assert(h <= nl);
                        if mid.level(h)[0] == pid {
                            assert(self.level_of(pid) == nl);
                        } else {
                            if h == nl {
                                let m = choose|m: int| 0 <= m < mid.level(nl).len() && mid.level(nl)[m] == pid;
                                assert(self.level(nl)[m - 1] == pid);
                            } else {
                                assert(self.level(nl) == mid.level(nl));
                            }
                            assert(self.level(nl).contains(pid));
                            assert forall|k: int| 0 <= k < nl implies !(#[trigger] self.level(k)).contains(pid) by {
                                assert(!mid.level(k).contains(pid));
                                if self.level(k).contains(pid) {
                                    if k == h {
                                        let m = choose|m: int| 0 <= m < self.level(k).len() && self.level(k)[m] == pid;
                                        assert(mid.level(k)[m + 1] == pid);
                                    } else {
                                        assert(self.level(k) == mid.level(k));
                                    }
                                }
                            }
                        }
                    }
                }
            } else {
                let used = add_slice(prev, os.interval());
                self.used_time_slice_map.insert(pid, used);
            }
        }
    }
}

} // verus!
