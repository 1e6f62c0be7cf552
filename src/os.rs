use crate::proc::{PId, Process, ProcessState, Task, total_duration, elapsed, burst_step, bump_step};
use crate::scheduler::{Scheduler, tick_effect};
use crate::timer::{HashedWheel, WheelModel};
use vstd::prelude::*;

verus! {

/// Default ceiling on the number of live processes.
pub const MAX_PID: usize = 1024;

/// Why the kernel refused a process.
#[derive(Debug, Clone, Copy, PartialEq, Eq, Structural)]
pub enum OsError {
    /// The live-process ceiling is reached, or no identifier is left.
    CapacityExceeded,
    /// The process's bookkeeping does not agree with itself.
    InvariantViolation,
}

/// Number of occupied slots.
pub open spec fn count_live(s: Seq<Option<Process>>) -> nat
    decreases s.len(),
{
    if s.len() == 0 {
        0
    } else {
        count_live(s.drop_last()) + if s.last() is Some { 1nat } else { 0nat }
    }
}

pub proof fn lemma_count_live_push(s: Seq<Option<Process>>, x: Option<Process>)
    ensures
        count_live(s.push(x)) == count_live(s) + if x is Some { 1nat } else { 0nat },
{
    assert(s.push(x).drop_last() =~= s);
}

pub proof fn lemma_count_live_update(s: Seq<Option<Process>>, i: int, x: Option<Process>)
    requires
        0 <= i < s.len(),
    ensures
        count_live(s.update(i, x)) + (if s[i] is Some { 1nat } else { 0nat }) == count_live(s) + (
        if x is Some { 1nat } else { 0nat }),
    decreases s.len(),
{
    if i == s.len() - 1 {
        assert(s.update(i, x).drop_last() =~= s.drop_last());
    } else {
        lemma_count_live_update(s.drop_last(), i, x);
        assert(s.update(i, x).drop_last() =~= s.drop_last().update(i, x));
    }
}

pub proof fn lemma_count_live_bound(s: Seq<Option<Process>>)
    ensures
        count_live(s) <= s.len(),
    decreases s.len(),
{
    if s.len() > 0 {
        lemma_count_live_bound(s.drop_last());
    }
}

/// A process that may be put on the processor.
pub open spec fn can_run(p: Process) -> bool {
    p.state == ProcessState::Runnable || p.state == ProcessState::Running
}

/// A slot as it was, or a process that was ready to run put on or taken off
/// the processor: only its state changed, between `Runnable` and `Running`.
pub open spec fn dispatched_or_same(o: Option<Process>, n: Option<Process>) -> bool {
    n == o || (o is Some && can_run(o->0) && n is Some && can_run(n->0) && n == Some(
        Process { state: n->0.state, ..o->0 },
    ))
}

/// A slot as it was, or a process that was waiting or ready to run now
/// ready to run: only its state changed.
pub open spec fn admitted_or_same(o: Option<Process>, n: Option<Process>) -> bool {
    n == o || (o is Some && (o->0.state == ProcessState::Waiting || can_run(o->0)) && n is Some
        && can_run(n->0) && n == Some(Process { state: n->0.state, ..o->0 }))
}

pub proof fn lemma_admitted_then_dispatched(a: Option<Process>, b: Option<Process>, c: Option<Process>)
    requires
        admitted_or_same(a, b),
        dispatched_or_same(b, c),
    ensures
        admitted_or_same(a, c),
{
}

/// The terminated processes of a table, in slot order.
pub open spec fn terminated_of(s: Seq<Option<Process>>) -> Seq<Process>
    decreases s.len(),
{
    if s.len() == 0 {
        Seq::empty()
    } else {
        let rest = terminated_of(s.drop_last());
        if s.last() is Some && s.last()->0.spec_is_complete() {
            rest.push(s.last()->0)
        } else {
            rest
        }
    }
}

pub proof fn lemma_dispatched_trans(a: Option<Process>, b: Option<Process>, c: Option<Process>)
    requires
        dispatched_or_same(a, b),
        dispatched_or_same(b, c),
    ensures
        dispatched_or_same(a, c),
{
}

/// One tick of the kernel from `old` to `new`: the clock advances by the
/// interval and the wheel by one step, the shared per-tick algorithm runs,
/// and terminated processes leave the table.
pub open spec fn tick_step(old: Os, new: Os) -> bool {
    &&& new.spec_clock() == old.spec_clock() + old.spec_interval()
    &&& new.spec_interval() == old.spec_interval()
    &&& new.spec_max_procs() == old.spec_max_procs()
    &&& new.timers().cursor == old.timers().ticked(1).cursor
    &&& forall|i: int|
        0 <= i < new.table().len() && (#[trigger] new.table()[i]) is Some
            ==> !new.table()[i]->0.spec_is_complete()
    &&& exists|a: Os, b: Os|
        #![trigger tick_effect(a, b)]
        a.timers() == old.timers().ticked(1) && a.table() == old.table() && a.running()
            == old.running() && a.spec_clock() == old.spec_clock() + old.spec_interval()
            && tick_effect(a, b) && new.compacted_from(&b)
}

/// Steps that at most change hands on the processor compose.
pub proof fn lemma_only_dispatched_trans(a: &Os, b: &Os, c: &Os)
    requires
        b.only_dispatched(a),
        c.only_dispatched(b),
    ensures
        c.only_dispatched(a),
{
    assert forall|i: int| 0 <= i < a.table().len() implies #[trigger] dispatched_or_same(
        a.table()[i],
        c.table()[i],
    ) by {
        lemma_dispatched_trans(a.table()[i], b.table()[i], c.table()[i]);
    }
}

/// Each state of `states` is one tick after the one before it.
pub open spec fn tick_run(states: Seq<Os>) -> bool {
    forall|i: int| 0 <= i < states.len() - 1 ==> #[trigger] tick_step(states[i], states[i + 1])
}


/// Ticks from `clock` until the first tick whose clock passes `arrive`.
pub open spec fn arrival_delay(clock: u64, arrive: u64, interval: u64) -> nat {
    if arrive >= clock {
        ((arrive - clock) / (interval as int) + 1) as nat
    } else {
        1
    }
}

/// A wheel deadline as the wheel takes it, at least one tick ahead.
pub open spec fn wheel_deadline(d: nat) -> nat {
    if d == 0 {
        1
    } else if d > isize::MAX {
        isize::MAX as nat
    } else {
        d
    }
}

fn to_deadline(d: u64) -> (r: isize)
    ensures
        r as nat == wheel_deadline(d as nat),
        r > 0,
{
    if d == 0 {
        1
    } else if d > isize::MAX as u64 {
        isize::MAX
    } else {
        d as isize
    }
}

/// The simulation kernel: the clock, the process table, the processor and the
/// wheel of pending wake-ups.
pub struct Os {
    interval: u64,
    clock: u64,
    max_procs: usize,
    live: usize,
    waiting_list: HashedWheel<PId>,
    slots: Vec<Option<Process>>,
    retired: Vec<Process>,
    running_process_pid: Option<PId>,
}

impl Os {
    pub closed spec fn wf(&self) -> bool {
        &&& self.interval > 0
        &&& self.waiting_list.wf()
        &&& self.waiting_list.spec_resolution() == 1
        &&& self.live == count_live(self.slots@)
        &&& forall|i: int|
            0 <= i < self.slots@.len() && (#[trigger] self.slots@[i]) is Some ==> {
                &&& self.slots@[i]->0.wf()
                &&& self.slots@[i]->0.id == i
            }
    }

    /// The process table: slot `i` holds the live process with identifier `i`.
    pub closed spec fn table(&self) -> Seq<Option<Process>> {
        self.slots@
    }

    pub closed spec fn spec_clock(&self) -> u64 {
        self.clock
    }

    pub closed spec fn spec_interval(&self) -> u64 {
        self.interval
    }

    pub closed spec fn spec_max_procs(&self) -> usize {
        self.max_procs
    }

    pub closed spec fn running(&self) -> Option<PId> {
        self.running_process_pid
    }

    pub closed spec fn timers(&self) -> WheelModel<PId> {
        self.waiting_list@
    }

    pub closed spec fn finished(&self) -> Seq<Process> {
        self.retired@
    }

    pub open spec fn lookup(&self, pid: PId) -> Option<Process> {
        if pid < self.table().len() {
            self.table()[pid as int]
        } else {
            None
        }
    }

    pub open spec fn all_complete(&self) -> bool {
        forall|i: int|
            0 <= i < self.table().len() && (#[trigger] self.table()[i]) is Some
                ==> self.table()[i]->0.spec_is_complete()
    }

    /// `pid` is live and may be put on the processor.
    pub open spec fn ready(&self, pid: PId) -> bool {
        self.lookup(pid) is Some && can_run(self.lookup(pid)->0)
    }

    /// The process on the processor, if any, is live and `Running`.
    pub open spec fn runs_ready(&self) -> bool {
        self.running() matches Some(r) ==> self.lookup(r) is Some && self.lookup(r)->0.state
            == ProcessState::Running
    }

    /// Relative to `old`, at most the processor changed hands: processes that
    /// were ready to run may have become `Running`, nothing else changed.
    pub open spec fn only_dispatched(&self, old: &Os) -> bool {
        &&& self.same_config(old)
        &&& self.timers() == old.timers()
        &&& self.table().len() == old.table().len()
        &&& forall|i: int|
            0 <= i < old.table().len() ==> #[trigger] dispatched_or_same(
                old.table()[i],
                self.table()[i],
            )
    }

    /// `self` is `old` with terminated processes moved, in slot order, from
    /// the table to the end of the finished list; everything else is as it was.
    pub open spec fn compacted_from(&self, old: &Os) -> bool {
        &&& self.finished() == old.finished() + terminated_of(old.table())
        &&& self.spec_clock() == old.spec_clock()
        &&& self.spec_interval() == old.spec_interval()
        &&& self.spec_max_procs() == old.spec_max_procs()
        &&& self.running() == old.running()
        &&& self.timers() == old.timers()
        &&& self.table().len() == old.table().len()
        &&& forall|i: int|
            0 <= i < old.table().len() ==> #[trigger] self.table()[i] == (match old.table()[i] {
                Some(p) => if p.spec_is_complete() {
                    None
                } else {
                    Some(p)
                },
                None => None,
            })
    }

    /// Clock, interval, ceiling and finished processes as they were.
    pub open spec fn same_config(&self, other: &Os) -> bool {
        &&& self.spec_clock() == other.spec_clock()
        &&& self.spec_interval() == other.spec_interval()
        &&& self.spec_max_procs() == other.spec_max_procs()
        &&& self.finished() == other.finished()
    }

    pub proof fn lemma_wf(&self, pid: PId)
        requires
            self.wf(),
        ensures
            self.lookup(pid) is Some ==> self.lookup(pid)->0.wf() && self.lookup(pid)->0.id == pid,
            self.timers().wf(),
    {
        if pid < self.slots@.len() {
            assert(self.slots@[pid as int] == self.table()[pid as int]);
        }
        self.waiting_list.lemma_wf();
    }

    /// A kernel with an empty table at clock 0; the clock advances by
    /// `interval` (1 if none is given) each tick.
    pub fn new(interval: Option<u64>) -> (r: Os)
        requires
            interval != Some(0u64),
        ensures
            r.wf(),
            r.spec_clock() == 0,
            r.spec_interval() == match interval {
                Some(x) => x,
                None => 1,
            },
            r.spec_max_procs() == MAX_PID,
            r.table().len() == 0,
            r.running() is None,
            r.finished().len() == 0,
            r.all_complete(),
            r.timers().size() == 8,
            r.timers().cursor == 0,
            forall|b: int| 0 <= b < 8 ==> (#[trigger] r.timers().slots[b]).len() == 0,
    {
        Os::with_limit(interval, MAX_PID)
    }

    /// As `new`, with at most `max_procs` live processes.
    pub fn with_limit(interval: Option<u64>, max_procs: usize) -> (r: Os)
        requires
            interval != Some(0u64),
        ensures
            r.wf(),
            r.spec_clock() == 0,
            r.spec_interval() == match interval {
                Some(x) => x,
                None => 1,
            },
            r.spec_max_procs() == max_procs,
            r.table().len() == 0,
            r.running() is None,
            r.finished().len() == 0,
            r.timers().size() == 8,
            r.timers().cursor == 0,
            forall|b: int| 0 <= b < 8 ==> (#[trigger] r.timers().slots[b]).len() == 0,
    {
        Os::with_config(interval, max_procs, 8)
    }

    /// As `with_limit`, with a wheel of `wheel_size` buckets.
    pub fn with_config(interval: Option<u64>, max_procs: usize, wheel_size: usize) -> (r: Os)
        requires
            interval != Some(0u64),
            wheel_size > 0,
        ensures
            r.wf(),
            r.spec_clock() == 0,
            r.spec_interval() == match interval {
                Some(x) => x,
                None => 1,
            },
            r.spec_max_procs() == max_procs,
            r.table().len() == 0,
            r.running() is None,
            r.finished().len() == 0,
            r.timers().size() == wheel_size,
            r.timers().cursor == 0,
            forall|b: int| 0 <= b < wheel_size ==> (#[trigger] r.timers().slots[b]).len() == 0,
    {
        let r = Os {
            interval: match interval {
                Some(x) => x,
                None => 1,
            },
            clock: 0,
            max_procs,
            live: 0,
            waiting_list: HashedWheel::with_size_and_resolution(wheel_size, 1),
            slots: Vec::new(),
            retired: Vec::new(),
            running_process_pid: None,
        };
        r
    }

    pub fn clock(&self) -> (r: u64)
        ensures
            r == self.spec_clock(),
    {
        self.clock
    }

    pub fn interval(&self) -> (r: u64)
        ensures
            r == self.spec_interval(),
    {
        self.interval
    }

    /// Number of live processes.
    pub fn live_count(&self) -> (r: usize)
        requires
            self.wf(),
        ensures
            r == count_live(self.table()),
    {
        self.live
    }

    /// The processes compacted out of the table, in the order they finished.
    pub fn retired(&self) -> (r: &Vec<Process>)
        ensures
            r@ == self.finished(),
    {
        &self.retired
    }

    /// Admits a process: it gets the next identifier, is `Runnable`, and
    /// becomes ready at the first tick whose clock passes its arrival time.
    pub fn add_proc(&mut self, process: Process) -> (r: Result<PId, OsError>)
        requires
            old(self).wf(),
        ensures
            final(self).wf(),
            final(self).same_config(old(self)),
            final(self).running() == old(self).running(),
            count_live(old(self).table()) >= old(self).spec_max_procs() || old(self).table().len() >= usize::MAX
                ==> r == Err::<PId, OsError>(OsError::CapacityExceeded),
            r is Err ==> final(self).table() == old(self).table() && final(self).timers()
                == old(self).timers(),
            r == Err::<PId, OsError>(OsError::InvariantViolation) ==> !process.wf()
                || process.spec_is_complete(),
            r is Ok <==> (count_live(old(self).table()) < old(self).spec_max_procs() && old(self).table().len()
                < usize::MAX && process.wf() && !process.spec_is_complete()),
            r is Ok ==> {
                let pid = r->Ok_0;
                &&& pid == old(self).table().len()
                &&& final(self).table() == old(self).table().push(
                    Some(Process { id: pid, state: ProcessState::Runnable, ..process }),
                )
                &&& final(self).timers() == old(self).timers().added(
                    pid,
                    wheel_deadline(
                        arrival_delay(old(self).spec_clock(), process.arrive_time, old(self).spec_interval()),
                    ),
                )
            },
    {
        if self.live >= self.max_procs || self.slots.len() == usize::MAX {
            return Err(OsError::CapacityExceeded);
        }
        if !check_process(&process) {
            return Err(OsError::InvariantViolation);
        }
        let pid = self.slots.len();
        let mut process = process;
        process.set_pid(pid);
        process.state = ProcessState::Runnable;
        let delay: u64 = if process.arrive_time >= self.clock {
            let q = (process.arrive_time - self.clock) / self.interval;
            if q < u64::MAX {
                q + 1
            } else {
                q
            }
        } else {
            1
        };
        let d = to_deadline(delay);
        self.waiting_list.add_timeout(pid, d);
        proof {
            lemma_count_live_push(self.slots@, Some(process));
            lemma_count_live_bound(self.slots@);
        }
        self.slots.push(Some(process));
        self.live = self.live + 1;
        Ok(pid)
    }

    pub fn get_proc(&self, pid: PId) -> (r: Option<&Process>)
        ensures
            match r {
                Some(p) => self.lookup(pid) == Some(*p),
                None => self.lookup(pid) is None,
            },
    {
        if pid < self.slots.len() {
            match &self.slots[pid] {
                Some(p) => Some(p),
                None => None,
            }
        } else {
            None
        }
    }

    /// The process on the processor, if any.
    pub fn current_proc(&self) -> (r: Option<&Process>)
        ensures
            match r {
                Some(p) => self.running() is Some && self.lookup(self.running()->0) == Some(*p),
                None => self.running() is None || self.lookup(self.running()->0) is None,
            },
    {
        match self.running_process_pid {
            Some(pid) => self.get_proc(pid),
            None => None,
        }
    }

    /// No process is live, or every live one has terminated.
    pub fn is_completed(&self) -> (r: bool)
        ensures
            r == self.all_complete(),
    {
        let n = self.slots.len();
        let mut i: usize = 0;
        while i < n
            invariant
                n == self.slots@.len(),
                i <= n,
                forall|j: int|
                    0 <= j < i && (#[trigger] self.table()[j]) is Some
                        ==> self.table()[j]->0.spec_is_complete(),
            decreases n - i,
        {
            match &self.slots[i] {
                Some(p) => {
                    if !p.is_complete() {
                        return false;
                    }
                },
                None => {},
            }
            i = i + 1;
        }
        true
    }

    /// Puts `pid` on the processor and marks it `Running` when it is live and
    /// has not terminated; otherwise the processor is left idle. Only the
    /// running pointer and the new process's state change: the process
    /// switched away from keeps its state.
    pub fn switch_proc(&mut self, pid: Option<PId>)
        requires
            old(self).wf(),
        ensures
            final(self).wf(),
            final(self).same_config(old(self)),
            final(self).timers() == old(self).timers(),
            final(self).table().len() == old(self).table().len(),
            final(self).runs_ready(),
            (pid is None || old(self).lookup(pid->0) is None || can_run(old(self).lookup(pid->0)->0))
                ==> final(self).only_dispatched(old(self)),
            match pid {
                Some(p) => if old(self).lookup(p) is Some && !old(self).lookup(p)->0.spec_is_complete() {
                    &&& final(self).running() == Some(p)
                    &&& final(self).table() == old(self).table().update(
                        p as int,
                        Some(Process { state: ProcessState::Running, ..old(self).lookup(p)->0 }),
                    )
                } else {
                    final(self).running() is None && final(self).table() == old(self).table()
                },
                None => final(self).running() is None && final(self).table() == old(self).table(),
            },
    {
        match pid {
            Some(p) => {
                let live = if p < self.slots.len() {
                    match &self.slots[p] {
                        Some(q) => !q.is_complete(),
                        None => false,
                    }
                } else {
                    false
                };
                if live {
                    self.running_process_pid = Some(p);
                    self.set_state(p, ProcessState::Running);
                } else {
                    self.running_process_pid = None;
                }
            },
            None => {
                self.running_process_pid = None;
            },
        }
    }

    /// `pid` is live and may be put on the processor (`Runnable` or `Running`).
    pub fn is_ready(&self, pid: PId) -> (r: bool)
        ensures
            r == self.ready(pid),
    {
        if pid < self.slots.len() {
            match &self.slots[pid] {
                Some(q) => q.state == ProcessState::Runnable || q.state == ProcessState::Running,
                None => false,
            }
        } else {
            false
        }
    }

    /// A `Running` process that was taken off the processor becomes
    /// `Runnable`; any other process is left as it is.
    pub fn set_runnable(&mut self, pid: PId)
        requires
            old(self).wf(),
        ensures
            final(self).wf(),
            final(self).only_dispatched(old(self)),
            final(self).running() == old(self).running(),
            old(self).lookup(pid) is Some && old(self).lookup(pid)->0.state == ProcessState::Running
                ==> final(self).table() == old(self).table().update(
                pid as int,
                Some(Process { state: ProcessState::Runnable, ..old(self).lookup(pid)->0 }),
            ),
            !(old(self).lookup(pid) is Some && old(self).lookup(pid)->0.state == ProcessState::Running)
                ==> final(self).table() == old(self).table(),
    {
        let running = if pid < self.slots.len() {
            match &self.slots[pid] {
                Some(q) => q.state == ProcessState::Running,
                None => false,
            }
        } else {
            false
        };
        if running {
            self.set_state(pid, ProcessState::Runnable);
        }
    }

    /// Sets the state of a live process that has not terminated.
    fn set_state(&mut self, pid: PId, state: ProcessState)
        requires
            old(self).wf(),
            old(self).lookup(pid) is Some,
            state != ProcessState::Terminated,
        ensures
            final(self).wf(),
            final(self).same_config(old(self)),
            final(self).timers() == old(self).timers(),
            final(self).running() == old(self).running(),
            ({
                let q = old(self).lookup(pid)->0;
                final(self).table() == old(self).table().update(
                    pid as int,
                    Some(
                        if q.spec_is_complete() {
                            q
                        } else {
                            Process { state, ..q }
                        },
                    ),
                )
            }),
    {
        let mut slot = self.slots.remove(pid);
        let ghost q = slot->0;
        proof {
            assert(old(self).slots@[pid as int] == Some(q));
        }
        match &mut slot {
            Some(p) => {
                if !p.is_complete() {
                    p.state = state;
                }
            },
            None => {},
        }
        self.slots.insert(pid, slot);
        proof {
            assert(self.slots@ =~= old(self).slots@.update(pid as int, slot));
            lemma_count_live_update(old(self).slots@, pid as int, slot);
        }
    }

    /// Parks `pid` until `duration` ticks from now (at least one) and marks
    /// it `Waiting`.
    pub fn await_proc(&mut self, pid: PId, duration: u64)
        requires
            old(self).wf(),
        ensures
            final(self).wf(),
            final(self).same_config(old(self)),
            final(self).running() == old(self).running(),
            final(self).timers() == old(self).timers().added(pid, wheel_deadline(duration as nat)),
            old(self).lookup(pid) is None ==> final(self).table() == old(self).table(),
            old(self).lookup(pid) is Some ==> {
                let q = old(self).lookup(pid)->0;
                final(self).table() == old(self).table().update(
                    pid as int,
                    Some(
                        if q.spec_is_complete() {
                            q
                        } else {
                            Process { state: ProcessState::Waiting, ..q }
                        },
                    ),
                )
            },
    {
        let d = to_deadline(duration);
        self.waiting_list.add_timeout(pid, d);
        if pid < self.slots.len() && self.slots[pid].is_some() {
            self.set_state(pid, ProcessState::Waiting);
        }
    }

    /// Takes one due wake-up off the wheel; a live process that was waiting
    /// becomes `Runnable`.
    pub fn expired_timeout(&mut self) -> (r: Option<PId>)
        requires
            old(self).wf(),
        ensures
            final(self).wf(),
            final(self).same_config(old(self)),
            final(self).running() == old(self).running(),
            final(self).timers().cursor == old(self).timers().cursor,
            final(self).timers().size() == old(self).timers().size(),
            ({
                let w = old(self).timers();
                let c = w.cursor as int;
                let s = w.slots[c];
                match r {
                    None => final(self).timers() == w && final(self).table() == old(self).table()
                        && forall|i: int| 0 <= i < s.len() ==> !#[trigger] w.is_due(c, i),
                    Some(x) => {
                        &&& exists|i: int|
                            0 <= i < s.len() && w.is_due(c, i) && s[i].0 == x && (forall|j: int|
                                0 <= j < i ==> !#[trigger] w.is_due(c, j)) && final(self).timers()
                                == (WheelModel { slots: w.slots.update(c, s.remove(i)), cursor: w.cursor })
                        &&& final(self).table().len() == old(self).table().len()
                        &&& match old(self).lookup(x) {
                            Some(q) => final(self).table() == old(self).table().update(
                                x as int,
                                Some(
                                    if q.state == ProcessState::Waiting {
                                        Process { state: ProcessState::Runnable, ..q }
                                    } else {
                                        q
                                    },
                                ),
                            ),
                            None => final(self).table() == old(self).table(),
                        }
                    },
                }
            }),
    {
        let r = self.waiting_list.expire_timeout();
        let ghost after_wheel = self.waiting_list@;
        match r {
            Some(pid) => {
                if pid < self.slots.len() {
                    let waiting = match &self.slots[pid] {
                        Some(p) => p.state == ProcessState::Waiting,
                        None => false,
                    };
                    if waiting {
                        self.set_state(pid, ProcessState::Runnable);
                    }
                }
            },
            None => {},
        }
        proof {
            let w = old(self).timers();
            let c = w.cursor as int;
            let s = w.slots[c];
            if r is Some {
                let x = r->0;
                let i = choose|i: int|
                    0 <= i < s.len() && w.is_due(c, i) && s[i].0 == x && (forall|j: int|
                        0 <= j < i ==> !#[trigger] w.is_due(c, j)) && after_wheel == (WheelModel {
                        slots: w.slots.update(c, s.remove(i)),
                        cursor: w.cursor,
                    });
                assert(self.timers() == after_wheel);
            }
        }
        r
    }

    pub fn is_proc_running(&self, pid: PId) -> (r: bool)
        ensures
            r == (self.running() == Some(pid)),
    {
        match self.running_process_pid {
            Some(id) => id == pid,
            None => false,
        }
    }

    /// Terminates `pid` at the current clock; a terminated or unknown process
    /// is left as it is.
    pub fn complete_proc(&mut self, pid: PId)
        requires
            old(self).wf(),
        ensures
            final(self).wf(),
            final(self).same_config(old(self)),
            final(self).running() == old(self).running(),
            final(self).timers() == old(self).timers(),
            old(self).lookup(pid) is None ==> final(self).table() == old(self).table(),
            old(self).lookup(pid) is Some ==> {
                let q = old(self).lookup(pid)->0;
                final(self).table() == old(self).table().update(
                    pid as int,
                    Some(
                        if q.spec_is_complete() {
                            q
                        } else {
                            Process {
                                state: ProcessState::Terminated,
                                complete_time: Some(old(self).spec_clock()),
                                turnaround_time: Some(elapsed(old(self).spec_clock(), q.arrive_time)),
                                ..q
                            }
                        },
                    ),
                )
            },
    {
        if pid >= self.slots.len() || self.slots[pid].is_none() {
            return;
        }
        let mut slot = self.slots.remove(pid);
        let ghost q = slot->0;
        proof {
            assert(old(self).slots@[pid as int] == Some(q));
        }
        match &mut slot {
            Some(p) => {
                p.set_complete(self.clock);
            },
            None => {},
        }
        self.slots.insert(pid, slot);
        proof {
            assert(self.slots@ =~= old(self).slots@.update(pid as int, slot));
            lemma_count_live_update(old(self).slots@, pid as int, slot);
        }
    }

    /// One tick of work for the process on the processor. Returns its
    /// identifier, the active segment after the tick, and whether it has
    /// terminated; none when the processor is idle.
    pub fn burst_running(&mut self) -> (r: Option<(PId, Option<Task>, bool)>)
        requires
            old(self).wf(),
        ensures
            final(self).wf(),
            final(self).same_config(old(self)),
            final(self).running() == old(self).running(),
            final(self).timers() == old(self).timers(),
            final(self).table().len() == old(self).table().len(),
            match r {
                None => (old(self).running() is None || old(self).lookup(old(self).running()->0) is None)
                    && final(self).table() == old(self).table(),
                Some((pid, t, done)) => {
                    &&& old(self).running() == Some(pid)
                    &&& old(self).lookup(pid) is Some
                    &&& final(self).lookup(pid) is Some
                    &&& burst_step(old(self).lookup(pid)->0, final(self).lookup(pid)->0, old(self).spec_clock(), t)
                    &&& done == final(self).lookup(pid)->0.spec_is_complete()
                    &&& forall|j: int| 0 <= j < old(self).table().len() && j != pid
                        ==> #[trigger] final(self).table()[j] == old(self).table()[j]
                },
            },
    {
        let pid = match self.running_process_pid {
            Some(pid) => pid,
            None => {
                return None;
            },
        };
        if pid >= self.slots.len() || self.slots[pid].is_none() {
            return None;
        }
        let mut slot = self.slots.remove(pid);
        let ghost q = slot->0;
        proof {
            assert(old(self).slots@[pid as int] == Some(q));
        }
        let clock = self.clock;
        let (t, done) = match &mut slot {
            Some(p) => {
                let t = p.burst(clock);
                (t, p.is_complete())
            },
            None => (None, false),
        };
        self.slots.insert(pid, slot);
        proof {
            assert(self.slots@ =~= old(self).slots@.update(pid as int, slot));
            lemma_count_live_update(old(self).slots@, pid as int, slot);
        }
        Some((pid, t, done))
    }

    /// Pops the active segment of `pid`. Returns none for an unknown process;
    /// otherwise the popped segment and whether all the process's work is done.
    pub fn bump_proc(&mut self, pid: PId) -> (r: Option<(Option<Task>, bool)>)
        requires
            old(self).wf(),
        ensures
            final(self).wf(),
            final(self).same_config(old(self)),
            final(self).running() == old(self).running(),
            final(self).timers() == old(self).timers(),
            final(self).table().len() == old(self).table().len(),
            (r is None) == (old(self).lookup(pid) is None),
            r is None ==> final(self).table() == old(self).table(),
            r is Some ==> {
                &&& final(self).lookup(pid) is Some
                &&& bump_step(old(self).lookup(pid)->0, final(self).lookup(pid)->0, (r->0).0)
                &&& (r->0).1 == (final(self).lookup(pid)->0.time_have_burst >= final(self).lookup(
                    pid,
                )->0.burst_time)
                &&& forall|j: int| 0 <= j < old(self).table().len() && j != pid
                    ==> #[trigger] final(self).table()[j] == old(self).table()[j]
            },
    {
        if pid >= self.slots.len() || self.slots[pid].is_none() {
            return None;
        }
        let mut slot = self.slots.remove(pid);
        let ghost q = slot->0;
        proof {
            assert(old(self).slots@[pid as int] == Some(q));
        }
        let out = match &mut slot {
            Some(p) => {
                let t = p.bump_to_next();
                (t, p.time_have_burst >= p.burst_time)
            },
            None => (None, false),
        };
        self.slots.insert(pid, slot);
        proof {
            assert(self.slots@ =~= old(self).slots@.update(pid as int, slot));
            lemma_count_live_update(old(self).slots@, pid as int, slot);
        }
        Some(out)
    }

    /// Advances the clock and the wheel by one tick.
    pub fn advance_clock(&mut self)
        requires
            old(self).wf(),
            old(self).spec_clock() + old(self).spec_interval() <= u64::MAX,
        ensures
            final(self).wf(),
            final(self).spec_clock() == old(self).spec_clock() + old(self).spec_interval(),
            final(self).spec_interval() == old(self).spec_interval(),
            final(self).spec_max_procs() == old(self).spec_max_procs(),
            final(self).finished() == old(self).finished(),
            final(self).table() == old(self).table(),
            final(self).running() == old(self).running(),
            final(self).timers() == old(self).timers().ticked(1),
    {
        self.clock = self.clock + self.interval;
        self.waiting_list.tick();
    }

    /// One tick: the clock and the wheel advance, the policy runs the shared
    /// per-tick algorithm, and terminated processes leave the table.
    pub fn tick<S: Scheduler>(&mut self, scheduler: &mut S)
        requires
            old(self).wf(),
            old(scheduler).inv(),
            old(self).spec_clock() + old(self).spec_interval() <= u64::MAX,
        ensures
            final(self).wf(),
            final(scheduler).inv(),
            final(self).spec_clock() == old(self).spec_clock() + old(self).spec_interval(),
            final(self).spec_interval() == old(self).spec_interval(),
            final(self).spec_max_procs() == old(self).spec_max_procs(),
            tick_step(*old(self), *final(self)),
    {
        self.advance_clock();
        let ghost a = *self;
        scheduler.on_tick(self);
        let ghost b = *self;
        self.compact();
        assert(tick_effect(a, b));
        assert(tick_step(*old(self), *self));
    }

    /// Runs one tick, unless every process is done or the clock cannot
    /// advance any more.
    pub fn step<S: Scheduler>(&mut self, scheduler: &mut S)
        requires
            old(self).wf(),
            old(scheduler).inv(),
        ensures
            final(self).wf(),
            final(scheduler).inv(),
            final(self).spec_interval() == old(self).spec_interval(),
            old(self).all_complete() || old(self).spec_clock() > u64::MAX - old(self).spec_interval()
                ==> *final(self) == *old(self),
            !(old(self).all_complete() || old(self).spec_clock() > u64::MAX - old(self).spec_interval()) ==> tick_step(*old(self), *final(self)),
    {
        if !self.is_completed() && self.clock <= u64::MAX - self.interval {
            self.tick(scheduler);
        }
    }

    /// Ticks until every process is done, or until the clock cannot advance
    /// any more.
    pub fn run<S: Scheduler>(&mut self, scheduler: &mut S)
        requires
            old(self).wf(),
            old(scheduler).inv(),
        ensures
            final(self).wf(),
            final(scheduler).inv(),
            final(self).all_complete() || final(self).spec_clock() > u64::MAX - final(self).spec_interval(),
            exists|states: Seq<Os>|
                #![trigger tick_run(states)]
                states.len() >= 1 && states[0] == *old(self) && states.last() == *final(self)
                    && tick_run(states),
    {
        let ghost mut states: Seq<Os> = seq![*self];
        while !self.is_completed() && self.clock <= u64::MAX - self.interval
            invariant
                self.wf(),
                scheduler.inv(),
                states.len() >= 1,
                states[0] == *old(self),
                states.last() == *self,
                tick_run(states),
            decreases u64::MAX - self.clock,
        {
            let ghost before = states;
            self.tick(scheduler);
            proof {
                states = states.push(*self);
                assert forall|i: int| 0 <= i < states.len() - 1 implies #[trigger] tick_step(states[i], states[i + 1]) by {
                    if i < before.len() - 1 {
                        assert(states[i] == before[i] && states[i + 1] == before[i + 1]);
                    } else {
                        assert(states[i] == before.last());
                    }
                }
            }
        }
        assert(tick_run(states));
    }

    /// Moves terminated processes from the table to the finished list.
    pub fn compact(&mut self)
        requires
            old(self).wf(),
        ensures
            final(self).wf(),
            final(self).spec_clock() == old(self).spec_clock(),
            final(self).spec_interval() == old(self).spec_interval(),
            final(self).spec_max_procs() == old(self).spec_max_procs(),
            final(self).running() == old(self).running(),
            final(self).timers() == old(self).timers(),
            final(self).table().len() == old(self).table().len(),
            final(self).compacted_from(old(self)),
    {
        let n = self.slots.len();
        let mut i: usize = 0;
        assert(old(self).slots@.take(0) =~= Seq::<Option<Process>>::empty());
        assert(old(self).retired@ + Seq::<Process>::empty() =~= old(self).retired@);
        while i < n
            invariant
                self.wf(),
                n == self.slots@.len(),
                n == old(self).slots@.len(),
                i <= n,
                self.clock == old(self).clock,
                self.interval == old(self).interval,
                self.max_procs == old(self).max_procs,
                self.running_process_pid == old(self).running_process_pid,
                self.waiting_list@ == old(self).waiting_list@,
                self.waiting_list.spec_resolution() == old(self).waiting_list.spec_resolution(),
                forall|j: int|
                    0 <= j < i ==> #[trigger] self.slots@[j] == (match old(self).slots@[j] {
                        Some(p) => if p.spec_is_complete() {
                            None
                        } else {
                            Some(p)
                        },
                        None => None,
                    }),
                forall|j: int| i <= j < n ==> #[trigger] self.slots@[j] == old(self).slots@[j],
                self.retired@ == old(self).retired@ + terminated_of(old(self).slots@.take(i as int)),
            decreases n - i,
        {
            proof {
                let t = old(self).slots@.take(i + 1);
                assert(t.drop_last() =~= old(self).slots@.take(i as int));
                assert(t.last() == old(self).slots@[i as int]);
            }
            let done = match &self.slots[i] {
                Some(p) => p.is_complete(),
                None => false,
            };
            if done {
                let ghost before = self.slots@;
                let slot = self.slots.remove(i);
                self.slots.insert(i, None);
                proof {
                    assert(self.slots@ =~= before.update(i as int, None));
                    lemma_count_live_update(before, i as int, None);
                }
                match slot {
                    Some(p) => {
                        self.retired.push(p);
                    },
                    None => {},
                }
                self.live = self.live - 1;
            }
            proof {
                let a = old(self).retired@;
                let r = terminated_of(old(self).slots@.take(i as int));
                let r2 = terminated_of(old(self).slots@.take(i + 1));
                if done {
                    assert(a + r2 =~= (a + r).push(old(self).slots@[i as int]->0));
                } else {
                    assert(r2 == r);
                }
            }
            i = i + 1;
        }
        proof {
            assert(old(self).slots@.take(n as int) =~= old(self).slots@);
        }
    }
}

/// The process's bookkeeping agrees with itself and it has not terminated.
fn check_process(p: &Process) -> (r: bool)
    ensures
        r == (p.wf() && !p.spec_is_complete()),
{
    if p.time_have_burst > p.burst_time {
        return false;
    }
    let budget = p.burst_time - p.time_have_burst;
    let n = p.tasks.len();
    let mut used: u64 = 0;
    let mut i: usize = 0;
    assert(p.tasks@.skip(0) =~= p.tasks@);
    while i < n
        invariant
            n == p.tasks@.len(),
            i <= n,
            used <= budget,
            budget == p.burst_time - p.time_have_burst,
            total_duration(p.tasks@) == used + total_duration(p.tasks@.skip(i as int)),
        decreases n - i,
    {
        let d = p.tasks[i].duration();
        proof {
            let s = p.tasks@.skip(i as int);
            assert(s.drop_first() =~= p.tasks@.skip(i + 1));
            assert(s[0] == p.tasks@[i as int]);
            assert(total_duration(s) == d + total_duration(p.tasks@.skip(i + 1)));
        }
        if d > budget - used {
            assert(total_duration(p.tasks@) > budget);
            assert(p.time_have_burst + total_duration(p.tasks@) > p.burst_time);
            return false;
        }
        used = used + d;
        i = i + 1;
    }
    proof {
        assert(p.tasks@.skip(n as int) =~= Seq::<Task>::empty());
    }
    if used != budget || p.remaining_time != budget {
        return false;
    }
    match p.state {
        ProcessState::Terminated => {
            return false;
        },
        _ => {},
    }
    p.complete_time.is_none() && p.turnaround_time.is_none()
}

} // verus!
