use std::collections::VecDeque;
use vstd::prelude::*;

verus! {

/// Identifier of a process, handed out by the kernel on admission.
pub type PId = usize;

/// One execution segment of a process, with the ticks it still needs.
#[derive(Debug, Clone, Copy, PartialEq, Eq, Structural)]
pub enum Task {
    IOBound(u64),
    CPUBound(u64),
}

#[derive(Debug, Clone, Copy, PartialEq, Eq, Structural)]
pub enum ProcessState {
    Runnable,
    Running,
    Waiting,
    Terminated,
}

impl Task {
    pub open spec fn spec_duration(self) -> nat {
        match self {
            Task::IOBound(d) => d as nat,
            Task::CPUBound(d) => d as nat,
        }
    }

    /// The same kind of segment, one tick shorter.
    pub open spec fn shortened(self) -> Task {
        match self {
            Task::IOBound(d) => Task::IOBound((d - 1) as u64),
            Task::CPUBound(d) => Task::CPUBound((d - 1) as u64),
        }
    }

    pub fn duration(&self) -> (r: u64)
        ensures
            r == self.spec_duration(),
    {
        match self {
            Task::IOBound(d) => *d,
            Task::CPUBound(d) => *d,
        }
    }

    pub fn is_io_bound(&self) -> (r: bool)
        ensures
            r == (self is IOBound),
    {
        match self {
            Task::IOBound(_) => true,
            Task::CPUBound(_) => false,
        }
    }
}

/// Sum of the durations of a sequence of segments.
pub open spec fn total_duration(tasks: Seq<Task>) -> nat
    decreases tasks.len(),
{
    if tasks.len() == 0 {
        0
    } else {
        tasks[0].spec_duration() + total_duration(tasks.drop_first())
    }
}

/// The segments after one tick of work: exhausted segments at the front are
/// dropped, then the first segment with work left loses one tick.
pub open spec fn consume_one(tasks: Seq<Task>) -> Seq<Task>
    decreases tasks.len(),
{
    if tasks.len() == 0 {
        tasks
    } else if tasks[0].spec_duration() == 0 {
        consume_one(tasks.drop_first())
    } else {
        tasks.update(0, tasks[0].shortened())
    }
}

/// The first segment of a sequence, if there is one.
pub open spec fn front_of(tasks: Seq<Task>) -> Option<Task> {
    if tasks.len() == 0 {
        None
    } else {
        Some(tasks[0])
    }
}

/// Ticks between arrival and the first burst, the tick of arrival excluded.
pub open spec fn response_of(clock: u64, arrive: u64) -> u64 {
    if clock > arrive {
        (clock - arrive - 1) as u64
    } else {
        0
    }
}

/// Ticks between arrival and completion.
pub open spec fn elapsed(clock: u64, arrive: u64) -> u64 {
    if clock >= arrive {
        (clock - arrive) as u64
    } else {
        0
    }
}

pub proof fn lemma_total_push(s: Seq<Task>, t: Task)
    ensures
        total_duration(s.push(t)) == total_duration(s) + t.spec_duration(),
    decreases s.len(),
{
    if s.len() > 0 {
        lemma_total_push(s.drop_first(), t);
        assert(s.push(t).drop_first() =~= s.drop_first().push(t));
    } else {
        assert(s.push(t).drop_first() =~= Seq::<Task>::empty());
        reveal_with_fuel(total_duration, 2);
    }
}

pub proof fn lemma_consume_one(s: Seq<Task>)
    ensures
        total_duration(s) > 0 ==> total_duration(consume_one(s)) + 1 == total_duration(s),
        total_duration(s) == 0 ==> consume_one(s).len() == 0,
    decreases s.len(),
{
    if s.len() > 0 {
        if s[0].spec_duration() == 0 {
            lemma_consume_one(s.drop_first());
        } else {
            let c = s.update(0, s[0].shortened());
            assert(c.drop_first() =~= s.drop_first());
        }
    }
}

/// One tick of work on `o` at `clock` gives `n` and returns `r`: a
/// terminated process is left as it is; one without work left terminates;
/// otherwise one tick is counted and taken off the segments, the response
/// time is set on the first tick, and the process terminates when its work
/// is done or hands back its active segment.
pub open spec fn burst_step(o: Process, n: Process, clock: u64, r: Option<Task>) -> bool {
    &&& n.id == o.id
    &&& n.priority == o.priority
    &&& n.arrive_time == o.arrive_time
    &&& n.burst_time == o.burst_time
    &&& o.spec_is_complete() ==> n == o && r is None
    &&& !o.spec_is_complete() && o.time_have_burst >= o.burst_time ==> {
        &&& n == (Process {
            state: ProcessState::Terminated,
            complete_time: Some(clock),
            turnaround_time: Some(elapsed(clock, o.arrive_time)),
            ..o
        })
        &&& r is None
    }
    &&& !o.spec_is_complete() && o.time_have_burst < o.burst_time ==> {
        &&& n.time_have_burst == o.time_have_burst + 1
        &&& n.tasks@ == consume_one(o.tasks@)
        &&& n.response_time == if o.time_have_burst == 0 {
            Some(response_of(clock, o.arrive_time))
        } else {
            o.response_time
        }
        &&& n.time_have_burst >= n.burst_time ==> {
            &&& n.state == ProcessState::Terminated
            &&& n.complete_time == Some(clock)
            &&& r is None
        }
        &&& n.time_have_burst < n.burst_time ==> {
            &&& n.state == o.state
            &&& n.complete_time is None
            &&& r == front_of(n.tasks@)
            &&& r is Some
        }
    }
}

/// Popping the active segment of `o` gives `n` and returns `r`; the ticks
/// the segment had left count as burst.
pub open spec fn bump_step(o: Process, n: Process, r: Option<Task>) -> bool {
    &&& r == front_of(o.tasks@)
    &&& o.tasks@.len() == 0 ==> n == o
    &&& o.tasks@.len() > 0 ==> {
        &&& n.tasks@ == o.tasks@.drop_first()
        &&& n.time_have_burst == o.time_have_burst + o.tasks@[0].spec_duration()
        &&& n == (Process {
            tasks: n.tasks,
            time_have_burst: n.time_have_burst,
            remaining_time: n.remaining_time,
            ..o
        })
    }
}

/// The response time is set by the first tick of work and by no later one.
pub proof fn lemma_response_set_once(o: Process, n: Process, clock: u64, r: Option<Task>)
    requires
        o.wf(),
        burst_step(o, n, clock, r),
    ensures
        o.time_have_burst > 0 ==> n.response_time == o.response_time,
        o.time_have_burst == 0 && !o.spec_is_complete() && o.time_have_burst < o.burst_time
            ==> n.response_time == Some(response_of(clock, o.arrive_time)),
        !o.spec_is_complete() && o.time_have_burst < o.burst_time ==> n.time_have_burst > 0,
{
}

/// A terminated process keeps its completion tick and turnaround time, and
/// the turnaround time is the completion tick less the arrival tick.
pub proof fn lemma_completion_is_final(o: Process, n: Process, clock: u64, r: Option<Task>)
    requires
        o.wf(),
        o.spec_is_complete(),
        burst_step(o, n, clock, r),
    ensures
        n == o,
        o.complete_time is Some,
        o.complete_time->0 >= o.arrive_time ==> o.turnaround_time == Some(
            (o.complete_time->0 - o.arrive_time) as u64,
        ),
{
}

/// Ticks of work only grow, and never beyond the total burst time.
pub proof fn lemma_burst_ticks_grow(o: Process, n: Process, clock: u64, r: Option<Task>)
    requires
        o.wf(),
        n.wf(),
        burst_step(o, n, clock, r),
    ensures
        o.time_have_burst <= n.time_have_burst <= n.burst_time,
{
}

/// Popping a segment only adds ticks, never beyond the total burst time.
pub proof fn lemma_bump_ticks_grow(o: Process, n: Process, r: Option<Task>)
    requires
        o.wf(),
        n.wf(),
        bump_step(o, n, r),
    ensures
        o.time_have_burst <= n.time_have_burst <= n.burst_time,
        o.spec_is_complete() ==> n.complete_time == o.complete_time && n.turnaround_time
            == o.turnaround_time,
{
}

/// A simulated process: an ordered queue of segments with timing statistics.
#[derive(Debug)]
pub struct Process {
    pub id: PId,
    pub tasks: VecDeque<Task>,
    pub state: ProcessState,
    /// Weight used by ticket-based policies.
    pub priority: u64,
    pub arrive_time: u64,
    pub turnaround_time: Option<u64>,
    pub burst_time: u64,
    pub complete_time: Option<u64>,
    pub response_time: Option<u64>,
    pub remaining_time: u64,
    pub time_have_burst: u64,
}

impl Process {
    /// The bookkeeping of a process agrees with itself.
    pub open spec fn wf(&self) -> bool {
        &&& self.time_have_burst + total_duration(self.tasks@) == self.burst_time
        &&& self.remaining_time == self.burst_time - self.time_have_burst
        &&& (self.state == ProcessState::Terminated) == (self.complete_time is Some)
        &&& self.complete_time is Some ==> self.turnaround_time == Some(
            elapsed(self.complete_time->0, self.arrive_time),
        )
        &&& self.complete_time is None ==> self.turnaround_time is None
    }

    pub open spec fn spec_is_complete(&self) -> bool {
        self.state == ProcessState::Terminated
    }

    /// A process that arrives at `t_arrive` with weight 1; `burst_time`
    /// ticks of work, if any, form a first CPU-bound segment.
    pub fn new(pid: PId, t_arrive: u64, burst_time: u64) -> (r: Self)
        ensures
            r.wf(),
            r.id == pid,
            r.arrive_time == t_arrive,
            r.burst_time == burst_time,
            r.remaining_time == burst_time,
            r.time_have_burst == 0,
            burst_time == 0 ==> r.tasks@.len() == 0,
            burst_time > 0 ==> r.tasks@ == seq![Task::CPUBound(burst_time)],
            r.state == ProcessState::Runnable,
            r.priority == 1,
            r.response_time is None,
            r.complete_time is None,
            r.turnaround_time is None,
    {
        let mut tasks: VecDeque<Task> = VecDeque::new();
        if burst_time > 0 {
            tasks.push_back(Task::CPUBound(burst_time));
            proof {
                lemma_total_push(Seq::<Task>::empty(), Task::CPUBound(burst_time));
                assert(tasks@ =~= Seq::<Task>::empty().push(Task::CPUBound(burst_time)));
            }
        }
        Process {
            id: pid,
            tasks,
            state: ProcessState::Runnable,
            priority: 1,
            arrive_time: t_arrive,
            turnaround_time: None,
            burst_time,
            complete_time: None,
            response_time: None,
            remaining_time: burst_time,
            time_have_burst: 0,
        }
    }

    /// Appends a segment at the back; the total burst time grows by its length.
    pub fn append_task(&mut self, task: Task)
        requires
            old(self).wf(),
            old(self).burst_time + task.spec_duration() <= u64::MAX,
        ensures
            final(self).wf(),
            final(self).tasks@ == old(self).tasks@.push(task),
            final(self).burst_time == old(self).burst_time + task.spec_duration(),
            final(self).remaining_time == old(self).remaining_time + task.spec_duration(),
            final(self).id == old(self).id,
            final(self).state == old(self).state,
            final(self).priority == old(self).priority,
            final(self).arrive_time == old(self).arrive_time,
            final(self).time_have_burst == old(self).time_have_burst,
            final(self).response_time == old(self).response_time,
            final(self).complete_time == old(self).complete_time,
            final(self).turnaround_time == old(self).turnaround_time,
    {
        proof {
            lemma_total_push(self.tasks@, task);
        }
        self.tasks.push_back(task);
        let d = task.duration();
        self.burst_time = self.burst_time + d;
        self.remaining_time = self.remaining_time + d;
    }

    pub(crate) fn set_pid(&mut self, pid: PId)
        ensures
            *final(self) == (Process { id: pid, ..*old(self) }),
    {
        self.id = pid;
    }

    /// Marks the process terminated at `current_time`; a terminated process is
    /// left as it is.
    pub(crate) fn set_complete(&mut self, current_time: u64)
        requires
            old(self).wf(),
        ensures
            final(self).wf(),
            old(self).spec_is_complete() ==> *final(self) == *old(self),
            !old(self).spec_is_complete() ==> *final(self) == (Process {
                state: ProcessState::Terminated,
                complete_time: Some(current_time),
                turnaround_time: Some(elapsed(current_time, old(self).arrive_time)),
                ..*old(self)
            }),
    {
        if self.is_complete() {
            return;
        }
        self.state = ProcessState::Terminated;
        self.complete_time = Some(current_time);
        let t = if current_time >= self.arrive_time {
            current_time - self.arrive_time
        } else {
            0
        };
        self.turnaround_time = Some(t);
    }

    /// Drops exhausted segments at the front and takes one tick off the first
    /// segment that has work left.
    fn consume_front(&mut self)
        requires
            old(self).wf(),
        ensures
            final(self).tasks@ == consume_one(old(self).tasks@),
            *final(self) == (Process { tasks: final(self).tasks, ..*old(self) }),
    {
        let ghost start = self.tasks@;
        while self.tasks.len() > 0 && self.tasks[0].duration() == 0
            invariant
                consume_one(self.tasks@) == consume_one(start),
                *self == (Process { tasks: self.tasks, ..*old(self) }),
            decreases self.tasks@.len(),
        {
            let ghost before = self.tasks@;
            self.tasks.pop_front();
            assert(self.tasks@ =~= before.drop_first());
        }
        if self.tasks.len() == 0 {
            return;
        }
        let front = self.tasks.pop_front().unwrap();
        let shorter = match front {
            Task::IOBound(d) => Task::IOBound(d - 1),
            Task::CPUBound(d) => Task::CPUBound(d - 1),
        };
        let ghost rest = self.tasks@;
        self.tasks.push_front(shorter);
        assert(self.tasks@ =~= seq![shorter] + rest);
        assert(consume_one(start) =~= self.tasks@);
    }

    /// One tick of work at `clock`. Returns the active segment after the tick,
    /// or none once the process has no work left; it is then terminated. As
    /// the segments always add up to the work left, a process with work left
    /// always has an active segment.
    pub(crate) fn burst(&mut self, clock: u64) -> (r: Option<Task>)
        requires
            old(self).wf(),
        ensures
            final(self).wf(),
            burst_step(*old(self), *final(self), clock, r),
    {
        if self.is_complete() {
            return None;
        }
        if self.time_have_burst >= self.burst_time {
            self.set_complete(clock);
            return None;
        }
        if self.time_have_burst == 0 {
            let rt = if clock > self.arrive_time {
                clock - self.arrive_time - 1
            } else {
                0
            };
            self.response_time = Some(rt);
        }
        proof {
            lemma_consume_one(self.tasks@);
        }
        self.consume_front();
        self.time_have_burst = self.time_have_burst + 1;
        self.remaining_time = self.remaining_time - 1;
        if self.time_have_burst >= self.burst_time {
            self.set_complete(clock);
            return None;
        }
        assert(total_duration(self.tasks@) > 0);
        if self.tasks.len() == 0 {
            None
        } else {
            Some(self.tasks[0])
        }
    }

    /// Pops the active segment and counts what it had left as already burst.
    pub(crate) fn bump_to_next(&mut self) -> (r: Option<Task>)
        requires
            old(self).wf(),
        ensures
            final(self).wf(),
            bump_step(*old(self), *final(self), r),
    {
        if self.tasks.len() == 0 {
            return None;
        }
        let task = self.tasks.pop_front().unwrap();
        assert(self.tasks@ =~= old(self).tasks@.drop_first());
        let d = task.duration();
        self.time_have_burst = self.time_have_burst + d;
        self.remaining_time = self.remaining_time - d;
        Some(task)
    }

    pub fn is_complete(&self) -> (r: bool)
        ensures
            r == self.spec_is_complete(),
    {
        match self.state {
            ProcessState::Terminated => true,
            _ => false,
        }
    }
}

} // verus!
