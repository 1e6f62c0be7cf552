use cpu_sched::os::{Os, OsError};
use cpu_sched::proc::{PId, Process, ProcessState, Task};
use cpu_sched::scheduler::{
    draw_winner, pick_winner, total_tickets, FCFSScheduler, FairShareScheduler, MLFQScheduler,
    RoundRobinScheduler, SJFScheduler, STCFScheduler,
};
use cpu_sched::timer::HashedWheel;

fn cpu_process(arrive: u64, work: u64) -> Process {
    let mut p = Process::new(0, arrive, 0);
    p.append_task(Task::CPUBound(work));
    p
}

fn finished(os: &Os, pid: PId) -> &Process {
    os.retired().iter().find(|p| p.id == pid).expect("process has finished")
}

#[test]
fn fcfs_single_process_end_to_end() {
    let mut os = Os::new(None);
    let mut s = FCFSScheduler::new();
    let pid = os.add_proc(cpu_process(0, 5)).unwrap();
    os.step(&mut s);
    assert_eq!(os.clock(), 1);
    assert_eq!(os.current_proc().map(|p| p.id), Some(pid));
    os.run(&mut s);
    assert!(os.is_completed());
    let p = finished(&os, pid);
    assert_eq!(p.complete_time, Some(5));
    assert_eq!(p.turnaround_time, Some(5));
    assert_eq!(p.response_time, Some(0));
    assert_eq!(p.time_have_burst, 5);
    assert_eq!(p.state, ProcessState::Terminated);
}

#[test]
fn sjf_shorter_job_completes_first() {
    let mut os = Os::new(None);
    let mut s = SJFScheduler::new();
    let long = os.add_proc(cpu_process(0, 5)).unwrap();
    let short = os.add_proc(cpu_process(0, 2)).unwrap();
    os.run(&mut s);
    assert_eq!(finished(&os, short).complete_time, Some(2));
    assert_eq!(finished(&os, long).complete_time, Some(7));
    assert_eq!(os.retired()[0].id, short);
    assert_eq!(finished(&os, long).response_time, Some(2));
}

#[test]
fn fcfs_keeps_arrival_order() {
    let mut os = Os::new(None);
    let mut s = FCFSScheduler::new();
    let a = os.add_proc(cpu_process(0, 3)).unwrap();
    let b = os.add_proc(cpu_process(1, 1)).unwrap();
    os.run(&mut s);
    assert_eq!(finished(&os, a).complete_time, Some(3));
    assert_eq!(finished(&os, b).complete_time, Some(4));
    assert_eq!(finished(&os, b).response_time, Some(2));
}

#[test]
fn stcf_preempts_for_shorter_remaining_time() {
    let mut os = Os::new(None);
    let mut s = STCFScheduler::new();
    let a = os.add_proc(cpu_process(0, 6)).unwrap();
    let b = os.add_proc(cpu_process(2, 2)).unwrap();
    for _ in 0..3 {
        os.step(&mut s);
    }
    assert_eq!(os.current_proc().map(|p| p.id), Some(b));
    os.run(&mut s);
    assert_eq!(finished(&os, b).complete_time, Some(5));
    assert_eq!(finished(&os, a).complete_time, Some(8));
}

#[test]
fn round_robin_rotates_after_quantum() {
    let mut os = Os::new(None);
    let mut s = RoundRobinScheduler::new(2);
    let a = os.add_proc(cpu_process(0, 3)).unwrap();
    let b = os.add_proc(cpu_process(0, 3)).unwrap();
    os.step(&mut s);
    os.step(&mut s);
    assert_eq!(os.current_proc().map(|p| p.id), Some(b));
    os.step(&mut s);
    os.step(&mut s);
    assert_eq!(os.current_proc().map(|p| p.id), Some(a));
    os.run(&mut s);
    assert_eq!(finished(&os, a).complete_time, Some(5));
    assert_eq!(finished(&os, b).complete_time, Some(6));
}

#[test]
fn mlfq_demotes_after_each_quantum() {
    let mut os = Os::new(None);
    let mut s = MLFQScheduler::new([1, 2]);
    let a = os.add_proc(cpu_process(0, 5)).unwrap();
    os.step(&mut s);
    assert_eq!(s.get_priority(a), 0);
    os.step(&mut s);
    assert_eq!(s.get_priority(a), 1);
    os.step(&mut s);
    assert_eq!(s.get_priority(a), 1);
    os.step(&mut s);
    assert_eq!(s.get_priority(a), 1);
    os.step(&mut s);
    assert!(os.is_completed());
    assert_eq!(finished(&os, a).complete_time, Some(5));
}

#[test]
fn mlfq_lowest_level_gives_way_to_new_arrival() {
    let mut os = Os::new(None);
    let mut s = MLFQScheduler::new([1, 1]);
    let a = os.add_proc(cpu_process(0, 6)).unwrap();
    let b = os.add_proc(cpu_process(3, 1)).unwrap();
    for _ in 0..4 {
        os.step(&mut s);
    }
    assert_eq!(os.current_proc().map(|p| p.id), Some(b));
    assert!(s.is_proc_running(b));
    os.run(&mut s);
    assert_eq!(finished(&os, b).complete_time, Some(5));
    assert_eq!(finished(&os, a).complete_time, Some(7));
}

#[test]
fn io_segment_parks_the_process() {
    let mut os = Os::new(None);
    let mut s = FCFSScheduler::new();
    let mut p = Process::new(0, 0, 0);
    p.append_task(Task::CPUBound(2));
    p.append_task(Task::IOBound(3));
    p.append_task(Task::CPUBound(1));
    assert_eq!(p.burst_time, 6);
    assert_eq!(p.remaining_time, 6);
    let pid = os.add_proc(p).unwrap();
    for _ in 0..3 {
        os.step(&mut s);
    }
    assert_eq!(os.get_proc(pid).unwrap().state, ProcessState::Waiting);
    assert_eq!(os.get_proc(pid).unwrap().time_have_burst, 5);
    assert!(os.current_proc().is_none());
    os.step(&mut s);
    assert_eq!(os.get_proc(pid).unwrap().state, ProcessState::Waiting);
    os.run(&mut s);
    let done = finished(&os, pid);
    assert_eq!(done.complete_time, Some(5));
    assert_eq!(done.turnaround_time, Some(5));
    assert_eq!(done.time_have_burst, 6);
}

#[test]
fn unsegmented_work_runs_to_completion() {
    let mut os = Os::new(None);
    let mut s = FCFSScheduler::new();
    let pid = os.add_proc(Process::new(0, 0, 3)).unwrap();
    os.run(&mut s);
    assert_eq!(finished(&os, pid).complete_time, Some(3));
}

#[test]
fn capacity_is_enforced() {
    let mut os = Os::with_limit(None, 1);
    assert_eq!(os.add_proc(cpu_process(0, 1)), Ok(0));
    assert_eq!(os.add_proc(cpu_process(0, 1)), Err(OsError::CapacityExceeded));
    assert_eq!(os.live_count(), 1);
}

#[test]
fn inconsistent_process_is_refused() {
    let mut os = Os::new(None);
    let mut p = cpu_process(0, 4);
    p.remaining_time = 1;
    assert_eq!(os.add_proc(p), Err(OsError::InvariantViolation));
    let mut q = cpu_process(0, 4);
    q.burst_time = 2;
    q.remaining_time = 2;
    assert_eq!(os.add_proc(q), Err(OsError::InvariantViolation));
    assert!(os.is_completed());
}

#[test]
fn ids_are_handed_out_in_order() {
    let mut os = Os::new(Some(2));
    assert_eq!(os.add_proc(cpu_process(0, 1)), Ok(0));
    assert_eq!(os.add_proc(cpu_process(0, 1)), Ok(1));
    assert!(os.get_proc(5).is_none());
    assert_eq!(os.get_proc(1).unwrap().id, 1);
    assert_eq!(os.interval(), 2);
}

#[test]
fn completion_is_idempotent() {
    let mut os = Os::new(None);
    let mut s = FCFSScheduler::new();
    let pid = os.add_proc(cpu_process(0, 2)).unwrap();
    os.step(&mut s);
    os.step(&mut s);
    let p = finished(&os, pid);
    assert_eq!(p.complete_time, Some(2));
    os.complete_proc(pid);
    os.step(&mut s);
    assert_eq!(os.clock(), 2);
    assert_eq!(finished(&os, pid).turnaround_time, Some(2));
}

#[test]
fn switching_to_unknown_process_idles() {
    let mut os = Os::new(None);
    let pid = os.add_proc(cpu_process(0, 2)).unwrap();
    os.switch_proc(Some(pid));
    assert!(os.is_proc_running(pid));
    assert_eq!(os.get_proc(pid).unwrap().state, ProcessState::Running);
    os.switch_proc(Some(42));
    assert!(os.current_proc().is_none());
    os.switch_proc(Some(pid));
    os.switch_proc(None);
    assert!(!os.is_proc_running(pid));
}

#[test]
fn await_parks_and_wakes() {
    let mut os = Os::new(None);
    let pid = os.add_proc(cpu_process(5, 2)).unwrap();
    os.await_proc(pid, 2);
    assert_eq!(os.get_proc(pid).unwrap().state, ProcessState::Waiting);
    assert_eq!(os.expired_timeout(), None);
}

#[test]
fn wheel_expires_exactly_at_deadline() {
    let mut w: HashedWheel<u32> = HashedWheel::new();
    w.add_timeout(7, 3);
    w.tick();
    assert_eq!(w.expire_timeout(), None);
    w.tick();
    assert_eq!(w.expire_timeout(), None);
    w.tick();
    assert_eq!(w.expire_timeout(), Some(7));
    assert_eq!(w.expire_timeout(), None);
    assert!(w.empty());
}

#[test]
fn wheel_handles_deadlines_past_one_rotation() {
    let mut w: HashedWheel<u32> = HashedWheel::new();
    w.add_timeout(1, 8);
    w.add_timeout(2, 20);
    for _ in 0..7 {
        w.tick();
        assert_eq!(w.expire_timeout(), None);
    }
    w.tick();
    assert_eq!(w.expire_timeout(), Some(1));
    for _ in 8..19 {
        w.tick();
        assert_eq!(w.expire_timeout(), None);
    }
    w.tick();
    assert_eq!(w.expire_timeout(), Some(2));
    assert!(w.empty());
}

#[test]
fn wheel_due_at_once_for_past_deadline() {
    let mut w: HashedWheel<u32> = HashedWheel::with_size_and_resolution(4, 1);
    w.add_timeout(9, -3);
    w.add_timeout(10, 0);
    assert_eq!(w.expire_timeout(), Some(9));
    assert_eq!(w.expire_timeout(), Some(10));
    assert_eq!(w.expire_timeout(), None);
    assert_eq!(w.wheel_size(), 4);
}

#[test]
fn wheel_drains_same_tick_in_insertion_order() {
    let mut w: HashedWheel<u32> = HashedWheel::new();
    w.add_timeout(1, 2);
    w.add_timeout(2, 10);
    w.add_timeout(3, 2);
    w.tick();
    w.tick();
    assert_eq!(w.expire_timeout(), Some(1));
    assert_eq!(w.expire_timeout(), Some(3));
    assert_eq!(w.expire_timeout(), None);
    assert!(!w.empty());
}

#[test]
fn wheel_resolution_moves_several_buckets() {
    let mut w: HashedWheel<u32> = HashedWheel::with_size_and_resolution(8, 2);
    w.add_timeout(5, 4);
    w.tick();
    assert_eq!(w.expire_timeout(), None);
    w.tick();
    assert_eq!(w.expire_timeout(), Some(5));
    assert_eq!(w.resolution(), 2);
}

#[test]
fn lottery_wins_follow_ticket_weights() {
    let tickets: Vec<(PId, u64)> = vec![(0, 100), (1, 300)];
    let mut wins = [0u32; 2];
    for r in 0..400u64 {
        let w = draw_winner(&tickets, r).unwrap();
        wins[w] += 1;
    }
    assert_eq!(wins, [100, 300]);
    let ratio = wins[1] as f64 / wins[0] as f64;
    assert!((ratio - 3.0).abs() < 1e-9);
}

#[test]
fn lottery_walk_exact_values() {
    let tickets: Vec<(PId, u64)> = vec![(4, 100), (9, 0), (7, 300)];
    assert_eq!(pick_winner(&tickets, 1), Some(4));
    assert_eq!(pick_winner(&tickets, 100), Some(4));
    assert_eq!(pick_winner(&tickets, 101), Some(7));
    assert_eq!(pick_winner(&tickets, 400), Some(7));
    assert_eq!(pick_winner(&tickets, 401), None);
    assert_eq!(total_tickets(&tickets), 400);
    assert_eq!(draw_winner(&tickets, 399), Some(7));
    assert_eq!(draw_winner(&tickets, 99), Some(4));
    assert_eq!(draw_winner(&vec![(1, 0)], 5), None);
    assert_eq!(total_tickets(&vec![(1, u64::MAX), (2, 5)]), u64::MAX);
}

#[test]
fn fair_share_runs_everything() {
    let mut os = Os::new(None);
    let mut s = FairShareScheduler::new();
    let mut light = cpu_process(0, 4);
    light.priority = 1;
    let mut heavy = cpu_process(0, 4);
    heavy.priority = 3;
    let a = os.add_proc(light).unwrap();
    let b = os.add_proc(heavy).unwrap();
    os.run(&mut s);
    assert!(os.is_completed());
    let last = finished(&os, a).complete_time.unwrap().max(finished(&os, b).complete_time.unwrap());
    assert_eq!(last, 8);
}

#[test]
fn fair_share_without_tickets_idles() {
    let mut os = Os::new(None);
    let mut s = FairShareScheduler::new();
    let mut p = cpu_process(0, 2);
    p.priority = 0;
    let pid = os.add_proc(p).unwrap();
    for _ in 0..3 {
        os.step(&mut s);
    }
    assert!(os.current_proc().is_none());
    assert_eq!(os.get_proc(pid).unwrap().time_have_burst, 0);
}

#[test]
fn task_accessors() {
    assert_eq!(Task::IOBound(4).duration(), 4);
    assert!(Task::IOBound(4).is_io_bound());
    assert!(!Task::CPUBound(2).is_io_bound());
    let p = Process::new(3, 9, 2);
    assert_eq!(p.id, 3);
    assert_eq!(p.priority, 1);
    assert!(!p.is_complete());
}

#[test]
fn small_wheel_still_wakes_on_time() {
    let mut os = Os::with_config(None, 4, 2);
    let mut s = FCFSScheduler::new();
    let pid = os.add_proc(cpu_process(5, 1)).unwrap();
    for _ in 0..5 {
        os.step(&mut s);
        assert!(os.current_proc().is_none());
    }
    os.run(&mut s);
    let p = finished(&os, pid);
    assert_eq!(p.complete_time, Some(6));
    assert_eq!(p.response_time, Some(0));
    assert_eq!(p.turnaround_time, Some(1));
}

#[test]
fn zero_multiplier_gives_no_tickets() {
    let mut os = Os::new(None);
    let mut s = FairShareScheduler::with_multiplier(0);
    let pid = os.add_proc(cpu_process(0, 2)).unwrap();
    os.step(&mut s);
    os.step(&mut s);
    assert!(os.current_proc().is_none());
    assert_eq!(os.get_proc(pid).unwrap().time_have_burst, 0);
}

#[test]
fn admission_makes_process_runnable() {
    let mut os = Os::new(None);
    let mut p = cpu_process(0, 2);
    p.state = ProcessState::Waiting;
    let pid = os.add_proc(p).unwrap();
    assert_eq!(os.get_proc(pid).unwrap().state, ProcessState::Runnable);
    let q = Process::new(0, 0, 3);
    assert_eq!(q.tasks.len(), 1);
    assert_eq!(q.burst_time, 3);
}

#[test]
fn switching_to_waiting_process_sets_pointer() {
    let mut os = Os::new(None);
    let a = os.add_proc(cpu_process(0, 2)).unwrap();
    let b = os.add_proc(cpu_process(0, 2)).unwrap();
    os.switch_proc(Some(b));
    os.await_proc(a, 3);
    os.switch_proc(Some(a));
    assert_eq!(os.current_proc().map(|p| p.id), Some(a));
    assert_eq!(os.get_proc(a).unwrap().state, ProcessState::Running);
    assert_eq!(os.get_proc(b).unwrap().state, ProcessState::Running);
    os.set_runnable(b);
    assert_eq!(os.get_proc(b).unwrap().state, ProcessState::Runnable);
    assert!(os.is_ready(b));
}

#[test]
fn preempted_process_is_marked_runnable() {
    let mut os = Os::new(None);
    let mut s = RoundRobinScheduler::new(1);
    let a = os.add_proc(cpu_process(0, 3)).unwrap();
    let b = os.add_proc(cpu_process(0, 3)).unwrap();
    os.step(&mut s);
    assert_eq!(os.current_proc().map(|p| p.id), Some(b));
    assert_eq!(os.get_proc(a).unwrap().state, ProcessState::Runnable);
    assert_eq!(os.get_proc(b).unwrap().state, ProcessState::Running);
}
