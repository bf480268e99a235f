//! The probe task's state machine: one instance per running target. On each
//! tick it records the outcome of one probe; control events change its period
//! or stop it. A stopped task changes nothing any more.

use vstd::prelude::*;
use crate::stat::{PingStat, StatModel};

verus! {

/// One event at a probe task: a completed probe, a new period, or a stop.
#[derive(Clone, Copy)]
pub enum TaskEvent {
    /// A probe completed at wall-clock time `now_ms` with this outcome
    /// (a timeout counts as a failure).
    Tick { success: bool, now_ms: u64 },
    /// The ticking period changes to `interval_ms`; counters keep running.
    SetInterval { interval_ms: u64 },
    /// The task exits its loop and writes nothing further.
    Stop,
}

/// The live state of one probe task.
pub struct TaskState {
    /// The target's identity: the bytes of its address text.
    pub target: Vec<u8>,
    /// Current ticking period in milliseconds.
    pub interval_ms: u64,
    /// Probes that succeeded.
    pub pass: u64,
    /// Probes that failed or timed out.
    pub fail: u64,
    /// Milliseconds accumulated over unbroken runs of failed probes.
    pub disconnected_time: u64,
    /// Time of the last completed probe in milliseconds since the Unix
    /// epoch; 0 while no probe has completed.
    pub last_probe_ms: u64,
    /// Time of the last failed probe of the current failure run; meaningful
    /// only while `in_run` holds.
    pub run_last_ms: u64,
    /// Whether the target is currently in an unbroken run of failures.
    pub in_run: bool,
    /// Whether the task is still running (`false` once stopped).
    pub running: bool,
}

/// The mathematical shape of a task's state.
pub struct TaskModel {
    pub target: Seq<u8>,
    pub interval: int,
    pub pass: int,
    pub fail: int,
    pub disconnected_time: int,
    pub last_probe_ms: int,
    pub run_last_ms: int,
    pub in_run: bool,
    pub running: bool,
}

impl View for TaskState {
    type V = TaskModel;

    open spec fn view(&self) -> TaskModel {
        TaskModel {
            target: self.target@,
            interval: self.interval_ms as int,
            pass: self.pass as int,
            fail: self.fail as int,
            disconnected_time: self.disconnected_time as int,
            last_probe_ms: self.last_probe_ms as int,
            run_last_ms: self.run_last_ms as int,
            in_run: self.in_run,
            running: self.running,
        }
    }
}

/// How one event changes a task's state. A stopped task is inert; a running
/// task counts each tick as exactly one pass or one fail, accumulates
/// unreachable time only while a failure run is unbroken, and takes a new
/// period without touching any counter.
pub open spec fn apply_event(m: TaskModel, e: TaskEvent) -> TaskModel {
    if !m.running {
        m
    } else {
        match e {
            TaskEvent::Tick { success, now_ms } => {
                if success {
                    TaskModel {
                        pass: m.pass + 1,
                        last_probe_ms: now_ms as int,
                        in_run: false,
                        ..m
                    }
                } else if !m.in_run {
                    TaskModel {
                        fail: m.fail + 1,
                        last_probe_ms: now_ms as int,
                        in_run: true,
                        run_last_ms: now_ms as int,
                        ..m
                    }
                } else {
                    TaskModel {
                        fail: m.fail + 1,
                        disconnected_time: m.disconnected_time + (now_ms - m.run_last_ms),
                        last_probe_ms: now_ms as int,
                        run_last_ms: now_ms as int,
                        ..m
                    }
                }
            },
            TaskEvent::SetInterval { interval_ms } => TaskModel {
                interval: interval_ms as int,
                ..m
            },
            TaskEvent::Stop => TaskModel { running: false, ..m },
        }
    }
}

/// The machine limits under which one event can be taken without overflow:
/// counters below their bound and, for a continuing failure run, a clock
/// that did not go backwards.
pub open spec fn event_ok(m: TaskModel, e: TaskEvent) -> bool {
    match e {
        TaskEvent::Tick { success, now_ms } => m.running ==> {
            &&& m.pass < u64::MAX
            &&& m.fail < u64::MAX
            &&& (!success && m.in_run ==> m.run_last_ms <= now_ms
                && m.disconnected_time + (now_ms - m.run_last_ms) <= u64::MAX)
        },
        TaskEvent::SetInterval { .. } => true,
        TaskEvent::Stop => true,
    }
}

impl TaskState {
    /// A task freshly created for a target, before its first tick.
    pub fn new(target: Vec<u8>, interval_ms: u64) -> (t: TaskState)
        ensures
            t@ == (TaskModel {
                target: target@,
                interval: interval_ms as int,
                pass: 0,
                fail: 0,
                disconnected_time: 0,
                last_probe_ms: 0,
                run_last_ms: 0,
                in_run: false,
                running: true,
            }),
    {
        TaskState {
            target,
            interval_ms,
            pass: 0,
            fail: 0,
            disconnected_time: 0,
            last_probe_ms: 0,
            run_last_ms: 0,
            in_run: false,
            running: true,
        }
    }

    /// Take one event. The new state is exactly `apply_event` of the old.
    pub fn step(&mut self, e: TaskEvent)
        requires
            event_ok(old(self)@, e),
        ensures
            final(self)@ == apply_event(old(self)@, e),
    {
        if !self.running {
            return;
        }
        match e {
            TaskEvent::Tick { success, now_ms } => {
                if success {
                    self.pass = self.pass + 1;
                    self.in_run = false;
                } else {
                    self.fail = self.fail + 1;
                    if self.in_run {
                        self.disconnected_time =
                            self.disconnected_time + (now_ms - self.run_last_ms);
                    } else {
                        self.in_run = true;
                    }
                    self.run_last_ms = now_ms;
                }
                self.last_probe_ms = now_ms;
            },
            TaskEvent::SetInterval { interval_ms } => {
                self.interval_ms = interval_ms;
            },
            TaskEvent::Stop => {
                self.running = false;
            },
        }
    }

    /// The record the task would write into the store after its last tick.
    pub fn current_stat(&self) -> (s: PingStat)
        ensures
            s@ == stat_of(self@),
    {
        let mut ip: Vec<u8> = Vec::new();
        let mut i: usize = 0;
        while i < self.target.len()
            invariant
                i <= self.target.len(),
                ip@ == self.target@.subrange(0, i as int),
            decreases self.target.len() - i,
        {
            ip.push(self.target[i]);
            i = i + 1;
        }
        assert(ip@ == self.target@);
        PingStat {
            ip,
            pass: self.pass,
            fail: self.fail,
            disconnected_time: self.disconnected_time,
            last_probe_ms: self.last_probe_ms,
        }
    }
}

/// The statistic record that a task state denotes.
pub open spec fn stat_of(m: TaskModel) -> StatModel {
    StatModel {
        ip: m.target,
        pass: m.pass,
        fail: m.fail,
        disconnected_time: m.disconnected_time,
        last_probe_ms: m.last_probe_ms,
    }
}

/// The state after a whole sequence of events.
pub open spec fn apply_events(m: TaskModel, es: Seq<TaskEvent>) -> TaskModel
    decreases es.len(),
{
    if es.len() == 0 {
        m
    } else {
        apply_events(apply_event(m, es[0]), es.skip(1))
    }
}

/// Taking events one more at the end equals one step after the rest.
pub proof fn lemma_apply_events_snoc(m: TaskModel, es: Seq<TaskEvent>, e: TaskEvent)
    ensures
        apply_events(m, es.push(e)) == apply_event(apply_events(m, es), e),
    decreases es.len(),
{
    if es.len() == 0 {
        assert(es.push(e)[0] == e);
        assert(es.push(e).skip(1) =~= Seq::<TaskEvent>::empty());
        assert(apply_events(apply_event(m, e), es.push(e).skip(1)) == apply_event(m, e));
    } else {
        assert(es.push(e)[0] == es[0]);
        assert(es.push(e).skip(1) =~= es.skip(1).push(e));
        lemma_apply_events_snoc(apply_event(m, es[0]), es.skip(1), e);
        assert(apply_events(m, es.push(e))
            == apply_events(apply_event(m, es[0]), es.skip(1).push(e)));
    }
}

/// Counter monotonicity: over any sequence of events, a task's pass and fail
/// counters never decrease.
pub proof fn lemma_counters_monotone(m: TaskModel, es: Seq<TaskEvent>)
    ensures
        apply_events(m, es).pass >= m.pass,
        apply_events(m, es).fail >= m.fail,
    decreases es.len(),
{
    if es.len() > 0 {
        lemma_counters_monotone(apply_event(m, es[0]), es.skip(1));
    }
}

/// Each completed tick of a running task increments exactly one of the two
/// counters: one pass on success, one fail otherwise, never both.
pub proof fn lemma_tick_exactly_one(m: TaskModel, success: bool, now_ms: u64)
    requires
        m.running,
    ensures
        ({
            let m2 = apply_event(m, TaskEvent::Tick { success, now_ms });
            &&& m2.pass + m2.fail == m.pass + m.fail + 1
            &&& (success ==> m2.pass == m.pass + 1 && m2.fail == m.fail)
            &&& (!success ==> m2.fail == m.fail + 1 && m2.pass == m.pass)
        }),
{
}

/// Interval propagation: a new period takes effect without resetting any
/// counter, the failure-run state, or the task's liveness.
pub proof fn lemma_set_interval_keeps_counters(m: TaskModel, interval_ms: u64)
    requires
        m.running,
    ensures
        ({
            let m2 = apply_event(m, TaskEvent::SetInterval { interval_ms });
            &&& m2.interval == interval_ms as int
            &&& m2.pass == m.pass
            &&& m2.fail == m.fail
            &&& m2.disconnected_time == m.disconnected_time
            &&& m2.in_run == m.in_run
            &&& m2.run_last_ms == m.run_last_ms
            &&& m2.running
        }),
{
}

/// The failure ticks at the given times, as one event per time.
pub open spec fn fail_ticks(times: Seq<u64>) -> Seq<TaskEvent> {
    times.map_values(|t: u64| TaskEvent::Tick { success: false, now_ms: t })
}

/// Downtime accumulation: failures at nondecreasing times t1 <= ... <= tk,
/// starting outside any failure run, accumulate exactly tk - t1 of
/// unreachable time and leave the task inside a run whose last failure is
/// tk; a success then ends the run without adding anything further.
pub proof fn lemma_downtime_run(m: TaskModel, times: Seq<u64>)
    requires
        m.running,
        !m.in_run,
        times.len() >= 1,
        forall|i: int, j: int| 0 <= i <= j < times.len() ==> times[i] <= times[j],
    ensures
        ({
            let m2 = apply_events(m, fail_ticks(times));
            &&& m2.disconnected_time == m.disconnected_time + times.last() - times.first()
            &&& m2.in_run
            &&& m2.run_last_ms == times.last() as int
            &&& m2.running
            &&& forall|t: u64| #![auto]
                apply_event(m2, TaskEvent::Tick { success: true, now_ms: t }).disconnected_time
                    == m2.disconnected_time
                && !apply_event(m2, TaskEvent::Tick { success: true, now_ms: t }).in_run
        }),
    decreases times.len(),
{
    let ft = fail_ticks(times);
    if times.len() == 1 {
        assert(ft[0] == (TaskEvent::Tick { success: false, now_ms: times[0] }));
        assert(ft.skip(1) =~= Seq::<TaskEvent>::empty());
        let m1 = apply_event(m, ft[0]);
        assert(apply_events(m1, ft.skip(1)) == m1);
        assert(times.last() == times.first());
    } else {
        let head = times.subrange(0, times.len() - 1);
        let tk = times.last();
        assert(head.last() == times[times.len() - 2]);
        assert(head.last() <= tk);
        assert(fail_ticks(head).push(TaskEvent::Tick { success: false, now_ms: tk })
            =~= ft);
        lemma_downtime_run(m, head);
        lemma_apply_events_snoc(m, fail_ticks(head), TaskEvent::Tick { success: false, now_ms: tk });
        assert(apply_events(m, ft)
            == apply_event(
                apply_events(m, fail_ticks(head)),
                TaskEvent::Tick { success: false, now_ms: tk },
            ));
    }
}

} // verus!
