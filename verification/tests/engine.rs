use pingmon::orchestrator::{CommandEffect, ControlCommand, Orchestrator};
use pingmon::stat::PingStat;
use pingmon::task::{TaskEvent, TaskState};

fn key(s: &str) -> Vec<u8> {
    s.as_bytes().to_vec()
}

fn stat_for(o: &Orchestrator, s: &str) -> PingStat {
    let k = key(s);
    o.get_stat(&k).expect("target should have a record").duplicate()
}

#[test]
fn start_admits_six_part_targets() {
    let mut o = Orchestrator::new(1000);
    let plan = o.handle_start(&vec![key("::1"), key("fe80::1"), key("10.0.0.1")], 1000);
    assert_eq!(o.target_count(), 3);
    assert_eq!(plan.rejected.len(), 0);
    assert_eq!(plan.to_start.len(), 3);
    let s = stat_for(&o, "fe80::1");
    assert_eq!((s.pass, s.fail, s.disconnected_time, s.last_probe_ms), (0, 0, 0, 0));
}

#[test]
fn start_reconciles_dedup_and_rejects_invalid() {
    let mut o = Orchestrator::new(1000);
    let ips = vec![key("10.0.0.1"), key("10.0.0.1"), key("300.0.0.1"), key("10.0.0.2")];
    let plan = o.handle_start(&ips, 1000);
    assert_eq!(o.target_count(), 2);
    assert_eq!(plan.interval_ms, 1000);
    assert_eq!(plan.to_stop.len(), 0);
    assert_eq!(plan.to_update.len(), 0);
    assert_eq!(plan.to_start.len(), 2);
    assert_eq!(plan.to_start[0].target, key("10.0.0.1"));
    assert_eq!(plan.to_start[0].delay_ms, 0);
    assert_eq!(plan.to_start[1].target, key("10.0.0.2"));
    assert_eq!(plan.to_start[1].delay_ms, 10);
    assert_eq!(plan.rejected.len(), 1);
    assert_eq!(plan.rejected[0], key("300.0.0.1"));
    let s1 = stat_for(&o, "10.0.0.1");
    assert_eq!((s1.pass, s1.fail, s1.disconnected_time, s1.last_probe_ms), (0, 0, 0, 0));
}

#[test]
fn start_scenario_preserves_kept_counters() {
    let mut o = Orchestrator::new(1000);
    o.handle_start(&vec![key("10.0.0.1"), key("10.0.0.2")], 1000);

    // one tick per target, as the probe tasks would do after ~1s
    let mut t1 = TaskState::new(key("10.0.0.1"), 1000);
    let mut t2 = TaskState::new(key("10.0.0.2"), 1000);
    t1.step(TaskEvent::Tick { success: true, now_ms: 1_000 });
    t2.step(TaskEvent::Tick { success: false, now_ms: 1_000 });
    assert!(o.record_probe(t1.current_stat()));
    assert!(o.record_probe(t2.current_stat()));

    assert_eq!(o.target_count(), 2);
    let s1 = stat_for(&o, "10.0.0.1");
    let s2 = stat_for(&o, "10.0.0.2");
    assert_eq!(s1.pass + s1.fail, 1);
    assert_eq!(s2.pass + s2.fail, 1);

    // reconcile to a different set: .1 goes, .3 arrives, .2 is kept
    let plan = o.handle_start(&vec![key("10.0.0.2"), key("10.0.0.3")], 1000);
    assert_eq!(plan.to_stop, vec![key("10.0.0.1")]);
    assert_eq!(plan.to_update, vec![key("10.0.0.2")]);
    assert_eq!(plan.to_start.len(), 1);
    assert_eq!(plan.to_start[0].target, key("10.0.0.3"));

    assert_eq!(o.target_count(), 2);
    assert!(o.get_stat(&key("10.0.0.1")).is_none());
    let s2 = stat_for(&o, "10.0.0.2");
    assert_eq!((s2.pass, s2.fail), (0, 1));
    let s3 = stat_for(&o, "10.0.0.3");
    assert_eq!((s3.pass, s3.fail, s3.disconnected_time, s3.last_probe_ms), (0, 0, 0, 0));
}

#[test]
fn set_interval_reaches_every_task_and_resets_nothing() {
    let mut o = Orchestrator::new(1000);
    o.handle_start(&vec![key("10.0.0.1"), key("10.0.0.2")], 1000);
    let mut t1 = TaskState::new(key("10.0.0.1"), 1000);
    t1.step(TaskEvent::Tick { success: true, now_ms: 1_000 });
    assert!(o.record_probe(t1.current_stat()));
    let before = stat_for(&o, "10.0.0.1");

    let to_update = o.handle_set_interval(250);
    assert_eq!(to_update, vec![key("10.0.0.1"), key("10.0.0.2")]);
    assert_eq!(o.interval_ms(), 250);

    t1.step(TaskEvent::SetInterval { interval_ms: 250 });
    assert_eq!(t1.interval_ms, 250);
    assert_eq!(t1.pass, before.pass);
    assert_eq!(t1.fail, before.fail);
    assert_eq!(t1.disconnected_time, before.disconnected_time);

    let after = stat_for(&o, "10.0.0.1");
    assert_eq!(after.pass, before.pass);
    assert_eq!(after.fail, before.fail);
}

#[test]
fn tick_increments_exactly_one_counter() {
    let mut t = TaskState::new(key("10.0.0.1"), 1000);
    let outcomes = [true, false, false, true, false];
    for (i, ok) in outcomes.iter().enumerate() {
        let pass0 = t.pass;
        let fail0 = t.fail;
        t.step(TaskEvent::Tick { success: *ok, now_ms: 1_000 * (i as u64 + 1) });
        assert_eq!(t.pass + t.fail, pass0 + fail0 + 1);
        assert!(t.pass >= pass0 && t.fail >= fail0);
    }
    assert_eq!(t.pass, 2);
    assert_eq!(t.fail, 3);
}

#[test]
fn downtime_accumulates_over_a_failure_run_only() {
    let mut t = TaskState::new(key("10.0.0.1"), 1000);
    t.step(TaskEvent::Tick { success: false, now_ms: 1_000 });
    assert_eq!(t.disconnected_time, 0); // a run of one failure spans no time
    t.step(TaskEvent::Tick { success: false, now_ms: 3_000 });
    assert_eq!(t.disconnected_time, 2_000);
    t.step(TaskEvent::Tick { success: false, now_ms: 6_000 });
    assert_eq!(t.disconnected_time, 5_000); // t_k - t_1
    t.step(TaskEvent::Tick { success: true, now_ms: 7_000 });
    assert_eq!(t.disconnected_time, 5_000); // a success stops the accrual
    t.step(TaskEvent::Tick { success: true, now_ms: 8_000 });
    assert_eq!(t.disconnected_time, 5_000);
    // a fresh run starts counting from its own first failure
    t.step(TaskEvent::Tick { success: false, now_ms: 9_000 });
    t.step(TaskEvent::Tick { success: false, now_ms: 9_500 });
    assert_eq!(t.disconnected_time, 5_500);
}

#[test]
fn stopped_task_changes_nothing() {
    let mut t = TaskState::new(key("10.0.0.1"), 1000);
    t.step(TaskEvent::Tick { success: true, now_ms: 1_000 });
    t.step(TaskEvent::Stop);
    assert!(!t.running);
    t.step(TaskEvent::Tick { success: false, now_ms: 2_000 });
    t.step(TaskEvent::SetInterval { interval_ms: 9 });
    assert_eq!((t.pass, t.fail, t.interval_ms), (1, 0, 1000));
}

#[test]
fn stop_is_idempotent_on_empty_state() {
    let mut o = Orchestrator::new(1000);
    let to_stop = o.handle_stop();
    assert_eq!(to_stop.len(), 0);
    assert_eq!(o.target_count(), 0);
    let to_stop = o.handle_stop();
    assert_eq!(to_stop.len(), 0);
    assert_eq!(o.target_count(), 0);
}

#[test]
fn stop_clears_tasks_and_store() {
    let mut o = Orchestrator::new(1000);
    o.handle_start(&vec![key("10.0.0.1"), key("10.0.0.2")], 1000);
    let to_stop = o.handle_stop();
    assert_eq!(to_stop, vec![key("10.0.0.1"), key("10.0.0.2")]);
    assert_eq!(o.target_count(), 0);
    assert!(o.get_stat(&key("10.0.0.1")).is_none());
}

#[test]
fn record_probe_rejected_for_unknown_target() {
    let mut o = Orchestrator::new(1000);
    o.handle_start(&vec![key("10.0.0.1")], 1000);
    let mut t = TaskState::new(key("10.0.0.9"), 1000);
    t.step(TaskEvent::Tick { success: true, now_ms: 1_000 });
    assert!(!o.record_probe(t.current_stat()));
    assert_eq!(o.target_count(), 1);
    assert!(o.get_stat(&key("10.0.0.9")).is_none());
}

#[test]
fn handle_command_dispatches() {
    let mut o = Orchestrator::new(1000);
    let eff = o.handle_command(ControlCommand::Start {
        ips: vec![key("10.0.0.1")],
        interval_ms: 500,
    });
    match eff {
        CommandEffect::Started(plan) => {
            assert_eq!(plan.to_start.len(), 1);
            assert_eq!(plan.interval_ms, 500);
        },
        _ => panic!("expected a start effect"),
    }
    let eff = o.handle_command(ControlCommand::SetInterval { interval_ms: 750 });
    match eff {
        CommandEffect::IntervalChanged { interval_ms, to_update } => {
            assert_eq!(interval_ms, 750);
            assert_eq!(to_update, vec![key("10.0.0.1")]);
        },
        _ => panic!("expected an interval effect"),
    }
    let eff = o.handle_command(ControlCommand::Export);
    match eff {
        CommandEffect::Exported { rows, .. } => {
            assert_eq!(rows.len(), 1);
        },
        _ => panic!("expected an export effect"),
    }
    let eff = o.handle_command(ControlCommand::Stop);
    match eff {
        CommandEffect::Stopped { to_stop } => {
            assert_eq!(to_stop, vec![key("10.0.0.1")]);
        },
        _ => panic!("expected a stop effect"),
    }
    assert_eq!(o.target_count(), 0);
}
