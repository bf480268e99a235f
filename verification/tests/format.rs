use pingmon::digits::u64_to_dec;
use pingmon::limiter::Limiter;
use pingmon::orchestrator::Orchestrator;
use pingmon::target::validate_target;
use pingmon::task::{TaskEvent, TaskState};

fn key(s: &str) -> Vec<u8> {
    s.as_bytes().to_vec()
}

const HEADER: &str = "IP,Pass,Fail,Disconnected Time (ms),Last Probe Time\n";

#[test]
fn decimal_rendering_is_exact() {
    assert_eq!(u64_to_dec(0), b"0".to_vec());
    assert_eq!(u64_to_dec(7), b"7".to_vec());
    assert_eq!(u64_to_dec(255), b"255".to_vec());
    assert_eq!(u64_to_dec(1_000_000), b"1000000".to_vec());
    assert_eq!(u64_to_dec(u64::MAX), b"18446744073709551615".to_vec());
}

#[test]
fn valid_targets_are_admitted() {
    for s in ["0.0.0.0", "255.255.255.255", "192.168.1.1", "10.0.0.2", "1.2.3.4"] {
        assert!(validate_target(&key(s)), "{} should be admitted", s);
    }
}

#[test]
fn valid_six_part_targets_are_admitted() {
    for s in [
        "::",
        "::1",
        "1::",
        "fe80::1",
        "2001:db8:0:0:0:0:2:1",
        "1:2:3:4:5:6:7:8",
        "a:B:c:D:e:F:0:9",
        "1:2:3:4:5:6:7::",
        "::1:2:3:4:5:6:7",
        "::ffff:192.168.1.1",
        "1:2:3:4:5:6:192.168.1.1",
        "1:2::10.0.0.1",
    ] {
        assert!(validate_target(&key(s)), "{} should be admitted", s);
    }
}

#[test]
fn malformed_targets_are_rejected() {
    for s in [
        "", "1", "1.2.3", "1.2.3.4.5", "256.1.1.1", "01.2.3.4", "1.2.3.04", "1.2.3.a",
        "1..2.3", ".1.2.3", "1.2.3.4.", "1.2.3.", "10,0,0,1", "10.0.0.1 ", "1000.1.1.1",
    ] {
        assert!(!validate_target(&key(s)), "{:?} should be rejected", s);
    }
}

#[test]
fn malformed_six_part_targets_are_rejected() {
    for s in [
        ":", ":::", "1:2:3:4:5:6:7", "1:2:3:4:5:6:7:8:9", "12345::", "1::2::3", ":1::2",
        "1::2:", "g::1", "1:2:3:4:5:6:7:8::", "::1:2:3:4:5:6:7:8", "1:2:3:4::5:6:7:8",
        "1.2.3.4::", "::ffff:1.2.3.04", "fe80::1%eth0", "1:2:3:4:5:1.2.3.4:8",
        "1:2:3:4:5:6:7:1.2.3.4",
    ] {
        assert!(!validate_target(&key(s)), "{:?} should be rejected", s);
    }
}

#[test]
fn export_empty_store_is_header_only() {
    let o = Orchestrator::new(1000);
    let (rows, csv) = o.export();
    assert_eq!(rows.len(), 0);
    assert_eq!(csv, HEADER.as_bytes().to_vec());
}

#[test]
fn export_rows_sorted_with_exact_fields() {
    let mut o = Orchestrator::new(1000);
    // given in unsorted order; the export must sort by target identity
    o.handle_start(&vec![key("10.0.0.2"), key("10.0.0.1")], 1000);

    // 1431648000 s since the epoch renders as 2015-05-15 00:00:00 UTC
    let mut t = TaskState::new(key("10.0.0.1"), 1000);
    t.step(TaskEvent::Tick { success: true, now_ms: 1_431_648_000_000 });
    assert!(o.record_probe(t.current_stat()));

    let (rows, csv) = o.export();
    assert_eq!(rows.len(), 2);
    assert_eq!(rows[0].ip, key("10.0.0.1"));
    assert_eq!(rows[1].ip, key("10.0.0.2"));

    let expected = format!(
        "{}10.0.0.1,1,0,0,2015-05-15 00:00:00\n10.0.0.2,0,0,0,N/A\n",
        HEADER
    );
    assert_eq!(String::from_utf8(csv).unwrap(), expected);
}

#[test]
fn export_is_a_snapshot_not_a_view() {
    let mut o = Orchestrator::new(1000);
    o.handle_start(&vec![key("10.0.0.1")], 1000);
    let (rows, _) = o.export();
    let mut t = TaskState::new(key("10.0.0.1"), 1000);
    t.step(TaskEvent::Tick { success: true, now_ms: 1_000 });
    assert!(o.record_probe(t.current_stat()));
    // the earlier snapshot is unaffected by the later write
    assert_eq!(rows[0].pass, 0);
    let (rows2, _) = o.export();
    assert_eq!(rows2[0].pass, 1);
}

#[test]
fn limiter_never_exceeds_capacity() {
    let mut gate = Limiter::new(50);
    let mut granted = 0u64;
    for _ in 0..60 {
        if gate.try_acquire() {
            granted += 1;
        }
        assert!(gate.in_flight() <= gate.capacity());
    }
    assert_eq!(granted, 50);
    assert_eq!(gate.in_flight(), 50);
    gate.release();
    assert_eq!(gate.in_flight(), 49);
    assert!(gate.try_acquire());
    assert!(!gate.try_acquire());
}

#[test]
fn limiter_is_independent_of_target_count() {
    // more targets than slots: only the limiter bounds concurrency
    let mut gate = Limiter::new(50);
    let mut in_flight_peak = 0u64;
    for _round in 0..3 {
        let mut held = 0u64;
        for _ in 0..80 {
            if gate.try_acquire() {
                held += 1;
            }
            if gate.in_flight() > in_flight_peak {
                in_flight_peak = gate.in_flight();
            }
        }
        assert_eq!(held, 50);
        for _ in 0..held {
            gate.release();
        }
        assert_eq!(gate.in_flight(), 0);
    }
    assert_eq!(in_flight_peak, 50);
}
