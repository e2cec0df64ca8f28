use ia2_project::devices::{
    connect_report, initial_health, next_backoff_ms, protocol_name, refresh_health, replace_report,
    retry_ethercat, RECONNECT_BACKOFF_CAP_MS, RECONNECT_BACKOFF_START_MS,
};
use ia2_project::retain::{legacy_name, restore_value, retain_key};
use ia2_project::runtime::{
    merge_snapshot, route_mapping, shared_names, snapshot_name, DeviceHealth, DeviceReport,
    DiscoveredSlave, VarValue,
};
use ia2_project::scan::{
    any_due, clamp_injection, due_in_order, exec_order, idle_sleep_us, re_anchor_all, stall_tick, UnitClock,
    DEFAULT_SCAN_INTERVAL_MS, MAX_INJECT_SCANS, MAX_INJECT_STALL_MS, SNAPSHOT_PERIOD_US,
    WATCHDOG_OVERRUN_THRESHOLD,
};
use ia2_project::types::Protocol;

fn s(x: &str) -> String {
    x.to_string()
}

#[test]
fn unit_interval_falls_back_to_the_default() {
    let c = UnitClock::new(0, 7);
    assert_eq!(c.interval_us, DEFAULT_SCAN_INTERVAL_MS * 1000);
    assert_eq!(c.next_due_us, 7);
    assert_eq!(c.scan_count, 0);
    let c = UnitClock::new(2, 0);
    assert_eq!(c.interval_us, 2_000);
}

#[test]
fn in_time_scan_keeps_the_anchor_and_clears_the_streak() {
    let mut c = UnitClock::new(10, 0);
    c.consecutive_overruns = 3;
    let v = c.finish_scan(5_000, false);
    assert!(!v.overran && !v.warn && !v.trip);
    assert_eq!(c.next_due_us, 10_000);
    assert_eq!(c.consecutive_overruns, 0);
}

#[test]
fn overrun_slides_the_anchor_and_warns_once() {
    let mut c = UnitClock::new(10, 0);
    let v = c.finish_scan(25_000, false);
    assert!(v.overran && v.warn && !v.trip);
    assert_eq!(c.next_due_us, 35_000);
    assert_eq!(c.consecutive_overruns, 1);
    let v = c.finish_scan(60_000, false);
    assert!(v.overran && !v.warn);
    assert_eq!(c.consecutive_overruns, 2);
}

#[test]
fn watchdog_trips_on_the_fifth_overrun_in_a_row_only() {
    let mut c = UnitClock::new(2, 0);
    let mut now: u64 = 0;
    let mut trips = Vec::new();
    for _ in 0..(WATCHDOG_OVERRUN_THRESHOLD + 2) {
        now += 12_000;
        let v = c.finish_scan(now, !trips.is_empty());
        assert!(v.overran);
        if v.trip {
            trips.push(c.consecutive_overruns);
        }
    }
    assert_eq!(trips, vec![WATCHDOG_OVERRUN_THRESHOLD]);
}

#[test]
fn a_scan_in_time_resets_the_watchdog_streak() {
    let mut c = UnitClock::new(2, 0);
    let mut now: u64 = 0;
    for _ in 0..4 {
        now += 12_000;
        c.finish_scan(now, false);
    }
    assert_eq!(c.consecutive_overruns, 4);
    let v = c.finish_scan(c.next_due_us, false);
    assert!(!v.overran);
    assert_eq!(c.consecutive_overruns, 0);
}

#[test]
fn record_scan_counts() {
    let mut c = UnitClock::new(1, 0);
    c.record_scan();
    c.record_scan();
    assert_eq!(c.scan_count, 2);
}

#[test]
fn units_run_by_priority_then_declaration() {
    assert_eq!(exec_order(&[5, 1, 5, 0, 1]), vec![3, 1, 4, 0, 2]);
    assert_eq!(exec_order(&[]), Vec::<usize>::new());
    assert_eq!(exec_order(&[2, 2, 2]), vec![0, 1, 2]);
}

#[test]
fn stall_requests_are_clamped() {
    let p = clamp_injection(12, 6);
    assert_eq!((p.stall_ms, p.scans, p.clamped), (12, 6, false));
    let p = clamp_injection(u64::MAX, 50);
    assert_eq!((p.stall_ms, p.scans, p.clamped), (MAX_INJECT_STALL_MS, 50, true));
    let p = clamp_injection(5, u32::MAX);
    assert_eq!((p.stall_ms, p.scans, p.clamped), (5, MAX_INJECT_SCANS, true));
}

#[test]
fn a_stall_is_spent_only_on_a_tick_with_a_due_unit() {
    assert_eq!(stall_tick(3, true), (true, 2));
    assert_eq!(stall_tick(3, false), (false, 3));
    assert_eq!(stall_tick(0, true), (false, 0));
}

#[test]
fn due_units_and_idle_sleep() {
    let mut a = UnitClock::new(100, 0);
    let mut b = UnitClock::new(100, 0);
    a.next_due_us = 50_000;
    b.next_due_us = 30_000;
    let clocks = vec![a, b];
    assert!(!any_due(&clocks, 10_000));
    assert!(any_due(&clocks, 30_000));
    assert_eq!(idle_sleep_us(&clocks, 10_000), 20_000);
    assert_eq!(idle_sleep_us(&clocks, 40_000), 0);
    b.next_due_us = 10_000_000;
    a.next_due_us = 9_000_000;
    assert_eq!(idle_sleep_us(&[a, b], 0), SNAPSHOT_PERIOD_US);
}

#[test]
fn resuming_re_anchors_every_unit() {
    let mut clocks = vec![UnitClock::new(10, 0), UnitClock::new(20, 5)];
    clocks[0].scan_count = 9;
    re_anchor_all(&mut clocks, 777);
    assert!(clocks.iter().all(|c| c.next_due_us == 777));
    assert_eq!(clocks[0].scan_count, 9);
    assert_eq!(clocks[1].interval_us, 20_000);
    assert_eq!(due_in_order(&vec![1, 0], &clocks, 777), vec![1, 0]);
}

#[test]
fn retain_keys_and_their_legacy_fallback() {
    assert_eq!(retain_key(2, "line1", "count"), "line1.count");
    assert_eq!(retain_key(1, "line1", "count"), "count");
    assert_eq!(legacy_name("line1.count"), Some(s("count")));
    assert_eq!(legacy_name("count"), None);
    let saved = vec![(s("count"), 41u64), (s("line2.count"), 7u64)];
    assert_eq!(restore_value(&saved, &s("line1.count")), Some(41));
    assert_eq!(restore_value(&saved, &s("line2.count")), Some(7));
    assert_eq!(restore_value(&saved, &s("line3.other")), None);
}

fn map(entries: &[(&str, u16)]) -> Vec<(String, u16)> {
    entries.iter().map(|(n, i)| (s(n), *i)).collect()
}

#[test]
fn names_declared_by_two_units_are_shared() {
    let maps = vec![
        map(&[("run", 0), ("speed", 1)]),
        map(&[("speed", 0), ("level", 1)]),
        map(&[("level", 3), ("speed", 4)]),
    ];
    let mut shared = shared_names(&maps);
    shared.sort();
    assert_eq!(shared, vec![s("level"), s("speed")]);
    assert!(shared_names(&vec![map(&[("a", 0), ("a", 1)])]).is_empty());
    assert_eq!(snapshot_name(&shared, "line1", &s("speed")), "line1.speed");
    assert_eq!(snapshot_name(&shared, "line1", &s("run")), "run");
}

fn var(name: &str, value: &str, bits: u64) -> VarValue {
    VarValue { name: s(name), iec_type: s("INT"), value: s(value), bits }
}

#[test]
fn snapshot_merges_units_keeping_first_slots_and_prefixing_shared_names() {
    let per_unit = vec![
        vec![var("speed", "1", 1), var("run", "TRUE", 1), var("speed", "9", 9)],
        vec![var("speed", "2", 2)],
    ];
    let instances = vec![s("a"), s("b")];
    let shared = vec![s("speed")];
    let snap = merge_snapshot(&per_unit, &instances, &shared, 1234, &[3, 8]);
    let names: Vec<&str> = snap.vars.iter().map(|v| v.name.as_str()).collect();
    assert_eq!(names, vec!["a.speed", "run", "b.speed"]);
    assert_eq!(snap.vars[0].value, "1");
    assert_eq!(snap.vars[2].bits, 2);
    assert_eq!(snap.timestamp_us, 1234);
    assert_eq!(snap.scan_count, 8);
}

#[test]
fn mappings_route_to_the_named_instance_or_the_first_declaring_unit() {
    let instances = vec![s("Fill"), s("Drain")];
    let maps = vec![map(&[("level", 4)]), map(&[("level", 7), ("valve", 2)])];
    assert_eq!(route_mapping("drain", &s("level"), &instances, &maps), Some((1, 7)));
    assert_eq!(route_mapping("DRAIN", &s("nope"), &instances, &maps), None);
    assert_eq!(route_mapping("", &s("level"), &instances, &maps), Some((0, 4)));
    assert_eq!(route_mapping("other", &s("valve"), &instances, &maps), Some((1, 2)));
    assert_eq!(route_mapping("other", &s("ghost"), &instances, &maps), None);
}

#[test]
fn connect_reports_keep_the_first_error_line() {
    let ok = connect_report(
        &s("bus"),
        Protocol::Ethercat,
        Ok(vec![DiscoveredSlave {
            index: 0,
            name: s("EK1100"),
            vendor_id: 2,
            product_id: 0x044c2c52,
            input_bytes: 0,
            output_bytes: 0,
        }]),
    );
    assert!(ok.connected && ok.error.is_none());
    assert_eq!(ok.protocol, "ethercat");
    assert_eq!(ok.slaves.len(), 1);
    let bad = connect_report(&s("plc"), Protocol::Modbus, Err(s("timed out\r\nretry later")));
    assert!(!bad.connected);
    assert_eq!(bad.error, Some(s("timed out")));
    assert!(bad.slaves.is_empty());
    let plain = connect_report(&s("plc"), Protocol::Modbus, Ok(ok.slaves.clone()));
    assert!(plain.connected && plain.slaves.is_empty());
    assert_eq!(protocol_name(Protocol::Canopen), "canopen");
    assert_eq!(protocol_name(Protocol::Opcua), "opcua");
}

#[test]
fn ethercat_is_tried_three_times() {
    assert!(retry_ethercat(1));
    assert!(retry_ethercat(2));
    assert!(!retry_ethercat(3));
}

#[test]
fn reconnect_backoff_doubles_to_the_cap() {
    let mut b = RECONNECT_BACKOFF_START_MS;
    let mut seen = vec![b];
    for _ in 0..6 {
        b = next_backoff_ms(b);
        seen.push(b);
    }
    assert_eq!(seen, vec![1_000, 2_000, 4_000, 8_000, 16_000, 30_000, 30_000]);
    assert_eq!(next_backoff_ms(RECONNECT_BACKOFF_CAP_MS), RECONNECT_BACKOFF_CAP_MS);
}

fn report(name: &str, connected: bool) -> DeviceReport {
    DeviceReport { name: s(name), protocol: s("modbus"), connected, error: None, slaves: vec![] }
}

#[test]
fn device_health_is_seeded_and_refreshed() {
    let reports = vec![report("a", true), report("b", false), report("c", true)];
    let live = vec![(s("a"), true), (s("c"), false)];
    let h = initial_health(&reports, &live);
    let flags: Vec<(String, bool)> = h.iter().map(|d| (d.name.clone(), d.healthy)).collect();
    assert_eq!(flags, vec![(s("a"), true), (s("b"), false), (s("c"), false)]);

    let mut h = h;
    refresh_health(&mut h, &vec![(s("c"), true), (s("b"), true)]);
    let flags: Vec<bool> = h.iter().map(|d| d.healthy).collect();
    assert_eq!(flags, vec![true, true, true]);
    let mut lone = vec![DeviceHealth { name: s("x"), healthy: false }];
    refresh_health(&mut lone, &vec![]);
    assert!(!lone[0].healthy);
}

#[test]
fn a_reconnect_replaces_the_devices_report() {
    let mut reports = vec![report("a", false), report("b", false)];
    replace_report(&mut reports, report("b", true));
    assert!(!reports[0].connected && reports[1].connected);
    replace_report(&mut reports, report("zz", true));
    assert_eq!(reports.len(), 2);
}

#[test]
fn due_units_keep_the_execution_order() {
    let mut clocks = vec![UnitClock::new(10, 0), UnitClock::new(10, 0), UnitClock::new(10, 0)];
    clocks[1].next_due_us = 99;
    let order = exec_order(&[2, 1, 0]);
    assert_eq!(due_in_order(&order, &clocks, 50), vec![2, 0]);
    assert_eq!(due_in_order(&order, &clocks, 100), vec![2, 1, 0]);
}

use ia2_project::forces::{force_command, ForceTable};
use ia2_project::runtime::RuntimeWriteError;

#[test]
fn forces_are_listed_by_name_and_released() {
    let mut t = ForceTable::new();
    t.force(s("speed"), 10);
    t.force(s("alarm"), 1);
    t.force(s("speed"), 12);
    assert_eq!(t.listing(), vec![(s("alarm"), 1), (s("speed"), 12)]);
    assert_eq!(t.get(&s("speed")), Some(12));
    assert_eq!(t.get(&s("level")), None);
    t.unforce(&s("alarm"));
    t.unforce(&s("never"));
    assert_eq!(t.listing(), vec![(s("speed"), 12)]);
}

#[test]
fn a_force_of_an_unknown_variable_is_refused() {
    let instances = vec![s("a"), s("b")];
    let maps = vec![map(&[("run", 0)]), map(&[("level", 3), ("run", 5)])];
    let mut t = ForceTable::new();
    assert!(matches!(force_command(&mut t, s("ghost"), 1, &instances, &maps),
        Err(RuntimeWriteError::UnknownVariable(n)) if n == "ghost"));
    assert_eq!(force_command(&mut t, s("b.run"), 7, &instances, &maps).ok(), Some(7));
    assert_eq!(force_command(&mut t, s("level"), 2, &instances, &maps).ok(), Some(2));
    assert_eq!(force_command(&mut t, s("run"), 1, &instances, &maps).ok(), Some(1));
    assert_eq!(t.writes_for_unit(1, &instances, &maps), vec![(5, 7), (3, 2)]);
    assert_eq!(t.writes_for_unit(0, &instances, &maps), vec![(0, 1)]);
}
