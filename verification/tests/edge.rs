use ia2_project::cli::{parse_args, CliError, CliRequest, DEFAULT_BIND};
use ia2_project::host::{nic_from_files, system_info, Nic};
use ia2_project::logs::{captured_lines, LogRing, DEFAULT_TAIL, LOG_CAPACITY};
use ia2_project::northbound::{
    is_write_request, northbound_plan, northbound_write_slot, topic, RequestValue, WriteRejection,
};
use ia2_project::runtime::{VarSnapshot, VarValue};
use ia2_project::opcua::{
    accepts_writes, failsafe_targets, poll_period_ms, sort_browsed, ua_type_name, BrowsedNode,
};
use ia2_project::types::{MqttNorthbound, OpcuaAccess, OpcuaChannel, OpcuaDataType};

fn s(x: &str) -> String {
    x.to_string()
}

fn args(a: &[&str]) -> Vec<String> {
    a.iter().map(|x| s(x)).collect()
}

#[test]
fn cli_reads_the_three_flags() {
    match parse_args(&args(&["--project-dir", "/opt/ia2/current/p", "--bind", "0.0.0.0:9000"])) {
        Ok(CliRequest::Run(a)) => {
            assert_eq!(a.project_dir, "/opt/ia2/current/p");
            assert_eq!(a.bind, "0.0.0.0:9000");
            assert_eq!(a.state_dir, None);
        }
        _ => panic!("expected a run"),
    }
    match parse_args(&args(&["--state-dir", "/var/s", "--project-dir", "p", "--app", "old"])) {
        Ok(CliRequest::Run(a)) => {
            assert_eq!(a.project_dir, "p");
            assert_eq!(a.bind, DEFAULT_BIND);
            assert_eq!(a.state_dir, Some(s("/var/s")));
        }
        _ => panic!("expected a run"),
    }
}

#[test]
fn cli_refusals_and_help() {
    assert!(matches!(parse_args(&args(&["-h", "--bogus"])), Ok(CliRequest::Help)));
    assert!(matches!(parse_args(&args(&["--project-dir", "p", "--help"])), Ok(CliRequest::Help)));
    match parse_args(&args(&["--bogus", "--help"])) {
        Err(e) => assert_eq!(e.message(), "unknown argument: --bogus"),
        _ => panic!("expected a refusal"),
    }
    match parse_args(&args(&["--bind"])) {
        Err(e) => assert_eq!(e.message(), "--bind requires a value"),
        _ => panic!("expected a refusal"),
    }
    match parse_args(&args(&[])) {
        Err(e) => {
            assert!(matches!(e, CliError::MissingProjectDir));
            assert_eq!(e.message(), "--project-dir is required");
        }
        _ => panic!("expected a refusal"),
    }
    assert!(matches!(parse_args(&args(&["--project-dir", "p", "--app"])), Ok(CliRequest::Run(_))));
}

fn mqtt(client_id: &str, prefix: &str, interval: u32, qos: u8) -> MqttNorthbound {
    MqttNorthbound {
        enabled: true,
        broker_host: s("broker"),
        broker_port: 1883,
        client_id: s(client_id),
        username: s(""),
        password: s(""),
        topic_prefix: s(prefix),
        publish_interval_ms: interval,
        qos,
        allow_write: true,
    }
}

#[test]
fn northbound_defaults_and_topics() {
    let p = northbound_plan(&mqtt("", "", 20, 0), "tank");
    assert_eq!(p.client_id, "ia2-tank");
    assert_eq!(p.prefix, "ia2/tank");
    assert_eq!(p.publish_interval_ms, 100);
    assert!(!p.at_least_once);
    let p = northbound_plan(&mqtt("edge-7", "site/a//", 1000, 1), "tank");
    assert_eq!(p.client_id, "edge-7");
    assert_eq!(p.prefix, "site/a");
    assert_eq!(p.publish_interval_ms, 1000);
    assert!(p.at_least_once);
    assert_eq!(topic("site/a", "status"), "site/a/status");
    assert!(is_write_request(true, &s("site/a/write"), "site/a"));
    assert!(!is_write_request(false, &s("site/a/write"), "site/a"));
    assert!(!is_write_request(true, &s("site/a/snapshot"), "site/a"));
}

#[test]
fn host_inventory_sorts_and_filters() {
    let eth = nic_from_files(s("eth1"), " 00:11:22:33:44:55\n", "up\n", "1\n");
    assert_eq!(eth.mac, "00:11:22:33:44:55");
    assert_eq!(eth.operstate, "up");
    assert!(eth.carrier);
    let lo = nic_from_files(s("lo"), "00:00:00:00:00:00", "unknown", "0");
    assert!(!lo.carrier);
    let en = nic_from_files(s("enp3s0"), "", "down", "");
    assert!(!en.carrier);
    let entries = vec![s("ttyUSB1"), s("ttyS0"), s("ttyACM0"), s("cu.usbserial"), s("ttyUSB0"), s("null")];
    let info = system_info(s("x86_64"), s("linux"), vec![lo, eth, en], &entries);
    let names: Vec<&str> = info.nics.iter().map(|n: &Nic| n.name.as_str()).collect();
    assert_eq!(names, vec!["enp3s0", "eth1", "lo"]);
    assert_eq!(
        info.serial_ports,
        vec![s("/dev/cu.usbserial"), s("/dev/ttyACM0"), s("/dev/ttyUSB0"), s("/dev/ttyUSB1")]
    );
    let dup = system_info(s("a"), s("b"), vec![], &vec![s("ttyUSB0"), s("ttyUSB0")]);
    assert_eq!(dup.serial_ports, vec![s("/dev/ttyUSB0")]);
}

#[test]
fn captured_output_becomes_trimmed_non_blank_lines() {
    assert_eq!(
        captured_lines("first  \n\n  second\t\nthird"),
        vec![s("first"), s("  second"), s("third")]
    );
    assert!(captured_lines("\n   \n").is_empty());
}

#[test]
fn the_log_ring_keeps_the_latest_lines() {
    let mut r = LogRing::new(3);
    for l in ["a", "b", "c", "d", "e"] {
        r.push_line(s(l));
    }
    assert_eq!(r.tail(10), vec![s("c"), s("d"), s("e")]);
    assert_eq!(r.tail(2), vec![s("d"), s("e")]);
    assert!(r.tail(0).is_empty());
    assert!(LOG_CAPACITY >= DEFAULT_TAIL);
}

#[test]
fn standard_ua_scalar_types() {
    assert_eq!(ua_type_name(0, Some(1)), (Some(s("Boolean")), Some(OpcuaDataType::Bool)));
    assert_eq!(ua_type_name(0, Some(8)), (Some(s("Int64")), Some(OpcuaDataType::I32)));
    assert_eq!(ua_type_name(0, Some(11)), (Some(s("Double")), Some(OpcuaDataType::F64)));
    assert_eq!(ua_type_name(0, Some(12)), (Some(s("String")), None));
    assert_eq!(ua_type_name(0, Some(13)), (None, None));
    assert_eq!(ua_type_name(2, Some(1)), (None, None));
    assert_eq!(ua_type_name(0, None), (None, None));
}

fn node(class: &str, name: &str) -> BrowsedNode {
    BrowsedNode {
        node_id: format!("ns=2;s={name}"),
        display_name: s(name),
        node_class: s(class),
        data_type: None,
        suggested_channel_type: None,
    }
}

#[test]
fn browsed_nodes_show_folders_then_variables_by_name() {
    let sorted = sort_browsed(vec![
        node("Variable", "b"),
        node("Method", "a"),
        node("Object", "z"),
        node("Variable", "a"),
        node("Object", "c"),
    ]);
    let order: Vec<(String, String)> =
        sorted.iter().map(|n| (n.node_class.clone(), n.display_name.clone())).collect();
    assert_eq!(
        order,
        vec![
            (s("Object"), s("c")),
            (s("Object"), s("z")),
            (s("Variable"), s("a")),
            (s("Variable"), s("b")),
            (s("Method"), s("a")),
        ]
    );
}

fn channel(name: &str, access: OpcuaAccess, failsafe: Option<f64>) -> OpcuaChannel {
    OpcuaChannel {
        name: s(name),
        node_id: format!("ns=2;s={name}"),
        data_type: OpcuaDataType::F64,
        access,
        failsafe_bits: failsafe.map(|f| f.to_bits()),
    }
}

#[test]
fn failsafe_writes_only_writable_tags_with_a_value() {
    let chans = vec![
        channel("pv", OpcuaAccess::Read, Some(1.0)),
        channel("sp", OpcuaAccess::Write, Some(0.0)),
        channel("cmd", OpcuaAccess::Write, None),
        channel("valve", OpcuaAccess::Write, Some(5.5)),
    ];
    assert_eq!(failsafe_targets(&chans), vec![1, 3]);
    assert!(accepts_writes(&chans[1]));
    assert!(!accepts_writes(&chans[0]));
    assert_eq!(poll_period_ms(10), 50);
    assert_eq!(poll_period_ms(500), 500);
}

fn snap(vars: &[(&str, &str)]) -> Option<VarSnapshot> {
    Some(VarSnapshot {
        timestamp_us: 0,
        scan_count: 1,
        vars: vars
            .iter()
            .map(|(n, t)| VarValue { name: s(n), iec_type: s(t), value: s("0"), bits: 0 })
            .collect(),
    })
}

#[test]
fn northbound_write_encodes_by_the_variable_type() {
    let latest = snap(&[("sp_flow", "REAL"), ("count", "DINT"), ("run", "BOOL"), ("x", "real")]);
    let twelve_and_a_half = 12.5f32.to_bits();
    assert_eq!(
        northbound_write_slot(&latest, "sp_flow", &RequestValue::Number { int: None, f32_bits: twelve_and_a_half }),
        Ok(twelve_and_a_half as i32)
    );
    assert_eq!(
        northbound_write_slot(&latest, "x", &RequestValue::Number { int: Some(1), f32_bits: 1.0f32.to_bits() }),
        Ok(1.0f32.to_bits() as i32)
    );
    assert_eq!(
        northbound_write_slot(&latest, "count", &RequestValue::Number { int: Some(-7), f32_bits: 0 }),
        Ok(-7)
    );
    assert_eq!(
        northbound_write_slot(&latest, "count", &RequestValue::Number { int: Some(4_294_967_297), f32_bits: 0 }),
        Ok(1)
    );
    assert_eq!(northbound_write_slot(&latest, "run", &RequestValue::Bool(true)), Ok(1));
    assert_eq!(northbound_write_slot(&latest, "run", &RequestValue::Bool(false)), Ok(0));
}

#[test]
fn northbound_write_rejections() {
    let latest = snap(&[("sp_flow", "REAL"), ("count", "INT")]);
    assert_eq!(
        northbound_write_slot(&latest, "missing", &RequestValue::Bool(true)),
        Err(WriteRejection::UnknownVariable)
    );
    assert_eq!(
        northbound_write_slot(&None, "count", &RequestValue::Bool(true)),
        Err(WriteRejection::UnknownVariable)
    );
    assert_eq!(
        northbound_write_slot(&latest, "sp_flow", &RequestValue::Bool(true)),
        Err(WriteRejection::RealNeedsNumber)
    );
    assert_eq!(
        northbound_write_slot(&latest, "count", &RequestValue::Number { int: None, f32_bits: 0 }),
        Err(WriteRejection::ExpectedIntOrBool)
    );
    assert_eq!(
        northbound_write_slot(&latest, "count", &RequestValue::Other),
        Err(WriteRejection::ExpectedIntOrBool)
    );
}
