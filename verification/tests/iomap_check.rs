use ia2_project::iomap_check::{error, validate_iomap, warning, IomapIssue, IomapIssueSeverity};
use ia2_project::types::{
    Device, Direction, EthercatBringup, EthercatChannel, EthercatConfig, EthercatDataType,
    EthercatDcSync, EthercatPdoDirection, IoMap, Mapping, ModbusChannel, ModbusChannelKind,
    ModbusConfig, ModbusDataType, ModbusTcpParams, ModbusTransport, ModbusWordOrder, OpcuaAccess,
    OpcuaAuth, OpcuaChannel, OpcuaConfig, OpcuaDataType, ProtocolConfig,
};

// ---- fixtures -------------------------------------------------------

fn modbus_device(name: &str) -> Device {
    let ch = |n: &str, kind: ModbusChannelKind, address: u16| ModbusChannel {
        name: n.into(),
        kind,
        address,
        data_type: ModbusDataType::U16,
        word_order: ModbusWordOrder::HiLo,
    };
    Device {
        name: name.into(),
        config: ProtocolConfig::Modbus(ModbusConfig {
            transport: ModbusTransport::Tcp(ModbusTcpParams { host: "127.0.0.1".into(), port: 502 }),
            slave_id: 1,
            poll_interval_ms: 100,
            timeout_ms: None,
            reconnect_backoff_ms: None,
            channels: vec![
                ch("coil_pump", ModbusChannelKind::Coil, 0),
                ch("di_estop", ModbusChannelKind::DiscreteInput, 0),
                ch("hr_setpoint", ModbusChannelKind::HoldingRegister, 10),
                ch("ir_temp", ModbusChannelKind::InputRegister, 0),
            ],
        }),
    }
}

fn ethercat_device(name: &str) -> Device {
    let ch = |n: &str, direction: EthercatPdoDirection| EthercatChannel {
        name: n.into(),
        slave_index: 0,
        direction,
        pdo_index: 0x6000,
        sub_index: 1,
        bit_length: 1,
        data_type: EthercatDataType::Bool,
        pdi_byte_offset: 0,
        pdi_bit_offset: 0,
    };
    Device {
        name: name.into(),
        config: ProtocolConfig::Ethercat(EthercatConfig {
            nic: "_sim".into(),
            bringup: EthercatBringup::Auto,
            cycle_us: 1_000,
            dc_sync: EthercatDcSync::Off,
            dc_static_sync_iterations: 0,
            slaves: vec![],
            channels: vec![
                ch("tx_status", EthercatPdoDirection::TxPdo),
                ch("rx_command", EthercatPdoDirection::RxPdo),
            ],
            gear: vec![],
        }),
    }
}

fn opcua_device(name: &str) -> Device {
    let ch = |n: &str, access: OpcuaAccess| OpcuaChannel {
        name: n.into(),
        node_id: format!("ns=2;s={n}"),
        data_type: OpcuaDataType::F32,
        access,
        failsafe_bits: None,
    };
    Device {
        name: name.into(),
        config: ProtocolConfig::Opcua(OpcuaConfig {
            endpoint_url: "opc.tcp://127.0.0.1:4840".into(),
            auth: OpcuaAuth::Anonymous,
            poll_interval_ms: 500,
            channels: vec![ch("pv_flow", OpcuaAccess::Read), ch("sp_flow", OpcuaAccess::Write)],
        }),
    }
}

fn mapping(variable: &str, direction: Direction, device: &str, channel: &str) -> Mapping {
    Mapping {
        application: "main".into(),
        variable: variable.into(),
        direction,
        device: device.into(),
        channel: channel.into(),
    }
}

fn iomap(mappings: Vec<Mapping>) -> IoMap {
    IoMap { mappings }
}

fn errors(issues: &[IomapIssue]) -> Vec<&IomapIssue> {
    issues.iter().filter(|i| i.severity == IomapIssueSeverity::Error).collect()
}

fn warnings(issues: &[IomapIssue]) -> Vec<&IomapIssue> {
    issues.iter().filter(|i| i.severity == IomapIssueSeverity::Warning).collect()
}

// ---- rule 0: clean map ---------------------------------------------

#[test]
fn clean_map_produces_no_issues() {
    let devices = vec![
        modbus_device("plc"),
        ethercat_device("ec"),
        opcua_device("dcs"),
    ];
    let map = iomap(vec![
        mapping("estop", Direction::Input, "plc", "di_estop"),
        mapping("pump", Direction::Output, "plc", "coil_pump"),
        mapping("status", Direction::Input, "ec", "tx_status"),
        mapping("command", Direction::Output, "ec", "rx_command"),
        mapping("flow_pv", Direction::Input, "dcs", "pv_flow"),
        mapping("flow_sp", Direction::Output, "dcs", "sp_flow"),
    ]);
    assert!(validate_iomap(&map, &devices).is_empty());
}

// ---- rule 1: unknown device ----------------------------------------

#[test]
fn unknown_device_is_an_error() {
    let devices = vec![modbus_device("plc")];
    let map = iomap(vec![mapping("x", Direction::Input, "ghost", "whatever")]);
    let issues = validate_iomap(&map, &devices);
    assert_eq!(issues.len(), 1);
    assert_eq!(issues[0].severity, IomapIssueSeverity::Error);
    assert_eq!(issues[0].mapping_index, 0);
    assert!(
        issues[0].message.contains("unknown device 'ghost'"),
        "{}",
        issues[0].message
    );
}

// ---- rule 2: unknown channel (every protocol) ------------------------

#[test]
fn unknown_channel_is_an_error_for_each_protocol() {
    let devices = vec![
        modbus_device("plc"),
        ethercat_device("ec"),
        opcua_device("dcs"),
    ];
    let map = iomap(vec![
        mapping("a", Direction::Input, "plc", "no_such"),
        mapping("b", Direction::Input, "ec", "no_such"),
        mapping("c", Direction::Input, "dcs", "no_such"),
    ]);
    let issues = validate_iomap(&map, &devices);
    assert_eq!(issues.len(), 3);
    for (i, issue) in issues.iter().enumerate() {
        assert_eq!(issue.severity, IomapIssueSeverity::Error);
        assert_eq!(issue.mapping_index, i);
        assert!(
            issue.message.contains("has no channel 'no_such'"),
            "{}",
            issue.message
        );
    }
}

// ---- rule 3: direction compatibility ---------------------------------

#[test]
fn modbus_output_to_read_only_kinds_is_an_error() {
    let devices = vec![modbus_device("plc")];
    let map = iomap(vec![
        mapping("a", Direction::Output, "plc", "di_estop"), // DiscreteInput
        mapping("b", Direction::Output, "plc", "ir_temp"),  // InputRegister
    ]);
    let issues = validate_iomap(&map, &devices);
    assert_eq!(issues.len(), 2);
    assert!(
        issues[0].message.contains("DiscreteInput"),
        "{}",
        issues[0].message
    );
    assert!(
        issues[1].message.contains("InputRegister"),
        "{}",
        issues[1].message
    );
}

#[test]
fn modbus_input_is_fine_on_every_kind() {
    let devices = vec![modbus_device("plc")];
    let map = iomap(vec![
        mapping("a", Direction::Input, "plc", "coil_pump"),
        mapping("b", Direction::Input, "plc", "di_estop"),
        mapping("c", Direction::Input, "plc", "hr_setpoint"),
        mapping("d", Direction::Input, "plc", "ir_temp"),
    ]);
    assert!(validate_iomap(&map, &devices).is_empty());
}

#[test]
fn ethercat_direction_mismatches_are_errors() {
    let devices = vec![ethercat_device("ec")];
    let map = iomap(vec![
        mapping("a", Direction::Input, "ec", "rx_command"), // Input from RxPDO
        mapping("b", Direction::Output, "ec", "tx_status"), // Output to TxPDO
    ]);
    let issues = validate_iomap(&map, &devices);
    assert_eq!(issues.len(), 2);
    assert!(issues[0].message.contains("RxPDO"), "{}", issues[0].message);
    assert!(
        issues[0].message.contains("need a TxPDO"),
        "{}",
        issues[0].message
    );
    assert!(issues[1].message.contains("TxPDO"), "{}", issues[1].message);
    assert!(
        issues[1].message.contains("need an RxPDO"),
        "{}",
        issues[1].message
    );
}

#[test]
fn opcua_output_to_read_tag_is_an_error_but_input_on_write_tag_is_fine() {
    let devices = vec![opcua_device("dcs")];
    let map = iomap(vec![
        mapping("a", Direction::Output, "dcs", "pv_flow"), // write to read tag: error
        mapping("b", Direction::Input, "dcs", "sp_flow"),  // read a write tag: mirrored, OK
    ]);
    let issues = validate_iomap(&map, &devices);
    assert_eq!(issues.len(), 1);
    assert_eq!(issues[0].mapping_index, 0);
    assert!(
        issues[0].message.contains("access=read"),
        "{}",
        issues[0].message
    );
}

// ---- rule 4: duplicate writers ---------------------------------------

#[test]
fn two_variables_writing_one_channel_is_an_error_on_each_row() {
    let devices = vec![modbus_device("plc")];
    let map = iomap(vec![
        mapping("pump_a", Direction::Output, "plc", "coil_pump"),
        mapping("pump_b", Direction::Output, "plc", "coil_pump"),
    ]);
    let issues = validate_iomap(&map, &devices);
    let errs = errors(&issues);
    assert_eq!(errs.len(), 2, "{issues:?}");
    assert_eq!(errs[0].mapping_index, 0);
    assert_eq!(errs[1].mapping_index, 1);
    for e in errs {
        assert!(e.message.contains("conflicting writers"), "{}", e.message);
        assert!(e.message.contains("main.pump_a"), "{}", e.message);
        assert!(e.message.contains("main.pump_b"), "{}", e.message);
    }
}

#[test]
fn same_variable_twice_on_one_channel_is_not_a_writer_conflict() {
    // Redundant rows, but only one writer — no fight to flag. (It is
    // also not fan-out: a single distinct target channel.)
    let devices = vec![modbus_device("plc")];
    let map = iomap(vec![
        mapping("pump", Direction::Output, "plc", "coil_pump"),
        mapping("pump", Direction::Output, "plc", "coil_pump"),
    ]);
    assert!(validate_iomap(&map, &devices).is_empty());
}

#[test]
fn two_variables_reading_one_channel_is_fine() {
    let devices = vec![modbus_device("plc")];
    let map = iomap(vec![
        mapping("t1", Direction::Input, "plc", "ir_temp"),
        mapping("t2", Direction::Input, "plc", "ir_temp"),
    ]);
    assert!(validate_iomap(&map, &devices).is_empty());
}

// ---- rule 5: output fan-out ------------------------------------------

#[test]
fn one_variable_outputting_to_two_channels_is_a_warning_on_each_row() {
    let devices = vec![modbus_device("plc")];
    let map = iomap(vec![
        mapping("cmd", Direction::Output, "plc", "coil_pump"),
        mapping("cmd", Direction::Output, "plc", "hr_setpoint"),
    ]);
    let issues = validate_iomap(&map, &devices);
    let warns = warnings(&issues);
    assert_eq!(warns.len(), 2, "{issues:?}");
    assert!(
        errors(&issues).is_empty(),
        "fan-out alone is not an error: {issues:?}"
    );
    for w in warns {
        assert!(w.message.contains("main.cmd"), "{}", w.message);
        assert!(w.message.contains("plc/coil_pump"), "{}", w.message);
        assert!(w.message.contains("plc/hr_setpoint"), "{}", w.message);
    }
}

#[test]
fn same_variable_name_in_different_applications_is_not_fanout() {
    let devices = vec![modbus_device("plc")];
    let mut m1 = mapping("cmd", Direction::Output, "plc", "coil_pump");
    m1.application = "line_a".into();
    let mut m2 = mapping("cmd", Direction::Output, "plc", "hr_setpoint");
    m2.application = "line_b".into();
    let map = iomap(vec![m1, m2]);
    assert!(validate_iomap(&map, &devices).is_empty());
}

#[test]
fn input_fanout_is_not_flagged() {
    // The same variable reading two channels would be odd, but rule 5
    // is explicitly about outputs (reads can't fight).
    let devices = vec![modbus_device("plc")];
    let map = iomap(vec![
        mapping("v", Direction::Input, "plc", "ir_temp"),
        mapping("v", Direction::Input, "plc", "di_estop"),
    ]);
    assert!(validate_iomap(&map, &devices).is_empty());
}

// ---- aggregation ------------------------------------------------------

#[test]
fn issues_come_back_sorted_by_mapping_index() {
    let devices = vec![modbus_device("plc")];
    let map = iomap(vec![
        mapping("ok", Direction::Input, "plc", "ir_temp"),
        mapping("w1", Direction::Output, "plc", "coil_pump"),
        mapping("bad", Direction::Input, "ghost", "x"),
        mapping("w2", Direction::Output, "plc", "coil_pump"),
    ]);
    let issues = validate_iomap(&map, &devices);
    let indices: Vec<usize> = issues.iter().map(|i| i.mapping_index).collect();
    let mut sorted = indices.clone();
    sorted.sort_unstable();
    assert_eq!(indices, sorted, "{issues:?}");
    // 1 unknown-device error + 2 conflicting-writer errors.
    assert_eq!(errors(&issues).len(), 3, "{issues:?}");
}

#[test]
fn empty_iomap_and_no_devices_is_clean() {
    assert!(validate_iomap(&IoMap::default(), &[]).is_empty());
}

// ---- further cases -----------------------------------------------------

#[test]
fn exact_messages_for_per_row_rules() {
    let devices = vec![modbus_device("plc"), ethercat_device("ec"), opcua_device("dcs")];
    let map = iomap(vec![
        mapping("x", Direction::Input, "ghost", "whatever"),
        mapping("y", Direction::Input, "plc", "nope"),
        mapping("z", Direction::Output, "plc", "ir_temp"),
        mapping("w", Direction::Output, "dcs", "pv_flow"),
    ]);
    let issues = validate_iomap(&map, &devices);
    let msgs: Vec<&str> = issues.iter().map(|i| i.message.as_str()).collect();
    assert_eq!(
        msgs,
        vec![
            "mapping 'main.x': unknown device 'ghost'",
            "mapping 'main.y': device 'plc' has no channel 'nope'",
            "mapping 'main.z': channel 'ir_temp' on Modbus device 'plc' is a read-only InputRegister; Output mappings need a Coil or HoldingRegister",
            "mapping 'main.w': channel 'pv_flow' on OPC UA device 'dcs' has access=read; Output mappings need access=write",
        ]
    );
}

#[test]
fn constructors_fill_every_field() {
    let e = error(3, "boom".into());
    assert_eq!(e.severity, IomapIssueSeverity::Error);
    assert_eq!(e.mapping_index, 3);
    assert_eq!(e.message, "boom");
    let w = warning(7, "hm".into());
    assert_eq!(w.severity, IomapIssueSeverity::Warning);
    assert_eq!(w.mapping_index, 7);
    assert_eq!(w.message, "hm");
}
