use ia2_project::store::{
    child_path, file_stem_with_ext, is_hidden_entry, seed_tasks,
    default_config_for, default_ethercat_nic, detect_kind, edge_on_disk, extract_inline_configuration,
    leaf_segment, parse_configuration_block, parse_interval_ms, parse_priority, parse_time_to_ms,
    split_paren_chars, strip_inline_configuration, template_for, validate_path, Application,
    ApplicationKind, MigrationReport, ProjectStore, StoreError,
};
use ia2_project::types::{
    Device, Edge, ModbusConfig, ModbusTransport, ProjectManifest, Protocol, ProtocolConfig,
};

fn chars(s: &str) -> Vec<char> {
    s.chars().collect()
}

fn store() -> ProjectStore {
    ProjectStore::from_manifest(
        "/tmp/demo".to_string(),
        ProjectManifest { name: "demo".into(), version: "0.1".into() },
    )
}

fn invalid_name(r: Result<(), StoreError>) -> String {
    match r {
        Err(StoreError::InvalidName(n)) => n,
        other => panic!("expected InvalidName, got {other:?}"),
    }
}

#[test]
fn root_and_name_come_from_the_manifest() {
    let s = store();
    assert_eq!(s.root(), "/tmp/demo");
    assert_eq!(s.name(), "demo");
}

#[test]
fn validate_path_accepts_nested_paths() {
    assert!(validate_path("main").is_ok());
    assert!(validate_path("pid_loops/temperature_pid").is_ok());
    assert!(validate_path("a/b/c").is_ok());
}

#[test]
fn validate_path_rejects_bad_segments() {
    for bad in ["", "/abs", "trailing/", "a//b", ".hidden", "a/../b", "a/.git", "back\\slash", "c:drive"] {
        assert_eq!(invalid_name(validate_path(bad)), bad, "{bad:?} should be rejected");
    }
}

#[test]
fn leaf_segment_is_the_last_path_piece() {
    assert_eq!(leaf_segment("pid_loops/temperature_pid"), "temperature_pid");
    assert_eq!(leaf_segment("main"), "main");
    assert_eq!(leaf_segment("a/"), "");
}

#[test]
fn detect_kind_prefers_programs() {
    assert_eq!(detect_kind("PROGRAM main\nEND_PROGRAM\n"), ApplicationKind::Program);
    assert_eq!(detect_kind("FUNCTION_BLOCK fb\nEND_FUNCTION_BLOCK\n"), ApplicationKind::FunctionBlock);
    assert_eq!(
        detect_kind("FUNCTION_BLOCK fb\nEND_FUNCTION_BLOCK\n  PROGRAM p\nEND_PROGRAM"),
        ApplicationKind::Program
    );
    assert_eq!(detect_kind("(* nothing *)"), ApplicationKind::Program);
    assert_eq!(detect_kind("\t FUNCTION_BLOCK x"), ApplicationKind::FunctionBlock);
    assert_eq!(detect_kind("PROGRAMX\nFUNCTION_BLOCK y"), ApplicationKind::FunctionBlock);
}

#[test]
fn templates_are_exact() {
    assert_eq!(
        template_for("tank", ApplicationKind::Program),
        "PROGRAM tank\n    VAR\n    END_VAR\n\n    (* Add your program logic here. Bind this PROGRAM to a task\n       in the Tasks pane to actually run it. *)\n\nEND_PROGRAM\n"
    );
    assert_eq!(
        template_for("pid", ApplicationKind::FunctionBlock),
        "FUNCTION_BLOCK pid\n    VAR_INPUT\n    END_VAR\n    VAR_OUTPUT\n    END_VAR\n    VAR\n    END_VAR\n\n    (* Add your FB logic here *)\n\nEND_FUNCTION_BLOCK\n"
    );
}

#[test]
fn create_application_uses_the_leaf_name() {
    let app = store().create_application("loops/pid", ApplicationKind::FunctionBlock, false).unwrap();
    assert_eq!(app.name, "loops/pid");
    assert_eq!(app.kind, ApplicationKind::FunctionBlock);
    assert!(app.source.starts_with("FUNCTION_BLOCK pid\n"));
    assert!(matches!(
        store().create_application("loops/pid", ApplicationKind::Program, true),
        Err(StoreError::AlreadyExists(n)) if n == "loops/pid"
    ));
}

#[test]
fn folder_requests() {
    let s = store();
    assert!(s.create_application_folder("pid_loops", false).is_ok());
    assert!(matches!(s.create_device_folder("racks", true), Err(StoreError::FolderExists(n)) if n == "racks"));
    assert!(matches!(s.create_edge_folder("../x", false), Err(StoreError::InvalidName(_))));
    assert!(s.delete_application_folder("old", true, true).is_ok());
    assert!(matches!(s.delete_device_folder("old", false, true), Err(StoreError::FolderNotFound(n)) if n == "old"));
    assert!(matches!(s.delete_edge_folder("old", true, false), Err(StoreError::FolderNotEmpty(n)) if n == "old"));
}

#[test]
fn create_edge_defaults() {
    let e = store().create_edge("site/box1", "10.0.0.5", false).unwrap();
    assert_eq!(e.name, "site/box1");
    assert_eq!(e.host, "10.0.0.5");
    assert_eq!(e.ssh_port, 22);
    assert_eq!(e.ssh_user, "");
    assert_eq!(e.install_dir, "/opt/ia2");
    assert_eq!(e.runtime_port, 13001);
    assert_eq!(e.notes, "");
    assert!(matches!(store().create_edge("box", "h", true), Err(StoreError::AlreadyExists(_))));
    let on_disk: Edge = edge_on_disk(&e);
    assert_eq!(on_disk.name, "box1");
    assert_eq!(on_disk.host, "10.0.0.5");
}

#[test]
fn device_defaults_per_protocol() {
    match default_config_for(Protocol::Modbus, "linux") {
        ProtocolConfig::Modbus(m) => {
            match m.transport {
                ModbusTransport::Tcp(t) => {
                    assert_eq!(t.host, "127.0.0.1");
                    assert_eq!(t.port, 502);
                }
                other => panic!("{other:?}"),
            }
            assert_eq!(m.slave_id, 1);
            assert_eq!(m.poll_interval_ms, 100);
        }
        other => panic!("{other:?}"),
    }
    match default_config_for(Protocol::Ethercat, "macos") {
        ProtocolConfig::Ethercat(e) => {
            assert_eq!(e.nic, "en0");
            assert_eq!(e.cycle_us, 1000);
        }
        other => panic!("{other:?}"),
    }
    assert_eq!(default_ethercat_nic("windows"), "Ethernet");
    assert_eq!(default_ethercat_nic("linux"), "eth0");
    let d = store().create_device("plc", Protocol::Opcua, false, "linux").unwrap();
    assert_eq!(d.name, "plc");
    assert!(matches!(d.config, ProtocolConfig::Opcua(o) if o.poll_interval_ms == 500));
}

#[test]
fn list_folders_sorts() {
    let found = vec!["b".to_string(), "a/z".to_string(), "a".to_string(), "B".to_string()];
    assert_eq!(store().list_folders(found), vec!["B", "a", "a/z", "b"]);
}

#[test]
fn list_applications_classifies_and_sorts_by_name() {
    let files = vec![
        ("zeta".to_string(), "FUNCTION_BLOCK z\nEND_FUNCTION_BLOCK".to_string()),
        ("alpha".to_string(), "PROGRAM a\nEND_PROGRAM".to_string()),
    ];
    let apps = store().list_applications(files);
    assert_eq!(apps.len(), 2);
    assert_eq!(apps[0].name, "alpha");
    assert_eq!(apps[0].kind, ApplicationKind::Program);
    assert_eq!(apps[1].name, "zeta");
    assert_eq!(apps[1].kind, ApplicationKind::FunctionBlock);
}

#[test]
fn time_literals() {
    assert_eq!(parse_time_to_ms(&chars("100ms")), Some(100));
    assert_eq!(parse_time_to_ms(&chars("1s")), Some(1000));
    assert_eq!(parse_time_to_ms(&chars("1m30s")), Some(90_000));
    assert_eq!(parse_time_to_ms(&chars("2h")), Some(7_200_000));
    assert_eq!(parse_time_to_ms(&chars("1_500ms")), Some(1500));
    assert_eq!(parse_time_to_ms(&chars("5x")), None);
    assert_eq!(parse_time_to_ms(&chars("ms")), None);
    assert_eq!(parse_time_to_ms(&chars("")), None);
    assert_eq!(parse_time_to_ms(&chars("99999999999ms")), None);
    assert_eq!(parse_time_to_ms(&chars("5000000h")), Some(u32::MAX));
}

#[test]
fn interval_and_priority_arguments() {
    assert_eq!(parse_interval_ms(&chars("interval := t#250ms, priority := 3")), Some(250));
    assert_eq!(parse_interval_ms(&chars("INTERVAL := LTIME#2s")), Some(2000));
    assert_eq!(parse_interval_ms(&chars("priority := 3")), None);
    assert_eq!(parse_priority(&chars("interval := t#250ms, priority := 3")), Some(3));
    assert_eq!(parse_priority(&chars("PRIORITY := -2)")), Some(-2));
    assert_eq!(parse_priority(&chars("priority := x")), None);
}

#[test]
fn split_paren_takes_first_open_and_last_close() {
    let (a, b) = split_paren_chars(&chars("main(x := (1), y)")).unwrap();
    assert_eq!(a.iter().collect::<String>(), "main");
    assert_eq!(b.iter().collect::<String>(), "x := (1), y");
    assert!(split_paren_chars(&chars(")x(")).is_none());
    assert!(split_paren_chars(&chars("no parens")).is_none());
}

const LEGACY: &str = "PROGRAM main\n    VAR\n    END_VAR\nEND_PROGRAM\n\nCONFIGURATION config\n    RESOURCE plc_res ON PLC\n        TASK Fast(INTERVAL := T#20ms, PRIORITY := 2);\n        PROGRAM Main_Inst WITH Fast : Main;\n    END_RESOURCE\nEND_CONFIGURATION\nrest\n";

#[test]
fn configuration_blocks_are_read_in_lower_case() {
    let cfgs = extract_inline_configuration(LEGACY);
    assert_eq!(cfgs.len(), 1);
    assert_eq!(cfgs[0].tasks.len(), 1);
    assert_eq!(cfgs[0].tasks[0].name, "fast");
    assert_eq!(cfgs[0].tasks[0].interval_ms, 20);
    assert_eq!(cfgs[0].tasks[0].priority, 2);
    assert_eq!(cfgs[0].programs.len(), 1);
    assert_eq!(cfgs[0].programs[0].instance, "main_inst");
    assert_eq!(cfgs[0].programs[0].task, "fast");
    assert_eq!(cfgs[0].programs[0].program, "main");
}

#[test]
fn task_line_defaults() {
    let cfg = parse_configuration_block(&chars("TASK t()\nTASK u(INTERVAL := T#0ms)\nPROGRAM p WITH t : q ;"));
    assert_eq!(cfg.tasks.len(), 2);
    assert_eq!((cfg.tasks[0].interval_ms, cfg.tasks[0].priority), (100, 1));
    assert_eq!(cfg.tasks[1].interval_ms, 100);
    assert_eq!(cfg.programs[0].program, "q");
}

#[test]
fn stripping_removes_blocks_and_their_newline() {
    assert_eq!(
        strip_inline_configuration(LEGACY),
        "PROGRAM main\n    VAR\n    END_VAR\nEND_PROGRAM\n\nrest\n"
    );
    assert_eq!(strip_inline_configuration("no blocks"), "no blocks");
    assert_eq!(strip_inline_configuration("a configuration x"), "a configuration x");
    assert!(extract_inline_configuration("a configuration x").is_empty());
}

#[test]
fn migrate_skips_when_tasks_exist() {
    let plan = store().migrate_tasks(true, &vec![]);
    assert!(matches!(plan.report, MigrationReport::Skipped));
    assert!(plan.rewrites.is_empty());
    assert!(plan.tasks.is_none());
}

#[test]
fn migrate_lifts_and_dedups() {
    let apps = vec![
        Application { name: "a".into(), kind: ApplicationKind::Program, source: LEGACY.into() },
        Application { name: "b".into(), kind: ApplicationKind::Program, source: LEGACY.into() },
        Application { name: "c".into(), kind: ApplicationKind::FunctionBlock, source: "FUNCTION_BLOCK c\nEND_FUNCTION_BLOCK\n".into() },
    ];
    let plan = store().migrate_tasks(false, &apps);
    match &plan.report {
        MigrationReport::Migrated { tasks_count, programs_count, pous_modified } => {
            assert_eq!(*tasks_count, 1);
            assert_eq!(*programs_count, 1);
            assert_eq!(pous_modified, &vec!["a".to_string(), "b".to_string()]);
        }
        other => panic!("{other:?}"),
    }
    assert_eq!(plan.rewrites.len(), 2);
    assert_eq!(plan.rewrites[0].1, "PROGRAM main\n    VAR\n    END_VAR\nEND_PROGRAM\n\nrest\n");
    let tasks = plan.tasks.unwrap();
    assert_eq!(tasks.tasks[0].name, "fast");
}

#[test]
fn migrate_seeds_default_task() {
    let apps = vec![Application { name: "c".into(), kind: ApplicationKind::FunctionBlock, source: "FUNCTION_BLOCK c\nEND_FUNCTION_BLOCK\n".into() }];
    let plan = store().migrate_tasks(false, &apps);
    let tasks = plan.tasks.unwrap();
    assert_eq!(tasks.tasks.len(), 1);
    assert_eq!(tasks.tasks[0].name, "plc_task");
    assert_eq!(tasks.tasks[0].interval_ms, 100);
    assert_eq!(tasks.tasks[0].priority, 1);
    assert!(tasks.programs.is_empty());
    assert!(matches!(plan.report, MigrationReport::Migrated { tasks_count: 1, programs_count: 0, .. }));
}

#[test]
fn a_new_project_validates_its_name_and_refuses_an_existing_one() {
    let p = ProjectStore::create("/tmp/new".to_string(), "plant", false).unwrap();
    assert_eq!(p.name(), "plant");
    assert_eq!(p.root(), "/tmp/new");
    assert!(matches!(
        ProjectStore::create("/tmp/new".to_string(), "plant", true),
        Err(StoreError::AlreadyExists(r)) if r == "/tmp/new"
    ));
    assert!(matches!(
        ProjectStore::create("/tmp/new".to_string(), "../x", false),
        Err(StoreError::InvalidName(n)) if n == "../x"
    ));
}

#[test]
fn a_new_project_starts_with_one_task() {
    let t = seed_tasks();
    assert_eq!(t.tasks.len(), 1);
    assert_eq!(t.tasks[0].name, "plc_task");
    assert_eq!((t.tasks[0].interval_ms, t.tasks[0].priority), (100, 1));
    assert_eq!(t.programs.len(), 1);
    assert_eq!(t.programs[0].instance, "main_inst");
    assert_eq!(t.programs[0].program, "main");
    assert_eq!(t.programs[0].task, "plc_task");
}

#[test]
fn walking_names_entries() {
    assert!(is_hidden_entry(".git"));
    assert!(!is_hidden_entry("main.st"));
    assert_eq!(child_path("", "loops"), "loops");
    assert_eq!(child_path("loops", "pid"), "loops/pid");
    assert_eq!(file_stem_with_ext("main.st", "st"), Some("main".to_string()));
    assert_eq!(file_stem_with_ext("a.b.st", "st"), Some("a.b".to_string()));
    assert_eq!(file_stem_with_ext("main.toml", "st"), None);
    assert_eq!(file_stem_with_ext("main", "st"), None);
    assert_eq!(file_stem_with_ext(".st", "st"), None);
    assert_eq!(file_stem_with_ext("main.", ""), Some("main".to_string()));
}

fn modbus(host: &str) -> ProtocolConfig {
    ProtocolConfig::Modbus(ModbusConfig::from_legacy_tcp(host.into(), 502, 1, 100, None, None, vec![]))
}

#[test]
fn devices_are_named_by_their_path_and_sorted() {
    let found = vec![
        ("line2/vfd".to_string(), Device { name: "vfd".into(), config: modbus("10.0.0.2") }),
        ("io".to_string(), Device { name: "whatever".into(), config: modbus("10.0.0.1") }),
    ];
    let listed = store().list_devices(found);
    let names: Vec<&str> = listed.iter().map(|d| d.name.as_str()).collect();
    assert_eq!(names, vec!["io", "line2/vfd"]);
    match &listed[0].config {
        ProtocolConfig::Modbus(c) => match &c.transport {
            ModbusTransport::Tcp(p) => assert_eq!((p.host.as_str(), p.port), ("10.0.0.1", 502)),
            _ => panic!("expected tcp"),
        },
        _ => panic!("expected modbus"),
    }
}

fn edge(name: &str, host: &str) -> Edge {
    Edge {
        name: name.into(),
        host: host.into(),
        ssh_port: 22,
        ssh_user: "ia2".into(),
        install_dir: "/opt/ia2".into(),
        runtime_port: 13001,
        notes: String::new(),
    }
}

#[test]
fn edges_are_named_by_their_path_and_sorted() {
    let found = vec![
        ("site-b/box".to_string(), edge("box", "10.1.0.9")),
        ("site-a".to_string(), edge("a", "10.1.0.1")),
    ];
    let listed = store().list_edges(found);
    let names: Vec<(&str, &str)> = listed.iter().map(|e| (e.name.as_str(), e.host.as_str())).collect();
    assert_eq!(names, vec![("site-a", "10.1.0.1"), ("site-b/box", "10.1.0.9")]);
}

#[test]
fn legacy_modbus_configs_become_tcp() {
    match modbus("plc.local") {
        ProtocolConfig::Modbus(c) => {
            assert!(matches!(&c.transport, ModbusTransport::Tcp(p) if p.host == "plc.local" && p.port == 502));
            assert_eq!(c.slave_id, 1);
        }
        _ => panic!("expected modbus"),
    }
}
