use std::collections::HashMap;

use ia2_project::bridge::{
    combine_project_sources, context_file_kept, diagnostic_dto, isolated_source, plan_units, tag_with_instance,
    LabelFile, RawDiagnostic, RawLabel, SourcePos,
    bridge_error_text, fbd_check_source, ld_check_source, ld_section_str, lookup_locations,
    sanitise_ident, strip_any_configuration, synthesize_configuration, synthetic_parse_diag,
    synthetic_transpile_diag,
};
use ia2_project::errors::BridgeError;
use ia2_project::fbd::{FbdBlock, FbdProgram};
use ia2_project::fbd_transpile::{FbdLocation, FbdSourceMap};
use ia2_project::ld::{LdPouType, LdProgram, LdVarSection};
use ia2_project::problem_docs::{
    lookup_problem_doc, lookup_problem_explanation, problem_docs_from, strip_rst_title_block, ProblemDocs,
};
use ia2_project::retain::{build, schema_handling, widen_legacy_value, SchemaHandling, SCHEMA};
use ia2_project::runtime::{
    format_iec_string_literal, max_scan_count, read_string_value, resolve_var, RuntimeMode,
    RuntimeWriteError,
};
use ia2_project::types::{ProgramInstance, Task, Tasks};

/// A documentation directory with one page and a non-page file, and the
/// problem-codes CSV naming it.
fn sample_docs() -> ProblemDocs {
    let csv = "Code,Name,Message\nP4007,UndeclaredVariable,Variable is not declared\nP0001,Short\n";
    let files = vec![
        (
            "P4007.rst".to_string(),
            "=====\nP4007\n=====\n\nThe variable is used but not declared.\n".to_string(),
        ),
        ("index.rst".to_string(), "Problems\n".to_string()),
    ];
    problem_docs_from(csv, &files)
}

#[test]
fn unknown_code_returns_none() {
    let docs = sample_docs();
    // Pick something well outside ironplc's allocated range (P0–P9999).
    assert!(lookup_problem_doc(&docs, "XX-INVALID").is_none());
    assert!(lookup_problem_doc(&docs, "").is_none());
    assert!(lookup_problem_doc(&docs, "P10000").is_none());
}

#[test]
fn explanation_of_unknown_code_is_none() {
    assert!(lookup_problem_explanation(&sample_docs(), "XX-INVALID").is_none());
}

#[test]
fn pages_come_from_rst_files_titled_by_the_csv() {
    let docs = sample_docs();
    assert_eq!(docs.pages.len(), 1);
    let (rst, title) = lookup_problem_doc(&docs, "P4007").unwrap();
    assert!(rst.starts_with("====="));
    assert_eq!(title, "Variable is not declared");
    assert_eq!(
        lookup_problem_explanation(&docs, "P4007"),
        Some("The variable is used but not declared.".to_string())
    );
    // A page the CSV does not name gets an empty title; the last page of a code wins.
    let docs = problem_docs_from(
        "Code,Name,Message\n",
        &vec![("P1.rst".to_string(), "a".to_string()), ("P1.rst.rst".to_string(), "b".to_string())],
    );
    assert_eq!(lookup_problem_doc(&docs, "P1"), Some(("b", "")));
}

#[test]
fn rst_title_block_is_stripped() {
    let rst = "=====\nP4007\n=====\n\n  \nThe variable is not declared.\nSecond line.\n";
    assert_eq!(strip_rst_title_block(rst), "The variable is not declared.\nSecond line.");
    let crlf = "===\r\nP1\r\n===\r\nbody\r\n";
    assert_eq!(strip_rst_title_block(crlf), "body");
}

#[test]
fn rst_without_title_is_unchanged() {
    assert_eq!(strip_rst_title_block("plain text\n=== not a title"), "plain text\n=== not a title");
    assert_eq!(strip_rst_title_block("==\nonly two"), "==\nonly two");
    assert_eq!(strip_rst_title_block(""), "");
}

#[test]
fn configuration_is_synthesised_from_tasks() {
    let tasks = Tasks {
        tasks: vec![
            Task { name: "fast".into(), interval_ms: 10, priority: 1 },
            Task { name: "sched/slow".into(), interval_ms: 0, priority: -3 },
        ],
        programs: vec![ProgramInstance {
            instance: "lines/main_inst".into(),
            program: "loops/main".into(),
            task: "fast".into(),
        }],
    };
    assert_eq!(
        synthesize_configuration(&tasks),
        "CONFIGURATION config\n    RESOURCE plc_res ON PLC\n        TASK fast(INTERVAL := T#10ms, PRIORITY := 1);\n        TASK slow(INTERVAL := T#1ms, PRIORITY := -3);\n        PROGRAM main_inst WITH fast : main;\n    END_RESOURCE\nEND_CONFIGURATION\n"
    );
    assert_eq!(sanitise_ident("a/b/c"), "c");
}

#[test]
fn leftover_configuration_is_removed() {
    assert_eq!(
        strip_any_configuration("PROGRAM p\nEND_PROGRAM\nconfiguration c\nEND_CONFIGURATION\nx"),
        "PROGRAM p\nEND_PROGRAM\nx"
    );
}

#[test]
fn section_names() {
    assert_eq!(ld_section_str(LdVarSection::Input), "input");
    assert_eq!(ld_section_str(LdVarSection::Output), "output");
    assert_eq!(ld_section_str(LdVarSection::Internal), "internal");
}

#[test]
fn transpile_diagnostic_carries_the_error_debug_text() {
    let e = BridgeError::Parse("FBD block has empty id".into());
    assert_eq!(bridge_error_text(&e), format!("{e:?}"));
    let d = synthetic_transpile_diag("FBD-TRANSPILE", &e);
    assert_eq!(d.severity, "error");
    assert_eq!(d.code, "FBD-TRANSPILE");
    assert_eq!(d.message, "Parse(\"FBD block has empty id\")");
    assert_eq!((d.start_line, d.start_column, d.end_line, d.end_column), (1, 1, 1, 1));
    assert!(d.context.is_empty() && d.related.is_empty() && d.explanation.is_none());
    let q = BridgeError::Codegen("say \"hi\"".into());
    assert_eq!(bridge_error_text(&q), format!("{q:?}"));
}

#[test]
fn parse_diagnostic_positions() {
    let d = synthetic_parse_diag("LD-PARSE", "LD", "expected value", 3, 7);
    assert_eq!(d.message, "Invalid LD JSON: expected value");
    assert_eq!((d.start_line, d.start_column, d.end_line, d.end_column), (3, 7, 3, 8));
    let wide = synthetic_parse_diag("LD-PARSE", "LD", "x", 1, u32::MAX as usize);
    assert_eq!(wide.end_column, u32::MAX);
}

#[test]
fn graphical_sources_for_the_analyzer() {
    let bad = FbdProgram {
        name: "p".into(),
        pou_type: LdPouType::Program,
        variables: vec![],
        blocks: vec![FbdBlock { id: "".into(), fb_type: "TON".into(), instance: "t".into(), inputs: vec![], position: None }],
        outputs: vec![],
    };
    let d = fbd_check_source(&bad).unwrap_err();
    assert_eq!(d.code, "FBD-TRANSPILE");
    assert_eq!(d.message, "Parse(\"FBD block has empty id\")");
    let ok = FbdProgram { blocks: vec![], ..bad };
    let (st, map) = fbd_check_source(&ok).unwrap();
    assert!(st.starts_with("PROGRAM p\n"));
    assert_eq!(st.lines().count(), map.lines.len());
    let ld = LdProgram { name: "".into(), pou_type: LdPouType::Program, variables: vec![], rungs: vec![] };
    let d = ld_check_source(&ld).unwrap_err();
    assert_eq!(d.code, "LD-TRANSPILE");
    assert_eq!(d.message, "Parse(\"LD program name is empty\")");
}

#[test]
fn locations_resolve_through_the_fbd_map() {
    let map = FbdSourceMap {
        lines: vec![None, Some(FbdLocation::Block { block_id: "b0".into() })],
    };
    assert!(lookup_locations(None, 2).is_none());
    assert!(lookup_locations(Some(&map), 1).is_none());
    assert!(matches!(lookup_locations(Some(&map), 2), Some(FbdLocation::Block { block_id }) if block_id == "b0"));
    assert!(lookup_locations(Some(&map), 3).is_none());
    assert!(lookup_locations(Some(&map), 0).is_none());
}

#[test]
fn retain_state_building_and_schema_rules() {
    let mut vars = HashMap::new();
    vars.insert("setpoint".to_string(), 42u64);
    let s = build(vars.clone(), 12345, 100);
    assert_eq!(s.schema, SCHEMA);
    assert_eq!(s.vars, vars);
    assert_eq!(s.saved_at_us, 12345);
    assert_eq!(s.scan_count, 100);
    assert_eq!(schema_handling(SCHEMA + 5), SchemaHandling::Ignore);
    assert_eq!(schema_handling(1), SchemaHandling::Widen);
    assert_eq!(schema_handling(0), SchemaHandling::Widen);
    assert_eq!(schema_handling(2), SchemaHandling::Current);
    assert_eq!(widen_legacy_value(42), 42u64);
    assert_eq!(widen_legacy_value(-17), (-17i32) as i64 as u64);
}

#[test]
fn step_mode_counts_down_then_pauses() {
    let mut m = RuntimeMode::stepping(2);
    assert_eq!(m, RuntimeMode::Step { remaining: 2 });
    assert!(m.runs_scans());
    m = m.after_tick(false);
    assert_eq!(m, RuntimeMode::Step { remaining: 2 });
    m = m.after_tick(true);
    assert_eq!(m, RuntimeMode::Step { remaining: 1 });
    m = m.after_tick(true);
    assert_eq!(m, RuntimeMode::Paused);
    assert!(!m.runs_scans());
    assert_eq!(RuntimeMode::stepping(0), RuntimeMode::Paused);
    assert_eq!(RuntimeMode::Running.after_tick(true), RuntimeMode::Running);
}

#[test]
fn scan_count_is_the_maximum() {
    assert_eq!(max_scan_count(&[]), 0);
    assert_eq!(max_scan_count(&[3, 9, 4]), 9);
}

#[test]
fn iec_string_literals() {
    assert_eq!(format_iec_string_literal(b"ab"), "'ab'");
    assert_eq!(format_iec_string_literal(b"$'\t\n\x0c\r"), "'$$$'$T$L$P$R'");
    assert_eq!(format_iec_string_literal(&[0x00, 0xff, 0x7f]), "'$00$FF$7F'");
    let mut region = vec![10u8, 0, 3, 0];
    region.extend_from_slice(b"hey");
    assert_eq!(read_string_value(&region, 0).as_deref(), Some("'hey'"));
    assert_eq!(read_string_value(&region, 5), None);
    assert_eq!(read_string_value(&region[..6], 0), None);
}

#[test]
fn variable_names_resolve_bare_then_qualified() {
    let instances = vec!["Line_A".to_string(), "line_b".to_string()];
    let maps = vec![
        vec![("speed".to_string(), 3u16)],
        vec![("speed".to_string(), 5u16), ("level".to_string(), 1u16)],
    ];
    assert_eq!(resolve_var("speed", &instances, &maps), Some((0, 3)));
    assert_eq!(resolve_var("level", &instances, &maps), Some((1, 1)));
    assert_eq!(resolve_var("LINE_B.speed", &instances, &maps), Some((1, 5)));
    assert_eq!(resolve_var("line_a.level", &instances, &maps), None);
    assert_eq!(resolve_var("nope", &instances, &maps), None);
    assert_eq!(resolve_var("x.speed", &instances, &maps), None);
}

#[test]
fn write_error_messages() {
    assert_eq!(
        RuntimeWriteError::UnknownVariable("x".into()).message(),
        "unknown variable 'x' \u{2014} not in the program's debug map"
    );
    assert_eq!(RuntimeWriteError::Disconnected.message(), "scan loop has stopped \u{2014} no writes will reach the VM");
    assert_eq!(RuntimeWriteError::Vm("trap".into()).message(), "vm trap during write: trap");
    assert_eq!(
        RuntimeWriteError::GovernanceDenied("x (no rule)".into()).message(),
        "write to 'x (no rule)' rejected by project governance"
    );
}

fn tasks_with(tasks: Vec<Task>, programs: Vec<ProgramInstance>) -> Tasks {
    Tasks { tasks, programs }
}

fn task(name: &str, interval_ms: u32, priority: i32) -> Task {
    Task { name: name.into(), interval_ms, priority }
}

fn instance(instance: &str, program: &str, task: &str) -> ProgramInstance {
    ProgramInstance { instance: instance.into(), program: program.into(), task: task.into() }
}

#[test]
fn project_sources_are_combined_with_one_configuration() {
    let tasks = tasks_with(vec![task("fast", 10, 1)], vec![instance("m", "main", "fast")]);
    let sources = vec![
        "PROGRAM main\nEND_PROGRAM".to_string(),
        "FUNCTION_BLOCK fb\nEND_FUNCTION_BLOCK\n".to_string(),
    ];
    let combined = combine_project_sources(&sources, &tasks).unwrap();
    assert!(combined.starts_with(
        "PROGRAM main\nEND_PROGRAM\nFUNCTION_BLOCK fb\nEND_FUNCTION_BLOCK\nCONFIGURATION config\n"
    ));
    assert!(combined.contains("        TASK fast(INTERVAL := T#10ms, PRIORITY := 1);\n"));
    assert!(combined.contains("        PROGRAM m WITH fast : main;\n"));
    let none = tasks_with(vec![task("fast", 10, 1)], vec![]);
    match combine_project_sources(&sources, &none) {
        Err(BridgeError::Parse(m)) => assert!(m.starts_with("no PROGRAM instances to run")),
        _ => panic!("expected a refusal"),
    }
    match isolated_source("PROGRAM p\nEND_PROGRAM", &none) {
        Err(BridgeError::Parse(m)) => assert_eq!(m, "no PROGRAM instance to run"),
        _ => panic!("expected a refusal"),
    }
    let one = isolated_source("PROGRAM main\nEND_PROGRAM", &tasks).unwrap();
    assert!(one.starts_with("PROGRAM main\nEND_PROGRAM\nCONFIGURATION config\n"));
}

#[test]
fn compile_errors_name_their_instance() {
    match tag_with_instance("line1", BridgeError::Codegen("boom".into())) {
        BridgeError::Codegen(m) => assert_eq!(m, "instance 'line1': boom"),
        _ => panic!("variant changed"),
    }
}

#[test]
fn units_are_planned_per_instance() {
    let tasks = tasks_with(
        vec![task("fast", 10, 0), task("slow", 500, 3)],
        vec![instance("a/fill", "lib/Fill", "fast"), instance("drain", "drain", "missing")],
    );
    let declared = vec!["DRAIN".to_string(), "fill".to_string()];
    let plans = plan_units(&tasks, &declared).unwrap();
    assert_eq!(plans.len(), 2);
    assert_eq!(plans[0].instance, "fill");
    assert_eq!(plans[0].program_index, 1);
    assert_eq!((plans[0].interval_ms, plans[0].priority), (10, 0));
    assert!(plans[0].configuration.contains("        PROGRAM fill WITH fast : Fill;\n"));
    assert_eq!(plans[1].program_index, 0);
    assert_eq!(plans[1].task_name, "missing");
    assert_eq!((plans[1].interval_ms, plans[1].priority), (100, 1));
    assert!(plans[1].configuration.contains("TASK missing(INTERVAL := T#100ms, PRIORITY := 1);"));

    let bad = tasks_with(vec![], vec![instance("x", "ghost", "t")]);
    match plan_units(&bad, &declared) {
        Err(BridgeError::Parse(m)) => assert_eq!(
            m,
            "PROGRAM 'ghost' (instance 'x') is scheduled in tasks.toml but not declared in any POU file"
        ),
        _ => panic!("expected a refusal"),
    }
    assert!(plan_units(&tasks_with(vec![], vec![]), &declared).is_err());
}

fn pos(line: u32, column: u32) -> SourcePos {
    SourcePos { line, column }
}

#[test]
fn analyzer_diagnostics_become_one_based_with_related_entries() {
    let d = RawDiagnostic {
        code: "P4007".into(),
        description: "Variable is not defined".into(),
        described: vec!["variable=ghost".into()],
        start: pos(1, 4),
        end: pos(1, 9),
        secondary: vec![
            RawLabel { file: LabelFile::Buffer, message: "used here".into(), start: pos(0, 0), end: pos(0, 3) },
            RawLabel {
                file: LabelFile::Other(Some("lib/util.st".into())),
                message: "first declared here".into(),
                start: pos(7, 1),
                end: pos(7, 2),
            },
            RawLabel { file: LabelFile::Other(None), message: "elsewhere".into(), start: pos(0, 0), end: pos(0, 0) },
        ],
    };
    let map = FbdSourceMap {
        lines: vec![None, Some(FbdLocation::Block { block_id: "b1".into() })],
    };
    let dto = diagnostic_dto(&d, Some(&map), &ProblemDocs { pages: vec![] });
    assert_eq!(dto.severity, "error");
    assert_eq!(dto.code, "P4007");
    assert_eq!((dto.start_line, dto.start_column, dto.end_line, dto.end_column), (2, 5, 2, 10));
    assert_eq!(
        dto.context,
        vec![
            "variable=ghost".to_string(),
            "see lib/util.st: first declared here".to_string(),
            "elsewhere".to_string()
        ]
    );
    assert_eq!(dto.related.len(), 1);
    assert_eq!(dto.related[0].message, "used here");
    assert_eq!((dto.related[0].start_line, dto.related[0].end_column), (1, 4));
    assert!(dto.related[0].fbd_location.is_none());
    assert!(matches!(&dto.fbd_location, Some(FbdLocation::Block { block_id }) if block_id == "b1"));
    assert!(dto.explanation.is_none());
    let plain = diagnostic_dto(&d, None, &sample_docs());
    assert_eq!(plain.explanation, Some("The variable is used but not declared.".to_string()));
    assert!(plain.fbd_location.is_none());
}

#[test]
fn context_files_skip_the_buffer_itself() {
    let file = vec!["Motor".to_string()];
    let buffer = vec!["Main".to_string()];
    assert!(!context_file_kept("pous/main.st", Some("pous/main.st"), &file, &buffer));
    assert!(context_file_kept("pous/motor.st", Some("pous/main.st"), &file, &buffer));
    // With the buffer's own file known, shared names no longer matter.
    assert!(context_file_kept("pous/old_main.st", Some("pous/main.st"), &buffer, &buffer));
}

#[test]
fn context_files_redeclaring_a_buffer_pou_are_skipped_without_a_path() {
    let buffer = vec!["Main".to_string(), "Valve".to_string()];
    assert!(!context_file_kept("pous/copy.st", None, &vec!["MAIN".to_string()], &buffer));
    assert!(!context_file_kept("pous/v.st", None, &vec!["x".to_string(), "valve".to_string()], &buffer));
    assert!(context_file_kept("pous/motor.st", None, &vec!["Motor".to_string()], &buffer));
    assert!(context_file_kept("pous/any.st", None, &vec!["Main".to_string()], &vec![]));
}
