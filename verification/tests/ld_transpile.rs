use ia2_project::errors::BridgeError;
use ia2_project::ld::{LdCoil, LdCoilKind, LdNode, LdPouType, LdProgram, LdRung, LdVarSection, LdVariable};
use ia2_project::ld_transpile::{render_node, sanitise_ident, transpile_to_st};

fn var(name: &str, ty: &str, section: LdVarSection, init: Option<&str>) -> LdVariable {
    LdVariable {
        name: name.into(),
        iec_type: ty.into(),
        section,
        init: init.map(|s| s.to_string()),
    }
}

fn contact(v: &str, negated: bool) -> LdNode {
    LdNode::Contact { var: v.into(), negated }
}

fn coil(v: &str, kind: LdCoilKind) -> LdCoil {
    LdCoil { var: v.into(), kind }
}

fn motor_seal_program() -> LdProgram {
    LdProgram {
        name: "motor".into(),
        pou_type: LdPouType::Program,
        variables: vec![
            var("start_btn", "BOOL", LdVarSection::Input, None),
            var("stop_btn", "BOOL", LdVarSection::Input, None),
            var("motor_run", "BOOL", LdVarSection::Output, Some("FALSE")),
        ],
        rungs: vec![LdRung {
            id: "r0".into(),
            label: Some("motor seal-in".into()),
            logic: LdNode::Or {
                args: vec![
                    contact("start_btn", false),
                    LdNode::And { args: vec![contact("motor_run", false), contact("stop_btn", true)] },
                ],
            },
            coils: vec![coil("motor_run", LdCoilKind::Standard)],
        }],
    }
}

#[test]
fn seal_in_transpiles_to_expected_st() {
    let st = transpile_to_st(&motor_seal_program()).unwrap();
    assert!(st.contains("PROGRAM motor"));
    assert!(st.contains("VAR_INPUT"));
    assert!(st.contains("start_btn : BOOL"));
    assert!(st.contains("motor_run : BOOL := FALSE"));
    assert!(
        st.contains("motor_run := (start_btn OR (motor_run AND NOT stop_btn));"),
        "unexpected ST:\n{st}"
    );
    assert!(st.contains("END_PROGRAM"));
}

#[test]
fn negated_contact_becomes_not() {
    let st = transpile_to_st(&LdProgram {
        name: "p".into(),
        pou_type: LdPouType::Program,
        variables: vec![var("x", "BOOL", LdVarSection::Internal, None)],
        rungs: vec![LdRung {
            id: "r".into(),
            label: None,
            logic: contact("x", true),
            coils: vec![coil("x", LdCoilKind::Standard)],
        }],
    })
    .unwrap();
    assert!(st.contains("x := NOT x;"));
}

#[test]
fn set_and_reset_coils_emit_if_blocks() {
    let prog = LdProgram {
        name: "p".into(),
        pou_type: LdPouType::Program,
        variables: vec![
            var("trig", "BOOL", LdVarSection::Input, None),
            var("latched", "BOOL", LdVarSection::Output, None),
        ],
        rungs: vec![
            LdRung {
                id: "set".into(),
                label: None,
                logic: contact("trig", false),
                coils: vec![coil("latched", LdCoilKind::Latch)],
            },
            LdRung {
                id: "rst".into(),
                label: None,
                logic: contact("trig", true),
                coils: vec![coil("latched", LdCoilKind::Unlatch)],
            },
        ],
    };
    let st = transpile_to_st(&prog).unwrap();
    assert!(st.contains("IF trig THEN latched := TRUE; END_IF;"));
    assert!(st.contains("IF NOT trig THEN latched := FALSE; END_IF;"));
}

#[test]
fn empty_and_or_collapse_to_identity() {
    assert_eq!(render_node(&LdNode::And { args: vec![] }).unwrap(), "TRUE");
    assert_eq!(render_node(&LdNode::Or { args: vec![] }).unwrap(), "FALSE");
}

#[test]
fn multiple_coils_use_temporary() {
    let prog = LdProgram {
        name: "p".into(),
        pou_type: LdPouType::Program,
        variables: vec![
            var("a", "BOOL", LdVarSection::Input, None),
            var("x", "BOOL", LdVarSection::Output, None),
            var("y", "BOOL", LdVarSection::Output, None),
            var("__rung_multi", "BOOL", LdVarSection::Internal, None),
        ],
        rungs: vec![LdRung {
            id: "multi".into(),
            label: None,
            logic: contact("a", false),
            coils: vec![coil("x", LdCoilKind::Standard), coil("y", LdCoilKind::Standard)],
        }],
    };
    let st = transpile_to_st(&prog).unwrap();
    assert!(st.contains("__rung_multi := a;"));
    assert!(st.contains("x := __rung_multi;"));
    assert!(st.contains("y := __rung_multi;"));
}

#[test]
fn whole_program_text_is_exact() {
    let st = transpile_to_st(&motor_seal_program()).unwrap();
    let expected = "PROGRAM motor\n    VAR_INPUT\n        start_btn : BOOL;\n        stop_btn : BOOL;\n    END_VAR\n    VAR_OUTPUT\n        motor_run : BOOL := FALSE;\n    END_VAR\n    VAR\n    END_VAR\n\n    (* rung r0: motor seal-in *)\n    motor_run := (start_btn OR (motor_run AND NOT stop_btn));\n\nEND_PROGRAM\n";
    assert_eq!(st, expected);
}

fn parse_msg(e: BridgeError) -> String {
    match e {
        BridgeError::Parse(m) => m,
        other => panic!("expected a parse error, got {other:?}"),
    }
}

#[test]
fn unnamed_program_is_rejected() {
    let mut p = motor_seal_program();
    p.name = String::new();
    assert_eq!(parse_msg(transpile_to_st(&p).unwrap_err()), "LD program name is empty");
}

#[test]
fn program_without_rungs_is_rejected() {
    let mut p = motor_seal_program();
    p.rungs.clear();
    assert_eq!(parse_msg(transpile_to_st(&p).unwrap_err()), "LD program 'motor' has no rungs");
}

#[test]
fn rung_without_coils_names_its_index_and_id() {
    let mut p = motor_seal_program();
    p.rungs.push(LdRung { id: "dead".into(), label: None, logic: contact("a", false), coils: vec![] });
    assert_eq!(
        parse_msg(transpile_to_st(&p).unwrap_err()),
        "LD rung 1 (dead) has no coils — a rung with no output is dead code"
    );
}

#[test]
fn contact_without_variable_is_rejected() {
    let e = render_node(&LdNode::Not { arg: Box::new(contact("", false)) }).unwrap_err();
    assert_eq!(parse_msg(e), "LD contact has empty variable name");
}

#[test]
fn function_blocks_get_their_own_keywords_and_constants_render() {
    let p = LdProgram {
        name: "fb".into(),
        pou_type: LdPouType::FunctionBlock,
        variables: vec![],
        rungs: vec![LdRung {
            id: "k".into(),
            label: None,
            logic: LdNode::Not { arg: Box::new(LdNode::Const { value: true }) },
            coils: vec![coil("q", LdCoilKind::Standard)],
        }],
    };
    let st = transpile_to_st(&p).unwrap();
    assert!(st.starts_with("FUNCTION_BLOCK fb\n"));
    assert!(st.contains("q := (NOT TRUE);"));
    assert!(st.ends_with("END_FUNCTION_BLOCK\n"));
}

#[test]
fn rung_ids_are_sanitised_into_identifiers() {
    assert_eq!(sanitise_ident("1st rung-a"), "_st_rung_a");
    assert_eq!(sanitise_ident("ok_2"), "ok_2");
    assert_eq!(sanitise_ident(""), "");
}
