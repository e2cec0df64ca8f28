use ia2_project::errors::BridgeError;
use ia2_project::fbd::{FbdBlock, FbdInputBinding, FbdInputSource, FbdOutputBinding, FbdProgram};
use ia2_project::fbd_transpile::{transpile_to_st, transpile_to_st_with_map, FbdLocation, FbdSourceMap};
use ia2_project::ld::{LdPouType, LdVarSection, LdVariable};

fn var(name: &str, ty: &str, section: LdVarSection) -> LdVariable {
    LdVariable { name: name.into(), iec_type: ty.into(), section, init: None }
}

fn pin_var(pin: &str, name: &str) -> FbdInputBinding {
    FbdInputBinding { pin: pin.into(), value: FbdInputSource::Var { name: name.into() } }
}

fn pin_lit(pin: &str, value: &str) -> FbdInputBinding {
    FbdInputBinding { pin: pin.into(), value: FbdInputSource::Literal { value: value.into() } }
}

fn pin_wire(pin: &str, block_id: &str, src_pin: &str) -> FbdInputBinding {
    FbdInputBinding {
        pin: pin.into(),
        value: FbdInputSource::Block { block_id: block_id.into(), pin: src_pin.into() },
    }
}

fn block(id: &str, fb_type: &str, instance: &str, inputs: Vec<FbdInputBinding>) -> FbdBlock {
    FbdBlock { id: id.into(), fb_type: fb_type.into(), instance: instance.into(), inputs, position: None }
}

fn out(variable: &str, from_block: &str, from_pin: &str) -> FbdOutputBinding {
    FbdOutputBinding { variable: variable.into(), from_block: from_block.into(), from_pin: from_pin.into() }
}

fn parse_msg(e: BridgeError) -> String {
    match e {
        BridgeError::Parse(m) => m,
        other => panic!("expected Parse, got {other:?}"),
    }
}

fn ton_program() -> FbdProgram {
    FbdProgram {
        name: "delay".into(),
        pou_type: LdPouType::Program,
        variables: vec![var("btn", "BOOL", LdVarSection::Input), var("done", "BOOL", LdVarSection::Output)],
        blocks: vec![block("b0", "TON", "myT", vec![pin_var("IN", "btn"), pin_lit("PT", "T#3s")])],
        outputs: vec![out("done", "b0", "Q")],
    }
}

#[test]
fn single_block_emits_decl_call_and_output_binding() {
    let st = transpile_to_st(&ton_program()).unwrap();
    assert!(st.contains("myT : TON;"), "got:\n{st}");
    assert!(st.contains("myT(IN := btn, PT := T#3s);"), "got:\n{st}");
    assert!(st.contains("done := myT.Q;"), "got:\n{st}");
    assert!(st.contains("END_PROGRAM"));
}

#[test]
fn wire_between_blocks_uses_dot_access_on_source_instance() {
    let prog = FbdProgram {
        name: "chain".into(),
        pou_type: LdPouType::Program,
        variables: vec![var("btn", "BOOL", LdVarSection::Input), var("done", "BOOL", LdVarSection::Output)],
        blocks: vec![
            block("b0", "TON", "myT", vec![pin_var("IN", "btn"), pin_lit("PT", "T#1s")]),
            block("b1", "CTU", "myCnt", vec![pin_wire("CU", "b0", "Q"), pin_lit("PV", "5")]),
        ],
        outputs: vec![out("done", "b1", "Q")],
    };
    let st = transpile_to_st(&prog).unwrap();
    assert!(st.contains("myCnt(CU := myT.Q, PV := 5);"), "got:\n{st}");
    let ton_pos = st.find("myT(IN").unwrap();
    let ctu_pos = st.find("myCnt(CU").unwrap();
    assert!(ton_pos < ctu_pos, "block order should be topological");
}

#[test]
fn cycle_detection_errors_with_block_ids() {
    let prog = FbdProgram {
        name: "loop".into(),
        pou_type: LdPouType::Program,
        variables: vec![],
        blocks: vec![
            block("a", "TON", "ta", vec![pin_wire("IN", "b", "Q")]),
            block("b", "TON", "tb", vec![pin_wire("IN", "a", "Q")]),
        ],
        outputs: vec![],
    };
    let err = transpile_to_st(&prog).unwrap_err();
    let msg = format!("{err:?}");
    assert!(msg.contains("cycle"), "expected cycle error, got: {msg}");
    assert!(msg.contains("a") && msg.contains("b"), "{msg}");
}

#[test]
fn duplicate_instance_across_blocks_errors() {
    let prog = FbdProgram {
        name: "dup".into(),
        pou_type: LdPouType::Program,
        variables: vec![],
        blocks: vec![block("b0", "TON", "myT", vec![]), block("b1", "TOF", "myT", vec![])],
        outputs: vec![],
    };
    let err = transpile_to_st(&prog).unwrap_err();
    let msg = format!("{err:?}");
    assert!(msg.contains("instance") && msg.contains("myT"), "{msg}");
}

#[test]
fn wire_to_unknown_block_errors_clearly() {
    let prog = FbdProgram {
        name: "bad".into(),
        pou_type: LdPouType::Program,
        variables: vec![],
        blocks: vec![block("b0", "TON", "myT", vec![pin_wire("IN", "ghost", "Q")])],
        outputs: vec![],
    };
    let err = transpile_to_st(&prog).unwrap_err();
    let msg = format!("{err:?}");
    assert!(msg.contains("ghost"), "{msg}");
}

#[test]
fn double_driven_output_errors() {
    let prog = FbdProgram {
        name: "p".into(),
        pou_type: LdPouType::Program,
        variables: vec![var("out", "BOOL", LdVarSection::Output)],
        blocks: vec![block("b0", "TON", "t0", vec![]), block("b1", "TOF", "t1", vec![])],
        outputs: vec![out("out", "b0", "Q"), out("out", "b1", "Q")],
    };
    let err = transpile_to_st(&prog).unwrap_err();
    let msg = format!("{err:?}");
    assert!(msg.contains("driven by two blocks"), "{msg}");
}

fn line_of(st: &str, needle: &str) -> usize {
    st.lines().position(|l| l.contains(needle)).map(|i| i + 1).unwrap()
}

#[test]
fn source_map_locates_block_call_lines() {
    let (st, map) = transpile_to_st_with_map(&ton_program()).unwrap();
    let call_line = line_of(&st, "myT(IN := btn");
    match map.lookup(call_line) {
        Some(FbdLocation::Block { block_id }) => assert_eq!(block_id, "b0"),
        other => panic!("expected Block, got {other:?}\n{st}"),
    }
}

#[test]
fn source_map_locates_output_binding_lines() {
    let (st, map) = transpile_to_st_with_map(&ton_program()).unwrap();
    let line = line_of(&st, "done := myT.Q");
    match map.lookup(line) {
        Some(FbdLocation::Output { variable }) => assert_eq!(variable, "done"),
        other => panic!("expected Output, got {other:?}\n{st}"),
    }
}

#[test]
fn source_map_locates_variable_declarations() {
    let (st, map) = transpile_to_st_with_map(&ton_program()).unwrap();
    let line = line_of(&st, "btn : BOOL");
    match map.lookup(line) {
        Some(FbdLocation::Variable { name }) => assert_eq!(name, "btn"),
        other => panic!("expected Variable, got {other:?}\n{st}"),
    }
}

#[test]
fn source_map_line_count_matches_output() {
    let (st, map) = transpile_to_st_with_map(&ton_program()).unwrap();
    assert_eq!(st.lines().count(), map.lines.len(), "one map entry per emitted line");
}

// ----- further cases -----

#[test]
fn ton_program_exact_text() {
    let st = transpile_to_st(&ton_program()).unwrap();
    let expected = "PROGRAM delay\n    VAR_INPUT\n        btn : BOOL;\n    END_VAR\n    VAR_OUTPUT\n        done : BOOL;\n    END_VAR\n    VAR\n        myT : TON;\n    END_VAR\n\n    myT(IN := btn, PT := T#3s);\n\n    done := myT.Q;\nEND_PROGRAM\n";
    assert_eq!(st, expected);
}

#[test]
fn source_map_entries_for_ton_program() {
    let (_st, map) = transpile_to_st_with_map(&ton_program()).unwrap();
    assert_eq!(map.lines.len(), 15);
    assert!(map.lookup(0).is_none());
    assert!(map.lookup(1).is_none());
    assert!(matches!(map.lookup(3), Some(FbdLocation::Variable { name }) if name == "btn"));
    assert!(matches!(map.lookup(6), Some(FbdLocation::Variable { name }) if name == "done"));
    assert!(map.lookup(9).is_none(), "instance declarations have no diagram origin");
    assert!(matches!(map.lookup(12), Some(FbdLocation::Block { block_id }) if block_id == "b0"));
    assert!(matches!(map.lookup(14), Some(FbdLocation::Output { variable }) if variable == "done"));
    assert!(map.lookup(16).is_none());
}

#[test]
fn lookup_on_empty_map() {
    let map = FbdSourceMap { lines: vec![] };
    assert!(map.lookup(0).is_none());
    assert!(map.lookup(1).is_none());
}

#[test]
fn function_block_without_outputs_has_no_trailing_blank() {
    let prog = FbdProgram {
        name: "fb".into(),
        pou_type: LdPouType::FunctionBlock,
        variables: vec![],
        blocks: vec![block("e", "R_TRIG", "rt", vec![pin_lit("CLK", "TRUE")])],
        outputs: vec![],
    };
    let st = transpile_to_st(&prog).unwrap();
    let expected = "FUNCTION_BLOCK fb\n    VAR_INPUT\n    END_VAR\n    VAR_OUTPUT\n    END_VAR\n    VAR\n        rt : R_TRIG;\n    END_VAR\n\n    rt(CLK := TRUE);\nEND_FUNCTION_BLOCK\n";
    assert_eq!(st, expected);
}

#[test]
fn instances_are_declared_in_name_order_and_calls_in_wire_order() {
    // c reads a, a reads b: b, then a, then c.
    let prog = FbdProgram {
        name: "p".into(),
        pou_type: LdPouType::Program,
        variables: vec![],
        blocks: vec![
            block("c", "CTU", "zeta", vec![pin_wire("CU", "a", "Q")]),
            block("a", "TON", "alpha", vec![pin_wire("IN", "b", "Q")]),
            block("b", "R_TRIG", "mid", vec![pin_lit("CLK", "TRUE")]),
        ],
        outputs: vec![],
    };
    let st = transpile_to_st(&prog).unwrap();
    let expected = "PROGRAM p\n    VAR_INPUT\n    END_VAR\n    VAR_OUTPUT\n    END_VAR\n    VAR\n        alpha : TON;\n        mid : R_TRIG;\n        zeta : CTU;\n    END_VAR\n\n    mid(CLK := TRUE);\n    alpha(IN := mid.Q);\n    zeta(CU := alpha.Q);\nEND_PROGRAM\n";
    assert_eq!(st, expected);
}

#[test]
fn independent_blocks_keep_authoring_order() {
    let prog = FbdProgram {
        name: "p".into(),
        pou_type: LdPouType::Program,
        variables: vec![],
        blocks: vec![
            block("x", "TON", "t2", vec![]),
            block("y", "TON", "t1", vec![]),
        ],
        outputs: vec![],
    };
    let st = transpile_to_st(&prog).unwrap();
    assert!(st.find("    t2();").unwrap() < st.find("    t1();").unwrap(), "{st}");
}

#[test]
fn empty_program_name_errors() {
    let mut prog = ton_program();
    prog.name = String::new();
    assert_eq!(parse_msg(transpile_to_st(&prog).unwrap_err()), "FBD program name is empty");
}

#[test]
fn block_id_errors() {
    let mut prog = ton_program();
    prog.blocks[0].id = String::new();
    assert_eq!(parse_msg(transpile_to_st(&prog).unwrap_err()), "FBD block has empty id");
    let mut prog = ton_program();
    prog.blocks.push(block("b0", "TOF", "other", vec![]));
    assert_eq!(parse_msg(transpile_to_st(&prog).unwrap_err()), "FBD block id 'b0' is duplicated");
}

#[test]
fn instance_errors_exact_messages() {
    let mut prog = ton_program();
    prog.blocks[0].instance = String::new();
    assert_eq!(parse_msg(transpile_to_st(&prog).unwrap_err()), "FBD block 'b0' has empty instance name");
    let mut prog = ton_program();
    prog.blocks[0].fb_type = String::new();
    assert_eq!(parse_msg(transpile_to_st(&prog).unwrap_err()), "FBD block 'b0' has empty fb_type");
    let mut prog = ton_program();
    prog.blocks.push(block("b1", "TOF", "myT", vec![]));
    assert_eq!(
        parse_msg(transpile_to_st(&prog).unwrap_err()),
        "FB instance 'myT' used by both block 'b0' and block 'b1'"
    );
}

#[test]
fn wire_errors_exact_messages() {
    let mut prog = ton_program();
    prog.blocks[0].inputs.push(pin_wire("R", "nowhere", "Q"));
    assert_eq!(
        parse_msg(transpile_to_st(&prog).unwrap_err()),
        "Block 'b0' input pin 'R' wired from unknown block 'nowhere'"
    );
    let mut prog = ton_program();
    prog.blocks.push(block("b1", "CTU", "cnt", vec![pin_wire("CU", "b0", "")]));
    assert_eq!(
        parse_msg(transpile_to_st(&prog).unwrap_err()),
        "Block 'b1' input pin 'CU' has empty source pin"
    );
}

#[test]
fn output_binding_errors_exact_messages() {
    let mut prog = ton_program();
    prog.outputs.push(out("x", "zz", "Q"));
    assert_eq!(
        parse_msg(transpile_to_st(&prog).unwrap_err()),
        "Output binding 'x' wired from unknown block 'zz'"
    );
    let mut prog = ton_program();
    prog.outputs.push(out("", "b0", "Q"));
    assert_eq!(parse_msg(transpile_to_st(&prog).unwrap_err()), "FBD output binding has empty variable");
    let mut prog = ton_program();
    prog.blocks.push(block("b1", "TOF", "t1", vec![]));
    prog.outputs.push(out("done", "b1", "Q"));
    assert_eq!(
        parse_msg(transpile_to_st(&prog).unwrap_err()),
        "Output variable 'done' driven by two blocks (b0 and b1)"
    );
}

#[test]
fn self_wired_block_errors() {
    let mut prog = ton_program();
    prog.blocks[0].inputs.push(pin_wire("R", "b0", "Q"));
    assert_eq!(
        parse_msg(transpile_to_st(&prog).unwrap_err()),
        "FBD block 'b0' references itself \u{2014} self-feedback isn't supported"
    );
}

#[test]
fn cycle_message_lists_only_blocks_that_never_ran() {
    let prog = FbdProgram {
        name: "loop".into(),
        pou_type: LdPouType::Program,
        variables: vec![],
        blocks: vec![
            block("free", "TON", "t0", vec![]),
            block("a", "TON", "ta", vec![pin_wire("IN", "b", "Q")]),
            block("b", "TON", "tb", vec![pin_wire("IN", "a", "Q")]),
            block("after", "TON", "t3", vec![pin_wire("IN", "a", "Q")]),
        ],
        outputs: vec![],
    };
    assert_eq!(
        parse_msg(transpile_to_st(&prog).unwrap_err()),
        "FBD has a wire cycle through blocks: a, b, after. Feedback loops require CFC, not FBD."
    );
}

#[test]
fn pin_value_errors_exact_messages() {
    let mut prog = ton_program();
    prog.blocks[0].inputs.push(pin_var("", "x"));
    assert_eq!(parse_msg(transpile_to_st(&prog).unwrap_err()), "FBD input has empty pin name");
    let mut prog = ton_program();
    prog.blocks[0].inputs.push(pin_var("R", ""));
    assert_eq!(parse_msg(transpile_to_st(&prog).unwrap_err()), "FBD var input has empty name");
    let mut prog = ton_program();
    prog.blocks[0].inputs.push(pin_lit("R", ""));
    assert_eq!(parse_msg(transpile_to_st(&prog).unwrap_err()), "FBD literal input is empty");
}

#[test]
fn variable_initialisers_are_copied() {
    let mut prog = ton_program();
    prog.variables.push(LdVariable {
        name: "count".into(),
        iec_type: "INT".into(),
        section: LdVarSection::Internal,
        init: Some("7".into()),
    });
    let st = transpile_to_st(&prog).unwrap();
    assert!(st.contains("    VAR\n        count : INT := 7;\n        myT : TON;\n    END_VAR\n"), "{st}");
}
