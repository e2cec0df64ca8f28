//! Ladder Diagram to Structured Text.
//!
//! Each rung's boolean network becomes a parenthesised ST expression
//! (series = AND, parallel = OR) assigned to the rung's coils; the
//! variable list becomes the three VAR sections.
use vstd::prelude::*;

use crate::errors::BridgeError;
use crate::ld::{LdCoil, LdCoilKind, LdNode, LdPouType, LdProgram, LdRung, LdVarSection, LdVariable};
use crate::text::{decimal, join, join_strings, push_char, push_decimal};

verus! {

pub open spec fn empty_contact_msg() -> Seq<char> {
    "LD contact has empty variable name"@
}

/// `(a AND b AND c)`-style rendering of a boolean network; `None` when a
/// contact names no variable.
pub open spec fn spec_render_node(n: LdNode) -> Option<Seq<char>>
    decreases n, 2int,
{
    match n {
        LdNode::Contact { var, negated } => {
            if var@.len() == 0 {
                None
            } else if negated {
                Some("NOT "@ + var@)
            } else {
                Some(var@)
            }
        },
        LdNode::And { args } => spec_combine(args@, "AND"@, "TRUE"@),
        LdNode::Or { args } => spec_combine(args@, "OR"@, "FALSE"@),
        LdNode::Not { arg } => match spec_render_node(*arg) {
            Some(s) => Some("(NOT "@ + s + ")"@),
            None => None,
        },
        LdNode::Const { value } => Some(
            if value {
                "TRUE"@
            } else {
                "FALSE"@
            },
        ),
    }
}

/// An empty series/parallel branch is its operator's identity, a single
/// branch is itself, several are joined by the operator in parentheses.
pub open spec fn spec_combine(args: Seq<LdNode>, op: Seq<char>, identity: Seq<char>) -> Option<
    Seq<char>,
>
    decreases args, 1int,
{
    if args.len() == 0 {
        Some(identity)
    } else if args.len() == 1 {
        spec_render_node(args[0])
    } else {
        match spec_render_all(args) {
            Some(parts) => Some("("@ + join(parts, " "@ + op + " "@) + ")"@),
            None => None,
        }
    }
}

/// Renders every branch, failing if any branch fails.
pub open spec fn spec_render_all(args: Seq<LdNode>) -> Option<Seq<Seq<char>>>
    decreases args, 0int,
{
    if args.len() == 0 {
        Some(Seq::empty())
    } else {
        match spec_render_all(args.drop_last()) {
            Some(parts) => match spec_render_node(args.last()) {
                Some(p) => Some(parts.push(p)),
                None => None,
            },
            None => None,
        }
    }
}

pub fn render_node(node: &LdNode) -> (r: Result<String, BridgeError>)
    ensures
        match r {
            Ok(s) => spec_render_node(*node) == Some(s@),
            Err(BridgeError::Parse(m)) => spec_render_node(*node) is None && m@
                == empty_contact_msg(),
            Err(_) => false,
        },
    decreases node, 2int,
{
    match node {
        LdNode::Contact { var, negated } => {
            if var.as_str().is_empty() {
                return Err(BridgeError::Parse(String::from_str("LD contact has empty variable name")));
            }
            if *negated {
                let mut s = String::from_str("NOT ");
                s.append(var.as_str());
                Ok(s)
            } else {
                Ok(var.clone())
            }
        },
        LdNode::And { args } => combine(args, "AND", "TRUE"),
        LdNode::Or { args } => combine(args, "OR", "FALSE"),
        LdNode::Not { arg } => {
            let inner = render_node(arg)?;
            let mut s = String::from_str("(NOT ");
            s.append(inner.as_str());
            s.append(")");
            Ok(s)
        },
        LdNode::Const { value } => {
            if *value {
                Ok(String::from_str("TRUE"))
            } else {
                Ok(String::from_str("FALSE"))
            }
        },
    }
}

fn combine(args: &Vec<LdNode>, op: &str, identity: &str) -> (r: Result<String, BridgeError>)
    ensures
        match r {
            Ok(s) => spec_combine(args@, op@, identity@) == Some(s@),
            Err(BridgeError::Parse(m)) => spec_combine(args@, op@, identity@) is None && m@
                == empty_contact_msg(),
            Err(_) => false,
        },
    decreases args@, 1int,
{
    if args.len() == 0 {
        return Ok(String::from_str(identity));
    }
    if args.len() == 1 {
        return render_node(&args[0]);
    }
    let mut parts: Vec<String> = Vec::new();
    let mut i: usize = 0;
    while i < args.len()
        invariant
            i <= args.len(),
            spec_render_all(args@.take(i as int)) == Some(parts@.map_values(|s: String| s@)),
        decreases args.len() - i,
    {
        assert(args@.take(i + 1).drop_last() =~= args@.take(i as int));
        assert(args@.take(i + 1).last() == args@[i as int]);
        let p = render_node(&args[i]);
        match p {
            Ok(p) => {
                parts.push(p);
                assert(parts@.map_values(|s: String| s@) =~= parts@.drop_last().map_values(
                    |s: String| s@,
                ).push(parts@.last()@));
            },
            Err(e) => {
                proof {
                    lemma_render_all_prefix_fails(args@, (i + 1) as int);
                }
                return Err(e);
            },
        }
        i = i + 1;
    }
    assert(args@.take(args.len() as int) =~= args@);
    let mut sep = String::from_str(" ");
    sep.append(op);
    sep.append(" ");
    let joined = join_strings(&parts, sep.as_str());
    let mut s = String::from_str("(");
    s.append(joined.as_str());
    s.append(")");
    Ok(s)
}

/// If rendering fails on a prefix, it fails on the whole sequence.
proof fn lemma_render_all_prefix_fails(args: Seq<LdNode>, k: int)
    requires
        0 <= k <= args.len(),
        spec_render_all(args.take(k)) is None,
    ensures
        spec_render_all(args) is None,
    decreases args.len() - k,
{
    if k < args.len() {
        assert(args.take(k + 1).drop_last() =~= args.take(k));
        lemma_render_all_prefix_fails(args, k + 1);
    } else {
        assert(args.take(k) =~= args);
    }
}

pub open spec fn is_ascii_alpha(c: char) -> bool {
    ('a' <= c && c <= 'z') || ('A' <= c && c <= 'Z')
}

pub open spec fn is_ascii_digit(c: char) -> bool {
    '0' <= c && c <= '9'
}

/// Whether `c` may stand at a position of an IEC identifier (`first`:
/// the leading position, where digits are not allowed).
pub open spec fn ident_char_ok(first: bool, c: char) -> bool {
    is_ascii_alpha(c) || c == '_' || (!first && is_ascii_digit(c))
}

/// Every character that is not allowed at its position becomes `_`.
pub open spec fn spec_sanitise_ident(s: Seq<char>) -> Seq<char> {
    s.map(|i: int, c: char| if ident_char_ok(i == 0, c) { c } else { '_' })
}

/// Turns an arbitrary rung id into an IEC identifier.
pub fn sanitise_ident(s: &str) -> (r: String)
    ensures
        r@ == spec_sanitise_ident(s@),
{
    let v = crate::text::chars_of(s);
    let mut out = String::new();
    let mut i: usize = 0;
    while i < v.len()
        invariant
            i <= v.len(),
            v@ == s@,
            out@ == spec_sanitise_ident(s@).take(i as int),
        decreases v.len() - i,
    {
        let c = v[i];
        let ok = ('a' <= c && c <= 'z') || ('A' <= c && c <= 'Z') || c == '_' || (i > 0 && '0'
            <= c && c <= '9');
        if ok {
            push_char(&mut out, c);
        } else {
            push_char(&mut out, '_');
        }
        assert(out@ =~= spec_sanitise_ident(s@).take(i + 1));
        i = i + 1;
    }
    assert(spec_sanitise_ident(s@).take(v.len() as int) =~= spec_sanitise_ident(s@));
    out
}

/// The ST statement(s) one coil contributes for the value `expr`.
pub open spec fn spec_coil_text(c: LdCoil, expr: Seq<char>) -> Seq<char> {
    match c.kind {
        LdCoilKind::Standard => "    "@ + c.var@ + " := "@ + expr + ";\n"@,
        LdCoilKind::Latch => "    IF "@ + expr + " THEN "@ + c.var@ + " := TRUE; END_IF;\n"@,
        LdCoilKind::Unlatch => "    IF "@ + expr + " THEN "@ + c.var@ + " := FALSE; END_IF;\n"@,
    }
}

pub open spec fn spec_coils_text(coils: Seq<LdCoil>, expr: Seq<char>) -> Seq<char>
    decreases coils.len(),
{
    if coils.len() == 0 {
        Seq::empty()
    } else {
        spec_coils_text(coils.drop_last(), expr) + spec_coil_text(coils.last(), expr)
    }
}

fn emit_coil(out: &mut String, coil: &LdCoil, expr: &str)
    ensures
        final(out)@ == old(out)@ + spec_coil_text(*coil, expr@),
{
    match coil.kind {
        LdCoilKind::Standard => {
            out.append("    ");
            out.append(coil.var.as_str());
            out.append(" := ");
            out.append(expr);
            out.append(";\n");
        },
        LdCoilKind::Latch => {
            out.append("    IF ");
            out.append(expr);
            out.append(" THEN ");
            out.append(coil.var.as_str());
            out.append(" := TRUE; END_IF;\n");
        },
        LdCoilKind::Unlatch => {
            out.append("    IF ");
            out.append(expr);
            out.append(" THEN ");
            out.append(coil.var.as_str());
            out.append(" := FALSE; END_IF;\n");
        },
    }
}

/// The comment line that introduces a rung in the generated source.
pub open spec fn spec_rung_comment(r: LdRung) -> Seq<char> {
    match r.label {
        Some(l) => "    (* rung "@ + r.id@ + ": "@ + l@ + " *)\n"@,
        None => "    (* rung "@ + r.id@ + " *)\n"@,
    }
}

pub open spec fn no_coils_msg(idx: nat, id: Seq<char>) -> Seq<char> {
    "LD rung "@ + decimal(idx) + " ("@ + id + ") has no coils — a rung with no output is dead code"@
}

/// A rung's ST: its comment, then one statement per coil (through a
/// `__rung_<id>` temporary when there are several), then a blank line.
pub open spec fn spec_emit_rung(r: LdRung, idx: nat) -> Result<Seq<char>, Seq<char>> {
    if r.coils@.len() == 0 {
        Err(no_coils_msg(idx, r.id@))
    } else {
        match spec_render_node(r.logic) {
            None => Err(empty_contact_msg()),
            Some(logic) => {
                let body = if r.coils@.len() == 1 {
                    spec_coil_text(r.coils@[0], logic)
                } else {
                    let tmp = "__rung_"@ + spec_sanitise_ident(r.id@);
                    "    "@ + tmp + " := "@ + logic + ";\n"@ + spec_coils_text(r.coils@, tmp)
                };
                Ok(spec_rung_comment(r) + body + "\n"@)
            },
        }
    }
}

/// All rungs in order; the first failing rung decides the error.
pub open spec fn spec_emit_rungs(rungs: Seq<LdRung>) -> Result<Seq<char>, Seq<char>>
    decreases rungs.len(),
{
    if rungs.len() == 0 {
        Ok(Seq::empty())
    } else {
        match spec_emit_rungs(rungs.drop_last()) {
            Err(e) => Err(e),
            Ok(t) => match spec_emit_rung(rungs.last(), (rungs.len() - 1) as nat) {
                Err(e) => Err(e),
                Ok(r) => Ok(t + r),
            },
        }
    }
}

fn rung_comment(rung: &LdRung) -> (s: String)
    ensures
        s@ == spec_rung_comment(*rung),
{
    let mut s = String::from_str("    (* rung ");
    s.append(rung.id.as_str());
    match &rung.label {
        Some(label) => {
            s.append(": ");
            s.append(label.as_str());
            s.append(" *)\n");
        },
        None => {
            s.append(" *)\n");
        },
    }
    s
}

fn multi_coil_body(rung: &LdRung, logic: &str) -> (s: String)
    ensures
        s@ == ({
            let tmp = "__rung_"@ + spec_sanitise_ident(rung.id@);
            "    "@ + tmp + " := "@ + logic@ + ";\n"@ + spec_coils_text(rung.coils@, tmp)
        }),
{
    let mut tmp = String::from_str("__rung_");
    let sid = sanitise_ident(rung.id.as_str());
    tmp.append(sid.as_str());
    let mut out = String::from_str("    ");
    out.append(tmp.as_str());
    out.append(" := ");
    out.append(logic);
    out.append(";\n");
    let ghost before_coils = out@;
    let mut k: usize = 0;
    while k < rung.coils.len()
        invariant
            k <= rung.coils.len(),
            out@ == before_coils + spec_coils_text(rung.coils@.take(k as int), tmp@),
        decreases rung.coils.len() - k,
    {
        emit_coil(&mut out, &rung.coils[k], tmp.as_str());
        assert(rung.coils@.take(k + 1).drop_last() =~= rung.coils@.take(k as int));
        k = k + 1;
    }
    assert(rung.coils@.take(rung.coils.len() as int) =~= rung.coils@);
    out
}

fn emit_rung(out: &mut String, rung: &LdRung, idx: usize) -> (r: Result<(), BridgeError>)
    ensures
        match r {
            Ok(()) => spec_emit_rung(*rung, idx as nat) matches Ok(t) && final(out)@ == old(out)@
                + t,
            Err(BridgeError::Parse(m)) => spec_emit_rung(*rung, idx as nat) == Err::<Seq<char>, Seq<char>>(m@),
            Err(_) => false,
        },
{
    if rung.coils.len() == 0 {
        let mut m = String::from_str("LD rung ");
        push_decimal(&mut m, idx as u64);
        m.append(" (");
        m.append(rung.id.as_str());
        m.append(") has no coils — a rung with no output is dead code");
        return Err(BridgeError::Parse(m));
    }
    let logic = render_node(&rung.logic)?;
    let comment = rung_comment(rung);
    let body = if rung.coils.len() == 1 {
        let mut b = String::new();
        emit_coil(&mut b, &rung.coils[0], logic.as_str());
        b
    } else {
        multi_coil_body(rung, logic.as_str())
    };
    out.append(comment.as_str());
    out.append(body.as_str());
    out.append("\n");
    Ok(())
}

pub open spec fn section_header(sec: LdVarSection) -> Seq<char> {
    match sec {
        LdVarSection::Input => "VAR_INPUT"@,
        LdVarSection::Output => "VAR_OUTPUT"@,
        LdVarSection::Internal => "VAR"@,
    }
}

/// `        name : TYPE := init;` for a variable.
pub open spec fn spec_var_line(v: LdVariable) -> Seq<char> {
    "        "@ + v.name@ + " : "@ + v.iec_type@ + match v.init {
        Some(i) => " := "@ + i@,
        None => Seq::empty(),
    } + ";\n"@
}

/// The declaration lines of the variables in section `sec`, in order.
pub open spec fn spec_var_lines(vars: Seq<LdVariable>, sec: LdVarSection) -> Seq<char>
    decreases vars.len(),
{
    if vars.len() == 0 {
        Seq::empty()
    } else {
        spec_var_lines(vars.drop_last(), sec) + if vars.last().section == sec {
            spec_var_line(vars.last())
        } else {
            Seq::empty()
        }
    }
}

pub open spec fn spec_var_block(vars: Seq<LdVariable>, sec: LdVarSection) -> Seq<char> {
    "    "@ + section_header(sec) + "\n"@ + spec_var_lines(vars, sec) + "    END_VAR\n"@
}

/// VAR_INPUT, VAR_OUTPUT and VAR, always all three and in that order.
pub open spec fn spec_var_blocks(vars: Seq<LdVariable>) -> Seq<char> {
    spec_var_block(vars, LdVarSection::Input) + spec_var_block(vars, LdVarSection::Output)
        + spec_var_block(vars, LdVarSection::Internal)
}

fn write_var_block(out: &mut String, vars: &Vec<LdVariable>, section: LdVarSection)
    ensures
        final(out)@ == old(out)@ + spec_var_block(vars@, section),
{
    out.append("    ");
    match section {
        LdVarSection::Input => out.append("VAR_INPUT"),
        LdVarSection::Output => out.append("VAR_OUTPUT"),
        LdVarSection::Internal => out.append("VAR"),
    }
    out.append("\n");
    let ghost start = out@;
    let mut i: usize = 0;
    while i < vars.len()
        invariant
            i <= vars.len(),
            out@ == start + spec_var_lines(vars@.take(i as int), section),
        decreases vars.len() - i,
    {
        let v = &vars[i];
        if v.section == section {
            out.append("        ");
            out.append(v.name.as_str());
            out.append(" : ");
            out.append(v.iec_type.as_str());
            match &v.init {
                Some(init) => {
                    out.append(" := ");
                    out.append(init.as_str());
                },
                None => {},
            }
            out.append(";\n");
        }
        assert(vars@.take(i + 1).drop_last() =~= vars@.take(i as int));
        i = i + 1;
    }
    assert(vars@.take(vars.len() as int) =~= vars@);
    out.append("    END_VAR\n");
}

fn write_variable_blocks(out: &mut String, vars: &Vec<LdVariable>)
    ensures
        final(out)@ == old(out)@ + spec_var_blocks(vars@),
{
    write_var_block(out, vars, LdVarSection::Input);
    write_var_block(out, vars, LdVarSection::Output);
    write_var_block(out, vars, LdVarSection::Internal);
}

pub open spec fn pou_head(t: LdPouType) -> Seq<char> {
    match t {
        LdPouType::Program => "PROGRAM"@,
        LdPouType::FunctionBlock => "FUNCTION_BLOCK"@,
    }
}

pub open spec fn pou_foot(t: LdPouType) -> Seq<char> {
    match t {
        LdPouType::Program => "END_PROGRAM"@,
        LdPouType::FunctionBlock => "END_FUNCTION_BLOCK"@,
    }
}

/// The complete ST source for an LD program, or the reason it has none.
pub open spec fn spec_transpile_ld(prog: LdProgram) -> Result<Seq<char>, Seq<char>> {
    if prog.name@.len() == 0 {
        Err("LD program name is empty"@)
    } else if prog.rungs@.len() == 0 {
        Err("LD program '"@ + prog.name@ + "' has no rungs"@)
    } else {
        match spec_emit_rungs(prog.rungs@) {
            Err(e) => Err(e),
            Ok(body) => Ok(pou_head(prog.pou_type) + " "@ + prog.name@ + "\n"@ + spec_var_blocks(
                prog.variables@,
            ) + "\n"@ + body + pou_foot(prog.pou_type) + "\n"@),
        }
    }
}

/// Renders an LD program as a complete ST source ready for the compiler.
/// Errors (always `Parse`) for an unnamed program, a program without
/// rungs, a rung without coils, or a contact without a variable.
pub fn transpile_to_st(prog: &LdProgram) -> (r: Result<String, BridgeError>)
    ensures
        match r {
            Ok(s) => spec_transpile_ld(*prog) == Ok::<Seq<char>, Seq<char>>(s@),
            Err(BridgeError::Parse(m)) => spec_transpile_ld(*prog) == Err::<Seq<char>, Seq<char>>(m@),
            Err(_) => false,
        },
{
    if prog.name.as_str().is_empty() {
        return Err(BridgeError::Parse(String::from_str("LD program name is empty")));
    }
    if prog.rungs.len() == 0 {
        let mut m = String::from_str("LD program '");
        m.append(prog.name.as_str());
        m.append("' has no rungs");
        return Err(BridgeError::Parse(m));
    }
    let mut out = String::new();
    match prog.pou_type {
        LdPouType::Program => out.append("PROGRAM"),
        LdPouType::FunctionBlock => out.append("FUNCTION_BLOCK"),
    }
    out.append(" ");
    out.append(prog.name.as_str());
    out.append("\n");
    write_variable_blocks(&mut out, &prog.variables);
    out.append("\n");
    let ghost head = out@;
    let mut idx: usize = 0;
    while idx < prog.rungs.len()
        invariant
            idx <= prog.rungs.len(),
            prog.name@.len() != 0,
            spec_emit_rungs(prog.rungs@.take(idx as int)) matches Ok(t) && out@ == head + t,
        decreases prog.rungs.len() - idx,
    {
        assert(prog.rungs@.take(idx + 1).drop_last() =~= prog.rungs@.take(idx as int));
        assert(prog.rungs@.take(idx + 1).last() == prog.rungs@[idx as int]);
        let r = emit_rung(&mut out, &prog.rungs[idx], idx);
        match r {
            Ok(()) => {},
            Err(BridgeError::Parse(m)) => {
                proof {
                    assert(spec_emit_rungs(prog.rungs@.take(idx + 1)) == Err::<Seq<char>, Seq<char>>(m@));
                    lemma_emit_rungs_prefix_fails(prog.rungs@, (idx + 1) as int);
                }
                return Err(BridgeError::Parse(m));
            },
            Err(e) => {
                return Err(e);
            },
        }
        idx = idx + 1;
    }
    assert(prog.rungs@.take(prog.rungs.len() as int) =~= prog.rungs@);
    match prog.pou_type {
        LdPouType::Program => out.append("END_PROGRAM"),
        LdPouType::FunctionBlock => out.append("END_FUNCTION_BLOCK"),
    }
    out.append("\n");
    Ok(out)
}

/// Once a prefix of rungs fails, the whole program fails with that error.
proof fn lemma_emit_rungs_prefix_fails(rungs: Seq<LdRung>, k: int)
    requires
        0 <= k <= rungs.len(),
        spec_emit_rungs(rungs.take(k)) is Err,
    ensures
        spec_emit_rungs(rungs) == spec_emit_rungs(rungs.take(k)),
    decreases rungs.len() - k,
{
    if k < rungs.len() {
        assert(rungs.take(k + 1).drop_last() =~= rungs.take(k));
        lemma_emit_rungs_prefix_fails(rungs, k + 1);
    } else {
        assert(rungs.take(k) =~= rungs);
    }
}

/// Whether a boolean network holds a contact without a variable.
pub open spec fn has_empty_contact(n: LdNode) -> bool
    decreases n, 2int,
{
    match n {
        LdNode::Contact { var, .. } => var@.len() == 0,
        LdNode::And { args } => any_empty_contact(args@),
        LdNode::Or { args } => any_empty_contact(args@),
        LdNode::Not { arg } => has_empty_contact(*arg),
        LdNode::Const { .. } => false,
    }
}

/// Whether one of the branches holds a contact without a variable.
pub open spec fn any_empty_contact(args: Seq<LdNode>) -> bool
    decreases args, 0int,
{
    if args.len() == 0 {
        false
    } else {
        any_empty_contact(args.drop_last()) || has_empty_contact(args.last())
    }
}

proof fn lemma_node_renders(n: LdNode)
    ensures
        spec_render_node(n) is None <==> has_empty_contact(n),
    decreases n, 2int,
{
    match n {
        LdNode::And { args } => lemma_combine_renders(args@, "AND"@, "TRUE"@),
        LdNode::Or { args } => lemma_combine_renders(args@, "OR"@, "FALSE"@),
        LdNode::Not { arg } => lemma_node_renders(*arg),
        _ => {},
    }
}

proof fn lemma_combine_renders(args: Seq<LdNode>, op: Seq<char>, identity: Seq<char>)
    ensures
        spec_combine(args, op, identity) is None <==> any_empty_contact(args),
    decreases args, 1int,
{
    if args.len() == 1 {
        lemma_node_renders(args[0]);
        assert(args.drop_last().len() == 0);
        assert(!any_empty_contact(args.drop_last()));
        assert(args.last() == args[0]);
    } else if args.len() > 1 {
        lemma_all_renders(args);
    }
}

proof fn lemma_all_renders(args: Seq<LdNode>)
    ensures
        spec_render_all(args) is None <==> any_empty_contact(args),
    decreases args, 0int,
{
    if args.len() > 0 {
        lemma_all_renders(args.drop_last());
        lemma_node_renders(args.last());
    }
}

/// Whether a rung cannot be emitted: it has no coil, or its network has a
/// contact without a variable.
pub open spec fn bad_rung(r: LdRung) -> bool {
    r.coils@.len() == 0 || has_empty_contact(r.logic)
}

proof fn lemma_rungs_emit(rungs: Seq<LdRung>)
    ensures
        spec_emit_rungs(rungs) is Err <==> exists|i: int| 0 <= i < rungs.len() && #[trigger] bad_rung(
            rungs[i],
        ),
    decreases rungs.len(),
{
    if rungs.len() > 0 {
        let init = rungs.drop_last();
        lemma_rungs_emit(init);
        lemma_node_renders(rungs.last().logic);
        let last = rungs.last();
        assert(spec_emit_rung(last, (rungs.len() - 1) as nat) is Err <==> bad_rung(last));
        if bad_rung(last) {
            assert(bad_rung(rungs[rungs.len() - 1]));
        }
        if exists|i: int| 0 <= i < init.len() && #[trigger] bad_rung(init[i]) {
            let i = choose|i: int| 0 <= i < init.len() && #[trigger] bad_rung(init[i]);
            assert(rungs[i] == init[i]);
        }
        if exists|i: int| 0 <= i < rungs.len() && #[trigger] bad_rung(rungs[i]) {
            let i = choose|i: int| 0 <= i < rungs.len() && #[trigger] bad_rung(rungs[i]);
            if i < rungs.len() - 1 {
                assert(init[i] == rungs[i]);
            }
        }
    }
}

/// An LD program fails to transpile exactly when it is unnamed, has no
/// rung, or has a rung without a coil or with a contact that names no
/// variable. Its text opens with `PROGRAM <name>` (or `FUNCTION_BLOCK
/// <name>`) on a line of its own and closes with the matching
/// `END_PROGRAM` (`END_FUNCTION_BLOCK`) line.
pub proof fn ld_transpile_fails_exactly(prog: LdProgram)
    ensures
        spec_transpile_ld(prog) is Err <==> (prog.name@.len() == 0 || prog.rungs@.len() == 0
            || exists|i: int| 0 <= i < prog.rungs@.len() && #[trigger] bad_rung(prog.rungs@[i])),
        spec_transpile_ld(prog) matches Ok(st) ==> ({
            let h = pou_head(prog.pou_type) + " "@ + prog.name@ + "\n"@;
            let f = pou_foot(prog.pou_type) + "\n"@;
            &&& st.len() >= h.len() + f.len()
            &&& st.subrange(0, h.len() as int) == h
            &&& st.subrange(st.len() - f.len(), st.len() as int) == f
        }),
{
    lemma_rungs_emit(prog.rungs@);
    if let Ok(st) = spec_transpile_ld(prog) {
        let h = pou_head(prog.pou_type) + " "@ + prog.name@ + "\n"@;
        let f = pou_foot(prog.pou_type) + "\n"@;
        if let Ok(body) = spec_emit_rungs(prog.rungs@) {
            let mid = spec_var_blocks(prog.variables@) + "\n"@ + body;
            assert(st =~= h + mid + f);
            assert((h + mid + f).subrange(0, h.len() as int) =~= h);
            assert((h + mid + f).subrange(st.len() - f.len(), st.len() as int) =~= f);
        }
    }
}

// ----- A coil says the same alone and among several -----

/// The statements a rung emits for its coils: its text without the rung
/// comment and the closing blank line; empty when it emits nothing.
pub open spec fn rung_statements(r: LdRung, idx: nat) -> Seq<char> {
    match spec_emit_rung(r, idx) {
        Ok(t) => t.subrange(spec_rung_comment(r).len() as int, t.len() - 1),
        Err(_) => Seq::empty(),
    }
}

proof fn lemma_coils_text_flat(cs: Seq<LdCoil>, expr: Seq<char>)
    ensures
        spec_coils_text(cs, expr) == Seq::new(cs.len(), |k: int| spec_coil_text(cs[k], expr)).flatten_alt(),
    decreases cs.len(),
{
    let parts = Seq::new(cs.len(), |k: int| spec_coil_text(cs[k], expr));
    if cs.len() > 0 {
        lemma_coils_text_flat(cs.drop_last(), expr);
        assert(parts.drop_last() =~= Seq::new(
            cs.drop_last().len(),
            |k: int| spec_coil_text(cs.drop_last()[k], expr),
        ));
        assert(parts.last() == spec_coil_text(cs.last(), expr));
    } else {
        assert(parts.len() == 0);
    }
}

/// Each coil of a rung with several coils contributes exactly the
/// statement it contributes as the only coil of a rung whose network is
/// the `__rung_<id>` temporary: a rung with several coils emits its
/// comment, the temporary's assignment, then for each coil in order what
/// a one-coil rung (same id and label, a network reading the temporary)
/// emits, then a blank line.
pub proof fn coil_statements_as_if_alone(r: LdRung, idx: nat, ones: Seq<LdRung>)
    requires
        r.coils@.len() >= 2,
        spec_render_node(r.logic) is Some,
        ones.len() == r.coils@.len(),
        forall|k: int|
            0 <= k < ones.len() ==> (#[trigger] ones[k]).id == r.id && ones[k].label == r.label
                && ones[k].coils@ == seq![r.coils@[k]] && spec_render_node(ones[k].logic) == Some(
                "__rung_"@ + spec_sanitise_ident(r.id@),
            ),
    ensures
        spec_emit_rung(r, idx) == Ok::<Seq<char>, Seq<char>>(
            spec_rung_comment(r) + "    "@ + "__rung_"@ + spec_sanitise_ident(r.id@) + " := "@
                + spec_render_node(r.logic)->Some_0 + ";\n"@ + Seq::new(
                ones.len(),
                |k: int| rung_statements(ones[k], idx),
            ).flatten_alt() + "\n"@,
        ),
{
    let tmp = "__rung_"@ + spec_sanitise_ident(r.id@);
    let cs = r.coils@;
    lemma_coils_text_flat(cs, tmp);
    assert forall|k: int| 0 <= k < ones.len() implies rung_statements(#[trigger] ones[k], idx)
        == spec_coil_text(cs[k], tmp) by {
        let o = ones[k];
        assert(o.coils@.len() == 1 && o.coils@[0] == cs[k]);
        assert(spec_rung_comment(o) == spec_rung_comment(r));
        let c = spec_rung_comment(o);
        let body = spec_coil_text(cs[k], tmp);
        let t = c + body + "\n"@;
        assert(spec_emit_rung(o, idx) == Ok::<Seq<char>, Seq<char>>(t));
        reveal_strlit("\n");
        assert("\n"@.len() == 1);
        assert(t.subrange(c.len() as int, t.len() - 1) =~= body);
    }
    assert(Seq::new(ones.len(), |k: int| rung_statements(ones[k], idx)) =~= Seq::new(
        cs.len(),
        |k: int| spec_coil_text(cs[k], tmp),
    ));
    let logic = spec_render_node(r.logic)->Some_0;
    assert(spec_rung_comment(r) + ("    "@ + tmp + " := "@ + logic + ";\n"@ + spec_coils_text(cs, tmp))
        + "\n"@ =~= spec_rung_comment(r) + "    "@ + "__rung_"@ + spec_sanitise_ident(r.id@) + " := "@
        + logic + ";\n"@ + spec_coils_text(cs, tmp) + "\n"@);
}

} // verus!
