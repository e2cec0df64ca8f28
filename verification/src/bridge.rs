//! What the compiler bridge computes around the compiler itself: the
//! CONFIGURATION block synthesised from the project's tasks, the clean-up
//! of POU sources, the diagnostics it reports when a graphical POU cannot
//! even be lowered to ST, and the mapping of diagnostic lines back to
//! diagram elements.
use vstd::prelude::*;

use crate::errors::BridgeError;
use crate::fbd::FbdProgram;
use crate::fbd_transpile::{
    fbd_transpile, lines_map, lines_text, loc_view, map_view, opt_loc_view, transpile_to_st_with_map,
    FbdLocation, FbdSourceMap, StLine,
};
use crate::ld::{LdPouType, LdProgram, LdVarSection, LdVariable};
use crate::ld_transpile::spec_transpile_ld;
use crate::store::{leaf_segment, leaf_segment_of, strip_configs, strip_inline_configuration};
use crate::text::{decimal, first_index, int_decimal, push_decimal, push_int_decimal};
use crate::types::{PouDecl, PouLanguage, PouType, ProgramInstance, Task, Tasks};

verus! {

/// Per-program facts the runtime needs that the bytecode does not keep.
#[derive(Debug, Clone)]
pub struct ProgramMetadata {
    /// Lower-cased names of the variables declared `RETAIN`.
    pub retain_vars: Vec<String>,
}

impl Default for ProgramMetadata {
    fn default() -> (r: Self)
        ensures
            r.retain_vars@.len() == 0,
    {
        ProgramMetadata { retain_vars: Vec::new() }
    }
}

/// One diagnostic with 1-based source positions.
#[derive(Debug, Clone)]
pub struct CheckDiagnostic {
    pub severity: String,
    pub code: String,
    pub message: String,
    pub start_line: u32,
    pub start_column: u32,
    pub end_line: u32,
    pub end_column: u32,
    /// Extra context fragments such as `variable=ghost`.
    pub context: Vec<String>,
    /// Secondary labels ("did you mean ...", "first declared here").
    pub related: Vec<DiagnosticRelated>,
    /// The problem code's documentation, title removed.
    pub explanation: Option<String>,
    /// For FBD POUs: the diagram element the reported line came from.
    pub fbd_location: Option<FbdLocation>,
}

/// A secondary label of a diagnostic.
#[derive(Debug, Clone)]
pub struct DiagnosticRelated {
    pub message: String,
    pub start_line: u32,
    pub start_column: u32,
    pub end_line: u32,
    pub end_column: u32,
    pub fbd_location: Option<FbdLocation>,
}

/// One declared variable of a POU, offered for completion.
#[derive(Debug, Clone)]
pub struct VariableInfo {
    pub name: String,
    pub iec_type: String,
    /// `local`, `input`, `output`, `in_out`, `external`, `global`,
    /// `access`, `temp` (ST) or `input`, `output`, `internal` (graphical).
    pub direction: String,
}

/// IEC names of tasks, instances and programs are the last segment of a
/// project path.
pub fn sanitise_ident(name: &str) -> (r: String)
    ensures
        r@ == leaf_segment_of(name@),
{
    leaf_segment(name)
}

pub open spec fn task_line(t: Task) -> Seq<char> {
    "        TASK "@ + leaf_segment_of(t.name@) + "(INTERVAL := T#"@ + decimal(
        if t.interval_ms == 0 {
            1nat
        } else {
            t.interval_ms as nat
        },
    ) + "ms, PRIORITY := "@ + int_decimal(t.priority as int) + ");\n"@
}

pub open spec fn program_line(p: ProgramInstance) -> Seq<char> {
    "        PROGRAM "@ + leaf_segment_of(p.instance@) + " WITH "@ + leaf_segment_of(p.task@)
        + " : "@ + leaf_segment_of(p.program@) + ";\n"@
}

pub open spec fn task_lines(ts: Seq<Task>) -> Seq<char>
    decreases ts.len(),
{
    if ts.len() == 0 {
        Seq::empty()
    } else {
        task_lines(ts.drop_last()) + task_line(ts.last())
    }
}

pub open spec fn program_lines(ps: Seq<ProgramInstance>) -> Seq<char>
    decreases ps.len(),
{
    if ps.len() == 0 {
        Seq::empty()
    } else {
        program_lines(ps.drop_last()) + program_line(ps.last())
    }
}

/// The single-resource CONFIGURATION declaring every task (interval at
/// least 1 ms) and every program instance of the project.
pub open spec fn configuration_text(tasks: Tasks) -> Seq<char> {
    "CONFIGURATION config\n    RESOURCE plc_res ON PLC\n"@ + task_lines(tasks.tasks@) + program_lines(
        tasks.programs@,
    ) + "    END_RESOURCE\nEND_CONFIGURATION\n"@
}

pub fn synthesize_configuration(tasks: &Tasks) -> (s: String)
    ensures
        s@ == configuration_text(*tasks),
{
    let mut s = String::from_str("CONFIGURATION config\n    RESOURCE plc_res ON PLC\n");
    let ghost head = s@;
    let mut i: usize = 0;
    while i < tasks.tasks.len()
        invariant
            i <= tasks.tasks.len(),
            s@ == head + task_lines(tasks.tasks@.take(i as int)),
        decreases tasks.tasks.len() - i,
    {
        let t = &tasks.tasks[i];
        assert(tasks.tasks@.take(i + 1).drop_last() =~= tasks.tasks@.take(i as int));
        assert(tasks.tasks@.take(i + 1).last() == *t);
        let ghost before = s@;
        s.append("        TASK ");
        s.append(sanitise_ident(t.name.as_str()).as_str());
        s.append("(INTERVAL := T#");
        let interval: u32 = if t.interval_ms == 0 {
            1
        } else {
            t.interval_ms
        };
        push_decimal(&mut s, interval as u64);
        s.append("ms, PRIORITY := ");
        push_int_decimal(&mut s, t.priority as i64);
        s.append(");\n");
        assert(s@ =~= before + task_line(*t));
        i = i + 1;
    }
    assert(tasks.tasks@.take(tasks.tasks.len() as int) =~= tasks.tasks@);
    let ghost mid = s@;
    let mut i: usize = 0;
    assert(mid + program_lines(tasks.programs@.take(0)) =~= mid);
    while i < tasks.programs.len()
        invariant
            i <= tasks.programs.len(),
            s@ == mid + program_lines(tasks.programs@.take(i as int)),
        decreases tasks.programs.len() - i,
    {
        let p = &tasks.programs[i];
        assert(tasks.programs@.take(i + 1).drop_last() =~= tasks.programs@.take(i as int));
        assert(tasks.programs@.take(i + 1).last() == *p);
        let ghost before = s@;
        s.append("        PROGRAM ");
        s.append(sanitise_ident(p.instance.as_str()).as_str());
        s.append(" WITH ");
        s.append(sanitise_ident(p.task.as_str()).as_str());
        s.append(" : ");
        s.append(sanitise_ident(p.program.as_str()).as_str());
        s.append(";\n");
        assert(s@ =~= before + program_line(*p));
        i = i + 1;
    }
    assert(tasks.programs@.take(tasks.programs.len() as int) =~= tasks.programs@);
    s.append("    END_RESOURCE\nEND_CONFIGURATION\n");
    s
}

/// Removes any leftover CONFIGURATION block from a POU source before the
/// project-level one is appended.
pub fn strip_any_configuration(source: &str) -> (r: String)
    ensures
        r@ == strip_configs(source@, 0),
{
    strip_inline_configuration(source)
}

/// The `direction` a graphical POU's variable section is reported as.
pub fn ld_section_str(s: LdVarSection) -> (r: &'static str)
    ensures
        r@ == match s {
            LdVarSection::Input => "input"@,
            LdVarSection::Output => "output"@,
            LdVarSection::Internal => "internal"@,
        },
{
    match s {
        LdVarSection::Input => "input",
        LdVarSection::Output => "output",
        LdVarSection::Internal => "internal",
    }
}

/// What `format!("{:?}", s)` prints for a string: Rust's quoted, escaped
/// debug form.
pub uninterp spec fn str_debug(s: Seq<char>) -> Seq<char>;

/// Calls `<str as Debug>::fmt` through `format!`; the result is named
/// `str_debug`.
#[verifier::external_body]
fn debug_of_str(s: &str) -> (r: String)
    ensures
        r@ == str_debug(s@),
{
    format!("{:?}", s)
}

/// `Parse("...")`: the debug rendering of a parse error.
pub open spec fn parse_error_debug(m: Seq<char>) -> Seq<char> {
    "Parse("@ + str_debug(m) + ")"@
}

/// The debug rendering of a bridge error, `Parse("...")` and the like.
pub open spec fn bridge_error_debug(e: BridgeError) -> Seq<char> {
    match e {
        BridgeError::Parse(m) => parse_error_debug(m@),
        BridgeError::Analyze(m) => "Analyze("@ + str_debug(m@) + ")"@,
        BridgeError::Codegen(m) => "Codegen("@ + str_debug(m@) + ")"@,
    }
}

pub fn bridge_error_text(e: &BridgeError) -> (r: String)
    ensures
        r@ == bridge_error_debug(*e),
{
    let (mut s, payload) = match e {
        BridgeError::Parse(m) => (String::from_str("Parse("), m),
        BridgeError::Analyze(m) => (String::from_str("Analyze("), m),
        BridgeError::Codegen(m) => (String::from_str("Codegen("), m),
    };
    s.append(debug_of_str(payload.as_str()).as_str());
    s.append(")");
    s
}

/// An `error` diagnostic at a position with nothing else attached.
pub open spec fn is_plain_error(d: CheckDiagnostic, code: Seq<char>, message: Seq<char>) -> bool {
    &&& d.severity@ == "error"@
    &&& d.code@ == code
    &&& d.message@ == message
    &&& d.context@.len() == 0
    &&& d.related@.len() == 0
    &&& d.explanation is None
    &&& d.fbd_location is None
}

/// The diagnostic reported when a graphical POU cannot be lowered to ST:
/// the transpiler's error, at line 1, column 1.
pub fn synthetic_transpile_diag(code: &str, e: &BridgeError) -> (d: CheckDiagnostic)
    ensures
        is_plain_error(d, code@, bridge_error_debug(*e)),
        d.start_line == 1 && d.start_column == 1 && d.end_line == 1 && d.end_column == 1,
{
    CheckDiagnostic {
        severity: String::from_str("error"),
        code: code.to_string(),
        message: bridge_error_text(e),
        start_line: 1,
        start_column: 1,
        end_line: 1,
        end_column: 1,
        context: Vec::new(),
        related: Vec::new(),
        explanation: None,
        fbd_location: None,
    }
}

/// The diagnostic reported when a graphical POU's JSON does not parse:
/// `Invalid <language> JSON: <error>` at the parser's line and column
/// (narrowed to `u32` as the wire format has them), one column wide.
pub fn synthetic_parse_diag(
    code: &str,
    language_name: &str,
    error_text: &str,
    line: usize,
    column: usize,
) -> (d: CheckDiagnostic)
    ensures
        is_plain_error(d, code@, "Invalid "@ + language_name@ + " JSON: "@ + error_text@),
        d.start_line == line as u32,
        d.start_column == column as u32,
        d.end_line == line as u32,
        d.end_column == if column as u32 == u32::MAX {
            u32::MAX
        } else {
            (column as u32 + 1) as u32
        },
{
    let mut message = String::from_str("Invalid ");
    message.append(language_name);
    message.append(" JSON: ");
    message.append(error_text);
    let l: u32 = line as u32;
    let c: u32 = column as u32;
    let end_c: u32 = if c == u32::MAX {
        u32::MAX
    } else {
        c + 1
    };
    CheckDiagnostic {
        severity: String::from_str("error"),
        code: code.to_string(),
        message,
        start_line: l,
        start_column: c,
        end_line: l,
        end_column: end_c,
        context: Vec::new(),
        related: Vec::new(),
        explanation: None,
        fbd_location: None,
    }
}

/// A copy of a source-map location.
pub fn copy_location(l: &FbdLocation) -> (r: FbdLocation)
    ensures
        loc_view(r) == loc_view(*l),
{
    match l {
        FbdLocation::Variable { name } => FbdLocation::Variable { name: name.clone() },
        FbdLocation::Block { block_id } => FbdLocation::Block { block_id: block_id.clone() },
        FbdLocation::Output { variable } => FbdLocation::Output { variable: variable.clone() },
    }
}

/// The diagram element behind 1-based ST line `line`, when the checked
/// source came from an FBD POU (`map`).
pub fn lookup_locations(map: Option<&FbdSourceMap>, line: usize) -> (r: Option<FbdLocation>)
    ensures
        match map {
            None => r is None,
            Some(m) => opt_loc_view(r) == (if 1 <= line <= m.lines@.len() {
                opt_loc_view(m.lines@[line - 1])
            } else {
                None
            }),
        },
{
    match map {
        None => None,
        Some(m) => match m.lookup(line) {
            Some(l) => Some(copy_location(l)),
            None => None,
        },
    }
}

/// What the IEC analyzer is handed for an FBD POU: its ST and source map, or
/// the `FBD-TRANSPILE` diagnostic when it has none.
pub fn fbd_check_source(prog: &FbdProgram) -> (r: Result<(String, FbdSourceMap), CheckDiagnostic>)
    ensures
        match r {
            Ok((st, map)) => fbd_transpile(*prog) matches Ok(ls) && st@ == lines_text(ls) && map_view(
                map.lines@,
            ) == lines_map(ls),
            Err(d) => fbd_transpile(*prog) matches Err(m) && is_plain_error(
                d,
                "FBD-TRANSPILE"@,
                parse_error_debug(m),
            ) && d.start_line == 1 && d.start_column == 1 && d.end_line == 1 && d.end_column == 1,
        },
{
    match transpile_to_st_with_map(prog) {
        Ok(pair) => Ok(pair),
        Err(e) => {
            let d = synthetic_transpile_diag("FBD-TRANSPILE", &e);
            Err(d)
        },
    }
}


/// What the IEC analyzer is handed for an LD POU: its ST, or the
/// `LD-TRANSPILE` diagnostic when it has none.
pub fn ld_check_source(prog: &LdProgram) -> (r: Result<String, CheckDiagnostic>)
    ensures
        match r {
            Ok(st) => spec_transpile_ld(*prog) == Ok::<Seq<char>, Seq<char>>(st@),
            Err(d) => spec_transpile_ld(*prog) matches Err(m) && is_plain_error(
                d,
                "LD-TRANSPILE"@,
                parse_error_debug(m),
            ) && d.start_line == 1 && d.start_column == 1 && d.end_line == 1 && d.end_column == 1,
        },
{
    match crate::ld_transpile::transpile_to_st(prog) {
        Ok(st) => Ok(st),
        Err(e) => Err(synthetic_transpile_diag("LD-TRANSPILE", &e)),
    }
}


// ----- Assembling what is compiled -----

/// The refusal of a project run with no program instance scheduled.
pub open spec fn no_programs_message() -> Seq<char> {
    "no PROGRAM instances to run \u{2014} bind a PROGRAM to a task in the Tasks pane, or click Run from a POU file's editor (which schedules that PROGRAM ad-hoc for one run)"@
}

/// `acc` ending in a newline.
pub open spec fn with_newline(acc: Seq<char>) -> Seq<char> {
    if acc.len() > 0 && acc.last() == '\n' {
        acc
    } else {
        acc.push('\n')
    }
}

/// The POU sources, each without its own CONFIGURATION and ending in a
/// newline, one after another.
pub open spec fn combined_pous(sources: Seq<Seq<char>>) -> Seq<char>
    decreases sources.len(),
{
    if sources.len() == 0 {
        Seq::empty()
    } else {
        with_newline(combined_pous(sources.drop_last()) + strip_configs(sources.last(), 0))
    }
}

fn push_newline_if_missing(s: &mut String)
    ensures
        final(s)@ == with_newline(old(s)@),
{
    let v = crate::text::chars_of(s.as_str());
    if v.len() == 0 || v[v.len() - 1] != '\n' {
        crate::text::push_char(s, '\n');
    }
}

/// The whole project as one ST source: every POU (given as ST) cleaned of
/// its own CONFIGURATION, then the project's CONFIGURATION. Refused when
/// no program instance is scheduled.
pub fn combine_project_sources(st_sources: &Vec<String>, tasks: &Tasks) -> (r: Result<String, BridgeError>)
    ensures
        tasks.programs@.len() == 0 ==> (r matches Err(BridgeError::Parse(m)) && m@
            == no_programs_message()),
        tasks.programs@.len() > 0 ==> (r matches Ok(s) && s@ == combined_pous(
            crate::text::views(st_sources@),
        ) + configuration_text(*tasks)),
{
    if tasks.programs.len() == 0 {
        return Err(BridgeError::Parse(String::from_str(
            "no PROGRAM instances to run \u{2014} bind a PROGRAM to a task in the Tasks pane, or click Run from a POU file's editor (which schedules that PROGRAM ad-hoc for one run)",
        )));
    }
    let ghost srcs = crate::text::views(st_sources@);
    let mut combined = String::new();
    let mut i: usize = 0;
    assert(srcs.take(0) =~= Seq::<Seq<char>>::empty());
    while i < st_sources.len()
        invariant
            i <= st_sources@.len(),
            srcs == crate::text::views(st_sources@),
            combined@ == combined_pous(srcs.take(i as int)),
        decreases st_sources@.len() - i,
    {
        assert(srcs.take(i + 1).drop_last() =~= srcs.take(i as int));
        assert(srcs.take(i + 1).last() == st_sources@[i as int]@);
        let cleaned = strip_any_configuration(st_sources[i].as_str());
        combined.append(cleaned.as_str());
        push_newline_if_missing(&mut combined);
        i = i + 1;
    }
    assert(srcs.take(st_sources@.len() as int) =~= srcs);
    let config = synthesize_configuration(tasks);
    combined.append(config.as_str());
    Ok(combined)
}

/// One POU on its own, with the given tasks' CONFIGURATION: what an ad-hoc
/// run compiles. Refused when no program instance is given.
pub fn isolated_source(st: &str, tasks: &Tasks) -> (r: Result<String, BridgeError>)
    ensures
        tasks.programs@.len() == 0 ==> (r matches Err(BridgeError::Parse(m)) && m@
            == "no PROGRAM instance to run"@),
        tasks.programs@.len() > 0 ==> (r matches Ok(s) && s@ == with_newline(strip_configs(st@, 0))
            + configuration_text(*tasks)),
{
    if tasks.programs.len() == 0 {
        return Err(BridgeError::Parse(String::from_str("no PROGRAM instance to run")));
    }
    let mut combined = strip_any_configuration(st);
    push_newline_if_missing(&mut combined);
    let config = synthesize_configuration(tasks);
    combined.append(config.as_str());
    Ok(combined)
}

/// A compile error of one program instance, naming the instance.
pub fn tag_with_instance(instance: &str, e: BridgeError) -> (r: BridgeError)
    ensures
        match (e, r) {
            (BridgeError::Parse(m), BridgeError::Parse(t)) => t@ == "instance '"@ + instance@ + "': "@
                + m@,
            (BridgeError::Analyze(m), BridgeError::Analyze(t)) => t@ == "instance '"@ + instance@
                + "': "@ + m@,
            (BridgeError::Codegen(m), BridgeError::Codegen(t)) => t@ == "instance '"@ + instance@
                + "': "@ + m@,
            _ => false,
        },
{
    let tag = |m: String| -> (t: String)
        ensures
            t@ == "instance '"@ + instance@ + "': "@ + m@,
        {
            let mut t = String::from_str("instance '");
            t.append(instance);
            t.append("': ");
            t.append(m.as_str());
            t
        };
    match e {
        BridgeError::Parse(m) => BridgeError::Parse(tag(m)),
        BridgeError::Analyze(m) => BridgeError::Analyze(tag(m)),
        BridgeError::Codegen(m) => BridgeError::Codegen(tag(m)),
    }
}


// ----- Planning one compile per program instance -----

/// What `str::to_lowercase` makes of a text (full Unicode lower-casing).
pub uninterp spec fn unicode_lowercase(s: Seq<char>) -> Seq<char>;

/// Lower-cases a text (`str::to_lowercase`).
#[verifier::external_body]
pub(crate) fn to_lowercase(s: &str) -> (r: String)
    ensures
        r@ == unicode_lowercase(s@),
{
    s.to_lowercase()
}

/// One program instance as it is compiled and scheduled.
#[derive(Debug, Clone)]
pub struct UnitPlan {
    /// The instance's IEC name.
    pub instance: String,
    /// The task named in the task list.
    pub task_name: String,
    /// Which of the declared programs the instance runs.
    pub program_index: usize,
    pub interval_ms: u64,
    pub priority: i32,
    /// The single-task CONFIGURATION compiled with it.
    pub configuration: String,
}

/// The declared program an instance runs: the first whose name, lower-cased,
/// is the instance's program name (its last path segment), lower-cased.
pub open spec fn program_of(p: ProgramInstance, declared: Seq<Seq<char>>) -> Option<int> {
    first_index(
        declared.map_values(|d: Seq<char>| unicode_lowercase(d)),
        unicode_lowercase(leaf_segment_of(p.program@)),
    )
}

/// The first instance whose program is not declared.
pub open spec fn first_undeclared(ps: Seq<ProgramInstance>, declared: Seq<Seq<char>>) -> Option<int>
    decreases ps.len(),
{
    if ps.len() == 0 {
        None
    } else if program_of(ps[0], declared) is None {
        Some(0)
    } else {
        match first_undeclared(ps.drop_first(), declared) {
            Some(k) => Some(k + 1),
            None => None,
        }
    }
}

/// The task an instance is bound to: the first of that name, or a 100 ms,
/// priority 1 task of that name when the list has none.
pub open spec fn bound_task(p: ProgramInstance, tasks: Seq<Task>) -> (Seq<char>, u32, i32) {
    match first_index(tasks.map_values(|t: Task| t.name@), p.task@) {
        Some(j) => (tasks[j].name@, tasks[j].interval_ms, tasks[j].priority),
        None => (p.task@, 100u32, 1i32),
    }
}

/// The CONFIGURATION of one instance on its task.
pub open spec fn unit_configuration(t: (Seq<char>, u32, i32), p: ProgramInstance) -> Seq<char> {
    "CONFIGURATION config\n    RESOURCE plc_res ON PLC\n"@ + "        TASK "@ + leaf_segment_of(t.0)
        + "(INTERVAL := T#"@ + decimal(
        if t.1 == 0 {
            1nat
        } else {
            t.1 as nat
        },
    ) + "ms, PRIORITY := "@ + int_decimal(t.2 as int) + ");\n"@ + program_line(p)
        + "    END_RESOURCE\nEND_CONFIGURATION\n"@
}

/// The refusal of an instance whose program no POU declares.
pub open spec fn undeclared_message(p: ProgramInstance) -> Seq<char> {
    "PROGRAM '"@ + p.program@ + "' (instance '"@ + p.instance@
        + "') is scheduled in tasks.toml but not declared in any POU file"@
}

/// Whether a plan is the one the task list gives for instance `p`.
pub open spec fn plans_instance(u: UnitPlan, p: ProgramInstance, tasks: Tasks, declared: Seq<Seq<char>>) -> bool {
    let t = bound_task(p, tasks.tasks@);
    &&& u.instance@ == leaf_segment_of(p.instance@)
    &&& u.task_name@ == p.task@
    &&& program_of(p, declared) == Some(u.program_index as int)
    &&& u.interval_ms == t.1
    &&& u.priority == t.2
    &&& u.configuration@ == unit_configuration(t, p)
}

fn find_program(p: &ProgramInstance, lowered: &Vec<String>, declared: Ghost<Seq<Seq<char>>>) -> (r: Option<usize>)
    requires
        crate::text::views(lowered@) == declared@.map_values(|d: Seq<char>| unicode_lowercase(d)),
    ensures
        match r {
            Some(k) => program_of(*p, declared@) == Some(k as int),
            None => program_of(*p, declared@) is None,
        },
{
    let wanted = to_lowercase(sanitise_ident(p.program.as_str()).as_str());
    crate::text::index_of_string(lowered, &wanted)
}

fn resolve_task(p: &ProgramInstance, tasks: &Vec<Task>) -> (r: (String, u32, i32))
    ensures
        (r.0@, r.1, r.2) == bound_task(*p, tasks@),
{
    let ghost names = tasks@.map_values(|t: Task| t.name@);
    let mut j: usize = 0;
    while j < tasks.len()
        invariant
            j <= tasks@.len(),
            names == tasks@.map_values(|t: Task| t.name@),
            forall|k: int| 0 <= k < j ==> names[k] != p.task@,
        decreases tasks@.len() - j,
    {
        if tasks[j].name == p.task {
            proof {
                crate::text::lemma_first_index_at(names, p.task@, j as int);
            }
            return (tasks[j].name.clone(), tasks[j].interval_ms, tasks[j].priority);
        }
        j = j + 1;
    }
    proof {
        crate::text::lemma_first_index_none(names, p.task@);
    }
    (p.task.clone(), 100, 1)
}

/// The compile and schedule of each program instance, in task-list order:
/// which declared program it runs (names compared lower-cased), its task
/// (a 100 ms, priority 1 task when the list names an unknown one) and its
/// own CONFIGURATION. Refused when no instance is scheduled, or at the
/// first instance whose program no POU declares. `declared` holds the
/// names of the programs the POU files declare, in order.
pub fn plan_units(tasks: &Tasks, declared: &Vec<String>) -> (r: Result<Vec<UnitPlan>, BridgeError>)
    ensures
        tasks.programs@.len() == 0 ==> (r matches Err(BridgeError::Parse(m)) && m@
            == no_programs_message()),
        tasks.programs@.len() > 0 ==> match first_undeclared(tasks.programs@, crate::text::views(declared@)) {
            Some(k) => r matches Err(BridgeError::Parse(m)) && m@ == undeclared_message(
                tasks.programs@[k],
            ),
            None => r matches Ok(plans) && plans@.len() == tasks.programs@.len() && forall|i: int|
                0 <= i < plans@.len() ==> plans_instance(
                    #[trigger] plans@[i],
                    tasks.programs@[i],
                    *tasks,
                    crate::text::views(declared@),
                ),
        },
{
    if tasks.programs.len() == 0 {
        return Err(BridgeError::Parse(String::from_str(
            "no PROGRAM instances to run \u{2014} bind a PROGRAM to a task in the Tasks pane, or click Run from a POU file's editor (which schedules that PROGRAM ad-hoc for one run)",
        )));
    }
    let ghost dv = crate::text::views(declared@);
    let mut lowered: Vec<String> = Vec::new();
    let mut d: usize = 0;
    while d < declared.len()
        invariant
            d <= declared@.len(),
            dv == crate::text::views(declared@),
            crate::text::views(lowered@) == dv.take(d as int).map_values(|x: Seq<char>| unicode_lowercase(x)),
        decreases declared@.len() - d,
    {
        let l = to_lowercase(declared[d].as_str());
        proof {
            crate::text::lemma_views_push(lowered@, l);
        }
        lowered.push(l);
        assert(crate::text::views(lowered@) =~= dv.take(d + 1).map_values(|x: Seq<char>| unicode_lowercase(x)));
        d = d + 1;
    }
    assert(dv.take(declared@.len() as int) =~= dv);
    let ghost ps = tasks.programs@;
    let mut plans: Vec<UnitPlan> = Vec::new();
    let mut i: usize = 0;
    while i < tasks.programs.len()
        invariant
            i <= ps.len(),
            ps == tasks.programs@,
            dv == crate::text::views(declared@),
            crate::text::views(lowered@) == dv.map_values(|x: Seq<char>| unicode_lowercase(x)),
            plans@.len() == i,
            forall|k: int| 0 <= k < i ==> program_of(#[trigger] ps[k], dv) is Some,
            forall|k: int| 0 <= k < i ==> plans_instance(#[trigger] plans@[k], ps[k], *tasks, dv),
        decreases ps.len() - i,
    {
        let p = &tasks.programs[i];
        match find_program(p, &lowered, Ghost(dv)) {
            None => {
                proof {
                    lemma_first_undeclared(ps, dv, i as int);
                }
                let mut m = String::from_str("PROGRAM '");
                m.append(p.program.as_str());
                m.append("' (instance '");
                m.append(p.instance.as_str());
                m.append("') is scheduled in tasks.toml but not declared in any POU file");
                return Err(BridgeError::Parse(m));
            },
            Some(k) => {
                let (task_name, interval, priority) = resolve_task(p, &tasks.tasks);
                let one = Tasks {
                    tasks: vec![Task { name: task_name, interval_ms: interval, priority }],
                    programs: vec![
                        ProgramInstance {
                            instance: p.instance.clone(),
                            program: p.program.clone(),
                            task: p.task.clone(),
                        },
                    ],
                };
                let configuration = synthesize_configuration(&one);
                proof {
                    let t = one.tasks@[0];
                    let q = one.programs@[0];
                    assert(one.tasks@.drop_last() =~= Seq::<Task>::empty());
                    assert(one.programs@.drop_last() =~= Seq::<ProgramInstance>::empty());
                    assert(one.tasks@.len() == 1 && one.tasks@.last() == t);
                    assert(task_lines(Seq::<Task>::empty()) =~= Seq::<char>::empty());
                    assert(task_lines(one.tasks@) == task_lines(one.tasks@.drop_last()) + task_line(t));
                    assert(task_lines(one.tasks@) =~= task_line(t));
                    assert(one.programs@.len() == 1 && one.programs@.last() == q);
                    assert(program_lines(Seq::<ProgramInstance>::empty()) =~= Seq::<char>::empty());
                    assert(program_lines(one.programs@) == program_lines(one.programs@.drop_last())
                        + program_line(q));
                    assert(program_lines(one.programs@) =~= program_line(q));
                    assert(program_line(q) == program_line(*p));
                }
                let plan = UnitPlan {
                    instance: sanitise_ident(p.instance.as_str()),
                    task_name: p.task.clone(),
                    program_index: k,
                    interval_ms: interval as u64,
                    priority,
                    configuration,
                };
                assert(plan.configuration@ =~= unit_configuration(bound_task(*p, tasks.tasks@), *p));
                assert(plans_instance(plan, ps[i as int], *tasks, dv));
                plans.push(plan);
            },
        }
        i = i + 1;
    }
    proof {
        lemma_first_undeclared(ps, dv, ps.len() as int);
    }
    Ok(plans)
}

proof fn lemma_first_undeclared(ps: Seq<ProgramInstance>, declared: Seq<Seq<char>>, k: int)
    requires
        0 <= k <= ps.len(),
        forall|j: int| 0 <= j < k ==> program_of(#[trigger] ps[j], declared) is Some,
    ensures
        k < ps.len() && program_of(ps[k], declared) is None ==> first_undeclared(ps, declared) == Some(k),
        k == ps.len() ==> first_undeclared(ps, declared) is None,
    decreases k,
{
    if k > 0 {
        assert forall|j: int| 0 <= j < k - 1 implies program_of(#[trigger] ps.drop_first()[j], declared) is Some by {
            assert(ps.drop_first()[j] == ps[j + 1]);
        }
        assert(program_of(ps[0], declared) is Some);
        lemma_first_undeclared(ps.drop_first(), declared, k - 1);
        if k < ps.len() {
            assert(ps.drop_first()[k - 1] == ps[k]);
        }
    }
}


// ----- Diagnostics from the IEC analyzer -----

/// A position as the IEC analyzer reports it: line and column counted from 0.
#[derive(Debug, Clone, Copy, PartialEq, Eq, Structural)]
pub struct SourcePos {
    pub line: u32,
    pub column: u32,
}

/// The file a secondary label points into.
#[derive(Debug, Clone)]
pub enum LabelFile {
    /// The buffer being checked.
    Buffer,
    /// Another file of the project, by path when it has one.
    Other(Option<String>),
}

/// A secondary label of an analyzer diagnostic.
#[derive(Debug, Clone)]
pub struct RawLabel {
    pub file: LabelFile,
    pub message: String,
    pub start: SourcePos,
    pub end: SourcePos,
}

/// An analyzer diagnostic with its positions resolved to lines and columns.
#[derive(Debug, Clone)]
pub struct RawDiagnostic {
    pub code: String,
    pub description: String,
    /// Structured context such as `variable=foo`.
    pub described: Vec<String>,
    pub start: SourcePos,
    pub end: SourcePos,
    pub secondary: Vec<RawLabel>,
}

/// A position fits the 1-based wire format.
pub open spec fn pos_fits(p: SourcePos) -> bool {
    p.line < u32::MAX && p.column < u32::MAX
}

/// The context line a label into another file becomes: `see <path>:
/// <message>` when the file has a path, the message alone otherwise.
pub open spec fn foreign_line(l: RawLabel) -> Seq<char> {
    match l.file {
        LabelFile::Other(Some(p)) => if p@.len() > 0 {
            "see "@ + p@ + ": "@ + l.message@
        } else {
            l.message@
        },
        _ => l.message@,
    }
}

/// The context lines of labels into other files, in order.
pub open spec fn foreign_lines(ls: Seq<RawLabel>) -> Seq<Seq<char>>
    decreases ls.len(),
{
    if ls.len() == 0 {
        Seq::empty()
    } else {
        let rest = foreign_lines(ls.drop_last());
        if ls.last().file is Buffer {
            rest
        } else {
            rest.push(foreign_line(ls.last()))
        }
    }
}

/// A related entry as plain values.
pub type RelatedView = (Seq<char>, u32, u32, u32, u32, Option<crate::fbd_transpile::FbdLocationView>);

pub open spec fn related_view(r: DiagnosticRelated) -> RelatedView {
    (r.message@, r.start_line, r.start_column, r.end_line, r.end_column, opt_loc_view(r.fbd_location))
}

/// The diagram element behind a 1-based line, through an optional map.
pub open spec fn location_at(map: Option<FbdSourceMap>, line: int) -> Option<crate::fbd_transpile::FbdLocationView> {
    match map {
        None => None,
        Some(m) => if 1 <= line <= m.lines@.len() {
            opt_loc_view(m.lines@[line - 1])
        } else {
            None
        },
    }
}

/// The related entries of labels into the checked buffer, in order, with
/// 1-based positions.
pub open spec fn related_entries(ls: Seq<RawLabel>, map: Option<FbdSourceMap>) -> Seq<RelatedView>
    decreases ls.len(),
{
    if ls.len() == 0 {
        Seq::empty()
    } else {
        let rest = related_entries(ls.drop_last(), map);
        let l = ls.last();
        if l.file is Buffer {
            rest.push(
                (
                    l.message@,
                    (l.start.line + 1) as u32,
                    (l.start.column + 1) as u32,
                    (l.end.line + 1) as u32,
                    (l.end.column + 1) as u32,
                    location_at(map, l.start.line + 1),
                ),
            )
        } else {
            rest
        }
    }
}

/// The diagnostic as the editor receives it: 1-based positions, the
/// diagram element behind its line, the IEC analyzer's context followed by a
/// line for every label into another file, a related entry for every
/// label into this buffer, and the problem code's explanation from `docs`.
pub fn diagnostic_dto(
    d: &RawDiagnostic,
    map: Option<&FbdSourceMap>,
    docs: &crate::problem_docs::ProblemDocs,
) -> (r: CheckDiagnostic)
    requires
        pos_fits(d.start),
        pos_fits(d.end),
        forall|i: int| 0 <= i < d.secondary@.len() ==> pos_fits(#[trigger] d.secondary@[i].start) && pos_fits(
            d.secondary@[i].end,
        ),
    ensures
        r.severity@ == "error"@,
        r.code@ == d.code@,
        r.message@ == d.description@,
        r.start_line == d.start.line + 1 && r.start_column == d.start.column + 1,
        r.end_line == d.end.line + 1 && r.end_column == d.end.column + 1,
        crate::text::views(r.context@) == crate::text::views(d.described@) + foreign_lines(
            d.secondary@,
        ),
        r.related@.map_values(|x: DiagnosticRelated| related_view(x)) == related_entries(
            d.secondary@,
            match map {
                Some(m) => Some(*m),
                None => None,
            },
        ),
        match crate::problem_docs::problem_doc(crate::problem_docs::pages_view(docs.pages@), d.code@) {
            Some((rst, _title)) => r.explanation matches Some(s) && s@
                == crate::problem_docs::strip_rst_title(rst),
            None => r.explanation is None,
        },
        opt_loc_view(r.fbd_location) == location_at(
            match map {
                Some(m) => Some(*m),
                None => None,
            },
            d.start.line + 1,
        ),
{
    let ghost m = match map {
        Some(m) => Some(*m),
        None => None,
    };
    let mut context: Vec<String> = Vec::new();
    let mut k: usize = 0;
    while k < d.described.len()
        invariant
            k <= d.described@.len(),
            crate::text::views(context@) == crate::text::views(d.described@).take(k as int),
        decreases d.described@.len() - k,
    {
        let c = d.described[k].clone();
        proof {
            crate::text::lemma_views_push(context@, c);
        }
        context.push(c);
        assert(crate::text::views(context@) =~= crate::text::views(d.described@).take(k + 1));
        k = k + 1;
    }
    assert(crate::text::views(d.described@).take(d.described@.len() as int) =~= crate::text::views(
        d.described@,
    ));
    let ghost base = crate::text::views(context@);
    let mut related: Vec<DiagnosticRelated> = Vec::new();
    let mut i: usize = 0;
    assert(d.secondary@.take(0) =~= Seq::<RawLabel>::empty());
    assert(base + foreign_lines(d.secondary@.take(0)) =~= base);
    while i < d.secondary.len()
        invariant
            i <= d.secondary@.len(),
            forall|j: int| 0 <= j < d.secondary@.len() ==> pos_fits(#[trigger] d.secondary@[j].start)
                && pos_fits(d.secondary@[j].end),
            m == (match map {
                Some(mm) => Some(*mm),
                None => None,
            }),
            crate::text::views(context@) == base + foreign_lines(d.secondary@.take(i as int)),
            related@.map_values(|x: DiagnosticRelated| related_view(x)) == related_entries(
                d.secondary@.take(i as int),
                m,
            ),
        decreases d.secondary@.len() - i,
    {
        let l = &d.secondary[i];
        assert(d.secondary@.take(i + 1).drop_last() =~= d.secondary@.take(i as int));
        assert(d.secondary@.take(i + 1).last() == *l);
        match &l.file {
            LabelFile::Buffer => {
                let line = l.start.line + 1;
                let loc = lookup_locations(map, line as usize);
                let entry = DiagnosticRelated {
                    message: l.message.clone(),
                    start_line: line,
                    start_column: l.start.column + 1,
                    end_line: l.end.line + 1,
                    end_column: l.end.column + 1,
                    fbd_location: loc,
                };
                let ghost before = related@;
                related.push(entry);
                proof {
                    assert(related@.map_values(|x: DiagnosticRelated| related_view(x)) =~= before.map_values(
                        |x: DiagnosticRelated| related_view(x),
                    ).push(related_view(entry)));
                    assert(foreign_lines(d.secondary@.take(i + 1)) == foreign_lines(d.secondary@.take(i as int)));
                }
            },
            LabelFile::Other(path) => {
                let text = match path {
                    Some(p) => if p.as_str().is_empty() {
                        l.message.clone()
                    } else {
                        let mut t = String::from_str("see ");
                        t.append(p.as_str());
                        t.append(": ");
                        t.append(l.message.as_str());
                        t
                    },
                    None => l.message.clone(),
                };
                assert(text@ == foreign_line(*l));
                proof {
                    crate::text::lemma_views_push(context@, text);
                }
                let ghost before = crate::text::views(context@);
                context.push(text);
                proof {
                    assert(crate::text::views(context@) =~= before.push(text@));
                    assert(base + foreign_lines(d.secondary@.take(i + 1)) =~= (base + foreign_lines(
                        d.secondary@.take(i as int),
                    )).push(foreign_line(*l)));
                }
            },
        }
        i = i + 1;
    }
    assert(d.secondary@.take(d.secondary@.len() as int) =~= d.secondary@);
    let start_line = d.start.line + 1;
    CheckDiagnostic {
        severity: String::from_str("error"),
        code: d.code.clone(),
        message: d.description.clone(),
        start_line,
        start_column: d.start.column + 1,
        end_line: d.end.line + 1,
        end_column: d.end.column + 1,
        context,
        related,
        explanation: crate::problem_docs::lookup_problem_explanation(docs, d.code.as_str()),
        fbd_location: lookup_locations(map, start_line as usize),
    }
}

// ----- The project context a buffer is analysed in -----

/// Whether two lists of POU names share one, names compared lower-cased
/// (IEC names are case-insensitive).
pub open spec fn shares_a_pou(file_pous: Seq<Seq<char>>, buffer_pous: Seq<Seq<char>>) -> bool {
    exists|i: int, j: int|
        0 <= i < file_pous.len() && 0 <= j < buffer_pous.len() && #[trigger] unicode_lowercase(file_pous[i])
            == #[trigger] unicode_lowercase(buffer_pous[j])
}

/// Whether a sibling POU file at `path`, declaring `file_pous`, joins the
/// context in which a buffer declaring `buffer_pous` is analysed. The
/// buffer's own file never does; when the buffer's file is not known, a
/// file that declares one of the buffer's own POUs is left out instead,
/// so that nothing is declared twice.
pub fn context_file_kept(
    path: &str,
    buffer_path: Option<&str>,
    file_pous: &Vec<String>,
    buffer_pous: &Vec<String>,
) -> (r: bool)
    ensures
        r == match buffer_path {
            Some(b) => b@ != path@,
            None => !shares_a_pou(crate::text::views(file_pous@), crate::text::views(buffer_pous@)),
        },
{
    match buffer_path {
        Some(b) => {
            let own = b.to_string();
            let here = path.to_string();
            !(own == here)
        },
        None => {
            let ghost fv = crate::text::views(file_pous@);
            let ghost bv = crate::text::views(buffer_pous@);
            let mut lowered: Vec<String> = Vec::new();
            let mut j: usize = 0;
            while j < buffer_pous.len()
                invariant
                    j <= buffer_pous.len(),
                    bv == crate::text::views(buffer_pous@),
                    lowered@.len() == j,
                    forall|k: int| 0 <= k < j ==> #[trigger] lowered@[k]@ == unicode_lowercase(bv[k]),
                decreases buffer_pous.len() - j,
            {
                lowered.push(to_lowercase(buffer_pous[j].as_str()));
                j += 1;
            }
            let mut i: usize = 0;
            while i < file_pous.len()
                invariant
                    i <= file_pous.len(),
                    buffer_path is None,
                    fv == crate::text::views(file_pous@),
                    bv == crate::text::views(buffer_pous@),
                    lowered@.len() == bv.len(),
                    forall|k: int| 0 <= k < bv.len() ==> #[trigger] lowered@[k]@ == unicode_lowercase(bv[k]),
                    forall|a: int, k: int|
                        0 <= a < i && 0 <= k < bv.len() ==> #[trigger] unicode_lowercase(fv[a])
                            != #[trigger] unicode_lowercase(bv[k]),
                decreases file_pous.len() - i,
            {
                let l = to_lowercase(file_pous[i].as_str());
                if crate::text::contains_string(&lowered, &l) {
                    proof {
                        let k = choose|k: int|
                            0 <= k < crate::text::views(lowered@).len() && crate::text::views(lowered@)[k]
                                == l@;
                        assert(lowered@[k]@ == unicode_lowercase(bv[k]));
                        assert(unicode_lowercase(fv[i as int]) == unicode_lowercase(bv[k]));
                        assert(0 <= i < fv.len() && 0 <= k < bv.len());
                        assert(shares_a_pou(fv, bv));
                    }
                    return false;
                }
                proof {
                    assert forall|k: int| 0 <= k < bv.len() implies unicode_lowercase(fv[i as int])
                        != #[trigger] unicode_lowercase(bv[k]) by {
                        assert(crate::text::views(lowered@)[k] == lowered@[k]@);
                    }
                }
                i += 1;
            }
            true
        },
    }
}

// ----- Declarations and symbols of graphical POUs -----

/// The POU kind an LD / FBD / SFC document declares.
pub open spec fn pou_type_of(t: LdPouType) -> PouType {
    match t {
        LdPouType::Program => PouType::Program,
        LdPouType::FunctionBlock => PouType::FunctionBlock,
    }
}

/// The declarations a graphical POU document holds: the one POU it is.
pub fn graphical_declarations(name: &str, pou_type: LdPouType, language: PouLanguage) -> (r: Vec<
    PouDecl,
>)
    ensures
        r@.len() == 1,
        r@[0].name@ == name@,
        r@[0].type_ == pou_type_of(pou_type),
        r@[0].language == language,
{
    let type_ = match pou_type {
        LdPouType::Program => PouType::Program,
        LdPouType::FunctionBlock => PouType::FunctionBlock,
    };
    vec![PouDecl { name: name.to_string(), type_, language }]
}

/// A symbol by its name, type and direction.
pub open spec fn info_view(v: VariableInfo) -> (Seq<char>, Seq<char>, Seq<char>) {
    (v.name@, v.iec_type@, v.direction@)
}

pub open spec fn section_direction(s: LdVarSection) -> Seq<char> {
    match s {
        LdVarSection::Input => "input"@,
        LdVarSection::Output => "output"@,
        LdVarSection::Internal => "internal"@,
    }
}

/// The symbol of a graphical POU's variable: its name, its type and its
/// section as the direction.
pub open spec fn variable_symbol(v: LdVariable) -> (Seq<char>, Seq<char>, Seq<char>) {
    (v.name@, v.iec_type@, section_direction(v.section))
}

/// The symbols of a graphical POU's variables, in declaration order.
pub fn variable_symbols(vars: &Vec<LdVariable>) -> (r: Vec<VariableInfo>)
    ensures
        r@.map_values(|v: VariableInfo| info_view(v)) == vars@.map_values(
            |v: LdVariable| variable_symbol(v),
        ),
{
    let mut out: Vec<VariableInfo> = Vec::new();
    let mut i: usize = 0;
    while i < vars.len()
        invariant
            i <= vars.len(),
            out@.map_values(|v: VariableInfo| info_view(v)) == vars@.take(i as int).map_values(
                |v: LdVariable| variable_symbol(v),
            ),
        decreases vars.len() - i,
    {
        let v = &vars[i];
        let info = VariableInfo {
            name: v.name.clone(),
            iec_type: v.iec_type.clone(),
            direction: ld_section_str(v.section).to_string(),
        };
        assert(info_view(info) == variable_symbol(vars@[i as int]));
        let ghost before = out@;
        out.push(info);
        assert(out@.map_values(|v: VariableInfo| info_view(v)) =~= before.map_values(
            |v: VariableInfo| info_view(v),
        ).push(info_view(info)));
        assert(vars@.take(i + 1).map_values(|v: LdVariable| variable_symbol(v)) =~= vars@.take(
            i as int,
        ).map_values(|v: LdVariable| variable_symbol(v)).push(variable_symbol(vars@[i as int])));
        i += 1;
    }
    assert(vars@.take(vars.len() as int) =~= vars@);
    out
}

/// The symbol of an FBD block instance: its name, its FB type and the
/// direction `fb_instance`.
pub open spec fn instance_symbol(b: (String, String)) -> (Seq<char>, Seq<char>, Seq<char>) {
    (b.0@, b.1@, "fb_instance"@)
}

/// The symbols of an FBD POU: its variables, then one per block instance
/// (instance name, FB type), in block order.
pub fn fbd_symbols(vars: &Vec<LdVariable>, instances: &Vec<(String, String)>) -> (r: Vec<
    VariableInfo,
>)
    ensures
        r@.map_values(|v: VariableInfo| info_view(v)) == vars@.map_values(
            |v: LdVariable| variable_symbol(v),
        ) + instances@.map_values(|b: (String, String)| instance_symbol(b)),
{
    let mut out = variable_symbols(vars);
    let ghost head = out@.map_values(|v: VariableInfo| info_view(v));
    let mut i: usize = 0;
    while i < instances.len()
        invariant
            i <= instances.len(),
            out@.map_values(|v: VariableInfo| info_view(v)) == head + instances@.take(
                i as int,
            ).map_values(|b: (String, String)| instance_symbol(b)),
        decreases instances.len() - i,
    {
        let info = VariableInfo {
            name: instances[i].0.clone(),
            iec_type: instances[i].1.clone(),
            direction: String::from_str("fb_instance"),
        };
        proof {
            reveal_strlit("fb_instance");
        }
        assert(info_view(info) == instance_symbol(instances@[i as int]));
        let ghost before = out@;
        out.push(info);
        assert(out@.map_values(|v: VariableInfo| info_view(v)) =~= before.map_values(
            |v: VariableInfo| info_view(v),
        ).push(info_view(info)));
        assert(instances@.take(i + 1).map_values(|b: (String, String)| instance_symbol(b))
            =~= instances@.take(i as int).map_values(|b: (String, String)| instance_symbol(b)).push(
            instance_symbol(instances@[i as int]),
        ));
        assert(out@.map_values(|v: VariableInfo| info_view(v)) =~= head + instances@.take(
            i + 1,
        ).map_values(|b: (String, String)| instance_symbol(b)));
        i += 1;
    }
    assert(instances@.take(instances.len() as int) =~= instances@);
    out
}

} // verus!
