//! Function Block Diagram to Structured Text.
//!
//! After checking that ids, instances and wires are consistent, every block
//! becomes one `inst(PIN := value, ...);` call, emitted in execution order
//! (see `fbd_order`), and every output binding becomes `var := inst.pin;`.
//! A source map records, for each emitted line, the diagram element it
//! came from.
use vstd::prelude::*;

use crate::errors::BridgeError;
use crate::fbd::{FbdBlock, FbdInputBinding, FbdInputSource, FbdOutputBinding, FbdProgram};
use crate::fbd_order::{
    block_ids, cycle_msg, is_topological, topo_order, topo_order_complete_iff_acyclic,
    topo_order_is_topological, topo_sort, usizes,
};
use crate::ld::{LdPouType, LdVarSection, LdVariable};
use crate::ld_transpile::{pou_foot, pou_head, section_header};
use crate::text::{
    contains_string, first_index, first_some, index_of_string, insert_sorted_string, join,
    join_strings, lemma_first_index_bounds, lemma_first_some_at, lemma_first_some_none,
    lemma_first_some_step, lemma_sort_dedup_push, lemma_views_push, sort_dedup, views,
};

verus! {

/// The diagram element an emitted ST line came from.
#[derive(Debug, Clone)]
pub enum FbdLocation {
    /// A variable declaration line.
    Variable { name: String },
    /// A block's call statement.
    Block { block_id: String },
    /// An output binding's assignment.
    Output { variable: String },
}

/// `FbdLocation` with its names as character sequences.
pub enum FbdLocationView {
    Variable(Seq<char>),
    Block(Seq<char>),
    Output(Seq<char>),
}

pub open spec fn loc_view(l: FbdLocation) -> FbdLocationView {
    match l {
        FbdLocation::Variable { name } => FbdLocationView::Variable(name@),
        FbdLocation::Block { block_id } => FbdLocationView::Block(block_id@),
        FbdLocation::Output { variable } => FbdLocationView::Output(variable@),
    }
}

pub open spec fn opt_loc_view(o: Option<FbdLocation>) -> Option<FbdLocationView> {
    match o {
        Some(l) => Some(loc_view(l)),
        None => None,
    }
}

pub open spec fn map_view(m: Seq<Option<FbdLocation>>) -> Seq<Option<FbdLocationView>> {
    m.map_values(|o: Option<FbdLocation>| opt_loc_view(o))
}

/// One entry per emitted line: entry `i` describes ST line `i + 1`.
#[derive(Debug, Clone)]
pub struct FbdSourceMap {
    pub lines: Vec<Option<FbdLocation>>,
}

impl FbdSourceMap {
    /// The element behind 1-based line `line`, if that line came from one.
    pub fn lookup(&self, line: usize) -> (r: Option<&FbdLocation>)
        ensures
            r == (if 1 <= line <= self.lines@.len() {
                match self.lines@[line - 1] {
                    Some(l) => Some(&l),
                    None => None,
                }
            } else {
                None
            }),
    {
        if line == 0 || line > self.lines.len() {
            return None;
        }
        match &self.lines[line - 1] {
            Some(l) => Some(l),
            None => None,
        }
    }
}

/// An emitted line and the element it came from.
pub struct StLine {
    pub text: Seq<char>,
    pub at: Option<FbdLocationView>,
}

pub open spec fn plain(t: Seq<char>) -> StLine {
    StLine { text: t, at: None }
}

/// The source text: every line followed by a newline.
pub open spec fn lines_text(ls: Seq<StLine>) -> Seq<char>
    decreases ls.len(),
{
    if ls.len() == 0 {
        Seq::empty()
    } else {
        lines_text(ls.drop_last()) + ls.last().text + "\n"@
    }
}

/// The source map of a list of lines.
pub open spec fn lines_map(ls: Seq<StLine>) -> Seq<Option<FbdLocationView>> {
    ls.map_values(|l: StLine| l.at)
}

pub proof fn lemma_lines_text_concat(a: Seq<StLine>, b: Seq<StLine>)
    ensures
        lines_text(a + b) == lines_text(a) + lines_text(b),
    decreases b.len(),
{
    if b.len() == 0 {
        assert(a + b =~= a);
        assert(lines_text(a) + lines_text(b) =~= lines_text(a));
    } else {
        assert((a + b).drop_last() =~= a + b.drop_last());
        lemma_lines_text_concat(a, b.drop_last());
        assert(lines_text(a + b) =~= lines_text(a) + lines_text(b));
    }
}

/// Builds the ST text and its source map line by line.
struct StEmitter {
    out: String,
    map: Vec<Option<FbdLocation>>,
}

impl StEmitter {
    spec fn holds(&self, ls: Seq<StLine>) -> bool {
        &&& self.out@ == lines_text(ls)
        &&& map_view(self.map@) == lines_map(ls)
    }

    fn new() -> (e: Self)
        ensures
            e.holds(Seq::empty()),
    {
        let e = StEmitter { out: String::new(), map: Vec::new() };
        assert(map_view(e.map@) =~= lines_map(Seq::empty()));
        e
    }

    /// Emits `content` and a newline, recording `span` for it.
    fn line(&mut self, span: Option<FbdLocation>, content: &str, Ghost(ls): Ghost<Seq<StLine>>)
        requires
            old(self).holds(ls),
        ensures
            final(self).holds(ls.push(StLine { text: content@, at: opt_loc_view(span) })),
    {
        let ghost l = StLine { text: content@, at: opt_loc_view(span) };
        let ghost m0 = self.map@;
        self.out.append(content);
        self.out.append("\n");
        self.map.push(span);
        assert(ls.push(l).drop_last() =~= ls);
        assert(map_view(self.map@) =~= map_view(m0).push(l.at));
        assert(lines_map(ls.push(l)) =~= lines_map(ls).push(l.at));
    }

    /// Emits an empty line that comes from no element.
    fn blank(&mut self, Ghost(ls): Ghost<Seq<StLine>>)
        requires
            old(self).holds(ls),
        ensures
            final(self).holds(ls.push(plain(Seq::empty()))),
    {
        proof {
            reveal_strlit("");
            assert(""@ =~= Seq::<char>::empty());
        }
        self.line(None, "", Ghost(ls));
        assert(StLine { text: ""@, at: opt_loc_view(None) } == plain(Seq::empty()));
    }
}

// ----- Validation -----

pub open spec fn block_instances(bs: Seq<FbdBlock>) -> Seq<Seq<char>> {
    bs.map_values(|b: FbdBlock| b.instance@)
}

pub open spec fn id_check(bs: Seq<FbdBlock>, i: int) -> Option<Seq<char>> {
    if bs[i].id@.len() == 0 {
        Some("FBD block has empty id"@)
    } else if block_ids(bs.take(i)).contains(bs[i].id@) {
        Some("FBD block id '"@ + bs[i].id@ + "' is duplicated"@)
    } else {
        None
    }
}

/// The first block with an empty id or an id an earlier block has.
pub open spec fn id_problem(bs: Seq<FbdBlock>) -> Option<Seq<char>> {
    first_some(Seq::new(bs.len(), |i: int| id_check(bs, i)))
}

pub open spec fn instance_check(bs: Seq<FbdBlock>, i: int) -> Option<Seq<char>> {
    let b = bs[i];
    if b.instance@.len() == 0 {
        Some("FBD block '"@ + b.id@ + "' has empty instance name"@)
    } else if b.fb_type@.len() == 0 {
        Some("FBD block '"@ + b.id@ + "' has empty fb_type"@)
    } else {
        match first_index(block_instances(bs.take(i)), b.instance@) {
            Some(j) => Some(
                "FB instance '"@ + b.instance@ + "' used by both block '"@ + bs[j].id@
                    + "' and block '"@ + b.id@ + "'"@,
            ),
            None => None,
        }
    }
}

/// The first block with an empty instance or type, or an instance name
/// an earlier block already uses.
pub open spec fn instance_problem(bs: Seq<FbdBlock>) -> Option<Seq<char>> {
    first_some(Seq::new(bs.len(), |i: int| instance_check(bs, i)))
}

pub open spec fn wire_check(b: FbdBlock, ids: Seq<Seq<char>>, k: int) -> Option<Seq<char>> {
    let inp = b.inputs@[k];
    match inp.value {
        FbdInputSource::Block { block_id, pin } => {
            if !ids.contains(block_id@) {
                Some(
                    "Block '"@ + b.id@ + "' input pin '"@ + inp.pin@ + "' wired from unknown block '"@
                        + block_id@ + "'"@,
                )
            } else if pin@.len() == 0 {
                Some("Block '"@ + b.id@ + "' input pin '"@ + inp.pin@ + "' has empty source pin"@)
            } else {
                None
            }
        },
        _ => None,
    }
}

pub open spec fn block_wire_problem(b: FbdBlock, ids: Seq<Seq<char>>) -> Option<Seq<char>> {
    first_some(Seq::new(b.inputs@.len(), |k: int| wire_check(b, ids, k)))
}

/// The first input pin wired from a block that does not exist or from an
/// unnamed pin.
pub open spec fn wire_problem(bs: Seq<FbdBlock>) -> Option<Seq<char>> {
    first_some(Seq::new(bs.len(), |i: int| block_wire_problem(bs[i], block_ids(bs))))
}

pub open spec fn output_source_check(
    outs: Seq<FbdOutputBinding>,
    ids: Seq<Seq<char>>,
    i: int,
) -> Option<Seq<char>> {
    if !ids.contains(outs[i].from_block@) {
        Some(
            "Output binding '"@ + outs[i].variable@ + "' wired from unknown block '"@
                + outs[i].from_block@ + "'"@,
        )
    } else {
        None
    }
}

/// The first output binding wired from a block that does not exist.
pub open spec fn output_source_problem(outs: Seq<FbdOutputBinding>, ids: Seq<Seq<char>>) -> Option<
    Seq<char>,
> {
    first_some(Seq::new(outs.len(), |i: int| output_source_check(outs, ids, i)))
}

pub open spec fn output_vars(outs: Seq<FbdOutputBinding>) -> Seq<Seq<char>> {
    outs.map_values(|o: FbdOutputBinding| o.variable@)
}

pub open spec fn output_drive_check(outs: Seq<FbdOutputBinding>, i: int) -> Option<Seq<char>> {
    if outs[i].variable@.len() == 0 {
        Some("FBD output binding has empty variable"@)
    } else {
        match first_index(output_vars(outs.take(i)), outs[i].variable@) {
            Some(j) => Some(
                "Output variable '"@ + outs[i].variable@ + "' driven by two blocks ("@
                    + outs[j].from_block@ + " and "@ + outs[i].from_block@ + ")"@,
            ),
            None => None,
        }
    }
}

/// The first output binding with no variable, or driving a variable an
/// earlier binding already drives.
pub open spec fn output_drive_problem(outs: Seq<FbdOutputBinding>) -> Option<Seq<char>> {
    first_some(Seq::new(outs.len(), |i: int| output_drive_check(outs, i)))
}

/// The first consistency problem, checked in this order: the name, block
/// ids, instances, input wires, output wires, doubly driven outputs,
/// blocks wired to themselves.
pub open spec fn validation_problem(prog: FbdProgram) -> Option<Seq<char>> {
    let bs = prog.blocks@;
    let outs = prog.outputs@;
    if prog.name@.len() == 0 {
        Some("FBD program name is empty"@)
    } else if id_problem(bs) is Some {
        id_problem(bs)
    } else if instance_problem(bs) is Some {
        instance_problem(bs)
    } else if wire_problem(bs) is Some {
        wire_problem(bs)
    } else if output_source_problem(outs, block_ids(bs)) is Some {
        output_source_problem(outs, block_ids(bs))
    } else if output_drive_problem(outs) is Some {
        output_drive_problem(outs)
    } else {
        crate::fbd_order::self_ref_problem(bs)
    }
}

/// The block ids, or the first id problem.
fn check_block_ids(blocks: &Vec<FbdBlock>) -> (r: Result<Vec<String>, String>)
    ensures
        match r {
            Ok(ids) => id_problem(blocks@) is None && views(ids@) == block_ids(blocks@),
            Err(m) => id_problem(blocks@) == Some(m@),
        },
{
    let ghost bs = blocks@;
    let ghost checks = Seq::new(bs.len(), |i: int| id_check(bs, i));
    let mut ids: Vec<String> = Vec::new();
    let mut i: usize = 0;
    while i < blocks.len()
        invariant
            bs == blocks@,
            checks == Seq::new(bs.len(), |i: int| id_check(bs, i)),
            i <= blocks.len(),
            views(ids@) == block_ids(bs.take(i as int)),
            first_some(checks.take(i as int)) is None,
        decreases blocks.len() - i,
    {
        let b = &blocks[i];
        if b.id.as_str().is_empty() {
            proof {
                lemma_first_some_at(checks, i as int);
            }
            return Err(String::from_str("FBD block has empty id"));
        }
        if contains_string(&ids, &b.id) {
            let mut m = String::from_str("FBD block id '");
            m.append(b.id.as_str());
            m.append("' is duplicated");
            proof {
                lemma_first_some_at(checks, i as int);
            }
            return Err(m);
        }
        proof {
            lemma_first_some_step(checks, i as int);
            lemma_views_push(ids@, b.id);
        }
        ids.push(b.id.clone());
        assert(block_ids(bs.take(i + 1)) =~= block_ids(bs.take(i as int)).push(bs[i as int].id@));
        i = i + 1;
    }
    proof {
        lemma_first_some_none(checks);
        assert(bs.take(bs.len() as int) =~= bs);
    }
    Ok(ids)
}

/// The instance names, or the first instance problem.
fn check_instances(blocks: &Vec<FbdBlock>) -> (r: Result<Vec<String>, String>)
    ensures
        match r {
            Ok(insts) => instance_problem(blocks@) is None && views(insts@) == block_instances(
                blocks@,
            ),
            Err(m) => instance_problem(blocks@) == Some(m@),
        },
{
    let ghost bs = blocks@;
    let ghost checks = Seq::new(bs.len(), |i: int| instance_check(bs, i));
    let mut insts: Vec<String> = Vec::new();
    let mut i: usize = 0;
    while i < blocks.len()
        invariant
            bs == blocks@,
            checks == Seq::new(bs.len(), |i: int| instance_check(bs, i)),
            i <= blocks.len(),
            views(insts@) == block_instances(bs.take(i as int)),
            first_some(checks.take(i as int)) is None,
        decreases blocks.len() - i,
    {
        let b = &blocks[i];
        if b.instance.as_str().is_empty() {
            let mut m = String::from_str("FBD block '");
            m.append(b.id.as_str());
            m.append("' has empty instance name");
            proof {
                lemma_first_some_at(checks, i as int);
            }
            return Err(m);
        }
        if b.fb_type.as_str().is_empty() {
            let mut m = String::from_str("FBD block '");
            m.append(b.id.as_str());
            m.append("' has empty fb_type");
            proof {
                lemma_first_some_at(checks, i as int);
            }
            return Err(m);
        }
        match index_of_string(&insts, &b.instance) {
            Some(j) => {
                proof {
                    lemma_first_index_bounds(views(insts@), b.instance@);
                }
                let mut m = String::from_str("FB instance '");
                m.append(b.instance.as_str());
                m.append("' used by both block '");
                m.append(blocks[j].id.as_str());
                m.append("' and block '");
                m.append(b.id.as_str());
                m.append("'");
                proof {
                    lemma_first_some_at(checks, i as int);
                }
                return Err(m);
            },
            None => {},
        }
        proof {
            lemma_first_some_step(checks, i as int);
            lemma_views_push(insts@, b.instance);
        }
        insts.push(b.instance.clone());
        assert(block_instances(bs.take(i + 1)) =~= block_instances(bs.take(i as int)).push(
            bs[i as int].instance@,
        ));
        i = i + 1;
    }
    proof {
        lemma_first_some_none(checks);
        assert(bs.take(bs.len() as int) =~= bs);
    }
    Ok(insts)
}

fn check_block_wires(b: &FbdBlock, ids: &Vec<String>) -> (r: Option<String>)
    ensures
        match r {
            Some(m) => block_wire_problem(*b, views(ids@)) == Some(m@),
            None => block_wire_problem(*b, views(ids@)) is None,
        },
{
    let ghost checks = Seq::new(b.inputs@.len(), |k: int| wire_check(*b, views(ids@), k));
    let mut k: usize = 0;
    while k < b.inputs.len()
        invariant
            checks == Seq::new(b.inputs@.len(), |k: int| wire_check(*b, views(ids@), k)),
            k <= b.inputs.len(),
            first_some(checks.take(k as int)) is None,
        decreases b.inputs.len() - k,
    {
        let input = &b.inputs[k];
        match &input.value {
            FbdInputSource::Block { block_id, pin } => {
                if !contains_string(ids, block_id) {
                    let mut m = String::from_str("Block '");
                    m.append(b.id.as_str());
                    m.append("' input pin '");
                    m.append(input.pin.as_str());
                    m.append("' wired from unknown block '");
                    m.append(block_id.as_str());
                    m.append("'");
                    proof {
                        lemma_first_some_at(checks, k as int);
                    }
                    return Some(m);
                }
                if pin.as_str().is_empty() {
                    let mut m = String::from_str("Block '");
                    m.append(b.id.as_str());
                    m.append("' input pin '");
                    m.append(input.pin.as_str());
                    m.append("' has empty source pin");
                    proof {
                        lemma_first_some_at(checks, k as int);
                    }
                    return Some(m);
                }
            },
            _ => {},
        }
        proof {
            lemma_first_some_step(checks, k as int);
        }
        k = k + 1;
    }
    proof {
        lemma_first_some_none(checks);
    }
    None
}

fn check_wires(blocks: &Vec<FbdBlock>, ids: &Vec<String>) -> (r: Option<String>)
    requires
        views(ids@) == block_ids(blocks@),
    ensures
        match r {
            Some(m) => wire_problem(blocks@) == Some(m@),
            None => wire_problem(blocks@) is None,
        },
{
    let ghost bs = blocks@;
    let ghost checks = Seq::new(bs.len(), |i: int| block_wire_problem(bs[i], block_ids(bs)));
    let mut i: usize = 0;
    while i < blocks.len()
        invariant
            bs == blocks@,
            views(ids@) == block_ids(bs),
            checks == Seq::new(bs.len(), |i: int| block_wire_problem(bs[i], block_ids(bs))),
            i <= blocks.len(),
            first_some(checks.take(i as int)) is None,
        decreases blocks.len() - i,
    {
        match check_block_wires(&blocks[i], ids) {
            Some(m) => {
                proof {
                    lemma_first_some_at(checks, i as int);
                }
                return Some(m);
            },
            None => {},
        }
        proof {
            lemma_first_some_step(checks, i as int);
        }
        i = i + 1;
    }
    proof {
        lemma_first_some_none(checks);
    }
    None
}

fn check_output_sources(outs: &Vec<FbdOutputBinding>, ids: &Vec<String>) -> (r: Option<String>)
    ensures
        match r {
            Some(m) => output_source_problem(outs@, views(ids@)) == Some(m@),
            None => output_source_problem(outs@, views(ids@)) is None,
        },
{
    let ghost checks = Seq::new(outs@.len(), |i: int| output_source_check(outs@, views(ids@), i));
    let mut i: usize = 0;
    while i < outs.len()
        invariant
            checks == Seq::new(outs@.len(), |i: int| output_source_check(outs@, views(ids@), i)),
            i <= outs.len(),
            first_some(checks.take(i as int)) is None,
        decreases outs.len() - i,
    {
        let o = &outs[i];
        if !contains_string(ids, &o.from_block) {
            let mut m = String::from_str("Output binding '");
            m.append(o.variable.as_str());
            m.append("' wired from unknown block '");
            m.append(o.from_block.as_str());
            m.append("'");
            proof {
                lemma_first_some_at(checks, i as int);
            }
            return Some(m);
        }
        proof {
            lemma_first_some_step(checks, i as int);
        }
        i = i + 1;
    }
    proof {
        lemma_first_some_none(checks);
    }
    None
}

fn check_output_drives(outs: &Vec<FbdOutputBinding>) -> (r: Option<String>)
    ensures
        match r {
            Some(m) => output_drive_problem(outs@) == Some(m@),
            None => output_drive_problem(outs@) is None,
        },
{
    let ghost os = outs@;
    let ghost checks = Seq::new(os.len(), |i: int| output_drive_check(os, i));
    let mut vars: Vec<String> = Vec::new();
    let mut i: usize = 0;
    while i < outs.len()
        invariant
            os == outs@,
            checks == Seq::new(os.len(), |i: int| output_drive_check(os, i)),
            i <= outs.len(),
            views(vars@) == output_vars(os.take(i as int)),
            first_some(checks.take(i as int)) is None,
        decreases outs.len() - i,
    {
        let o = &outs[i];
        if o.variable.as_str().is_empty() {
            proof {
                lemma_first_some_at(checks, i as int);
            }
            return Some(String::from_str("FBD output binding has empty variable"));
        }
        match index_of_string(&vars, &o.variable) {
            Some(j) => {
                proof {
                    lemma_first_index_bounds(views(vars@), o.variable@);
                }
                let mut m = String::from_str("Output variable '");
                m.append(o.variable.as_str());
                m.append("' driven by two blocks (");
                m.append(outs[j].from_block.as_str());
                m.append(" and ");
                m.append(o.from_block.as_str());
                m.append(")");
                proof {
                    lemma_first_some_at(checks, i as int);
                }
                return Some(m);
            },
            None => {},
        }
        proof {
            lemma_first_some_step(checks, i as int);
            lemma_views_push(vars@, o.variable);
        }
        vars.push(o.variable.clone());
        assert(output_vars(os.take(i + 1)) =~= output_vars(os.take(i as int)).push(
            os[i as int].variable@,
        ));
        i = i + 1;
    }
    proof {
        lemma_first_some_none(checks);
    }
    None
}


// ----- Emission -----

/// The ST text feeding a pin.
pub open spec fn value_text(bs: Seq<FbdBlock>, v: FbdInputSource) -> Result<Seq<char>, Seq<char>> {
    match v {
        FbdInputSource::Var { name } => if name@.len() == 0 {
            Err("FBD var input has empty name"@)
        } else {
            Ok(name@)
        },
        FbdInputSource::Literal { value } => if value@.len() == 0 {
            Err("FBD literal input is empty"@)
        } else {
            Ok(value@)
        },
        FbdInputSource::Block { block_id, pin } => match first_index(block_ids(bs), block_id@) {
            Some(j) => Ok(bs[j].instance@ + "."@ + pin@),
            None => Err("unknown block '"@ + block_id@ + "'"@),
        },
    }
}

/// `PIN := value` for each pin in order; the first bad pin decides the error.
pub open spec fn arg_parts(bs: Seq<FbdBlock>, ins: Seq<FbdInputBinding>) -> Result<
    Seq<Seq<char>>,
    Seq<char>,
>
    decreases ins.len(),
{
    if ins.len() == 0 {
        Ok(Seq::empty())
    } else {
        match arg_parts(bs, ins.drop_last()) {
            Err(e) => Err(e),
            Ok(parts) => {
                let inp = ins.last();
                if inp.pin@.len() == 0 {
                    Err("FBD input has empty pin name"@)
                } else {
                    match value_text(bs, inp.value) {
                        Err(e) => Err(e),
                        Ok(t) => Ok(parts.push(inp.pin@ + " := "@ + t)),
                    }
                }
            },
        }
    }
}

/// `    inst(PIN := value, ...);` for block `i`.
pub open spec fn call_line(bs: Seq<FbdBlock>, i: int) -> Result<StLine, Seq<char>> {
    match arg_parts(bs, bs[i].inputs@) {
        Err(e) => Err(e),
        Ok(parts) => Ok(
            StLine {
                text: "    "@ + bs[i].instance@ + "("@ + join(parts, ", "@) + ");"@,
                at: Some(FbdLocationView::Block(bs[i].id@)),
            },
        ),
    }
}

/// The call lines of the blocks in `order`.
pub open spec fn call_lines(bs: Seq<FbdBlock>, order: Seq<int>) -> Result<Seq<StLine>, Seq<char>>
    decreases order.len(),
{
    if order.len() == 0 {
        Ok(Seq::empty())
    } else {
        match call_lines(bs, order.drop_last()) {
            Err(e) => Err(e),
            Ok(ls) => match call_line(bs, order.last()) {
                Err(e) => Err(e),
                Ok(l) => Ok(ls.push(l)),
            },
        }
    }
}

/// `    var := inst.pin;` for an output binding.
pub open spec fn output_line(bs: Seq<FbdBlock>, o: FbdOutputBinding) -> Result<StLine, Seq<char>> {
    match first_index(block_ids(bs), o.from_block@) {
        Some(j) => Ok(
            StLine {
                text: "    "@ + o.variable@ + " := "@ + bs[j].instance@ + "."@ + o.from_pin@ + ";"@,
                at: Some(FbdLocationView::Output(o.variable@)),
            },
        ),
        None => Err("unknown block '"@ + o.from_block@ + "'"@),
    }
}

pub open spec fn output_lines(bs: Seq<FbdBlock>, outs: Seq<FbdOutputBinding>) -> Result<
    Seq<StLine>,
    Seq<char>,
>
    decreases outs.len(),
{
    if outs.len() == 0 {
        Ok(Seq::empty())
    } else {
        match output_lines(bs, outs.drop_last()) {
            Err(e) => Err(e),
            Ok(ls) => match output_line(bs, outs.last()) {
                Err(e) => Err(e),
                Ok(l) => Ok(ls.push(l)),
            },
        }
    }
}

/// `        name : TYPE := init;`
pub open spec fn var_decl_line(v: LdVariable) -> StLine {
    StLine {
        text: "        "@ + v.name@ + " : "@ + v.iec_type@ + match v.init {
            Some(i) => " := "@ + i@,
            None => Seq::empty(),
        } + ";"@,
        at: Some(FbdLocationView::Variable(v.name@)),
    }
}

/// The declarations of the variables in section `sec`, in order.
pub open spec fn var_decl_lines(vars: Seq<LdVariable>, sec: LdVarSection) -> Seq<StLine>
    decreases vars.len(),
{
    if vars.len() == 0 {
        Seq::empty()
    } else {
        var_decl_lines(vars.drop_last(), sec) + if vars.last().section == sec {
            seq![var_decl_line(vars.last())]
        } else {
            Seq::<StLine>::empty()
        }
    }
}

/// The FB type of the block declaring instance `inst`.
pub open spec fn instance_type(bs: Seq<FbdBlock>, inst: Seq<char>) -> Seq<char> {
    match first_index(block_instances(bs), inst) {
        Some(j) => bs[j].fb_type@,
        None => Seq::empty(),
    }
}

/// One `        inst : TYPE;` per instance, ascending by instance name.
pub open spec fn instance_decl_lines(bs: Seq<FbdBlock>) -> Seq<StLine> {
    sort_dedup(block_instances(bs)).map_values(
        |inst: Seq<char>| plain("        "@ + inst + " : "@ + instance_type(bs, inst) + ";"@),
    )
}

/// A VAR section: header, declarations (and the FB instances in the
/// internal section), `END_VAR`.
pub open spec fn var_section_lines(
    vars: Seq<LdVariable>,
    bs: Seq<FbdBlock>,
    sec: LdVarSection,
) -> Seq<StLine> {
    seq![plain("    "@ + section_header(sec))] + var_decl_lines(vars, sec) + if sec
        == LdVarSection::Internal {
        instance_decl_lines(bs)
    } else {
        Seq::<StLine>::empty()
    } + seq![plain("    END_VAR"@)]
}

/// Header, the three VAR sections and a blank line.
pub open spec fn head_lines(prog: FbdProgram) -> Seq<StLine> {
    seq![plain(pou_head(prog.pou_type) + " "@ + prog.name@)] + var_section_lines(
        prog.variables@,
        prog.blocks@,
        LdVarSection::Input,
    ) + var_section_lines(prog.variables@, prog.blocks@, LdVarSection::Output)
        + var_section_lines(prog.variables@, prog.blocks@, LdVarSection::Internal) + seq![
        plain(Seq::empty()),
    ]
}

/// The whole source with the blocks called in `order`.
pub open spec fn fbd_lines(prog: FbdProgram, order: Seq<int>) -> Result<Seq<StLine>, Seq<char>> {
    let bs = prog.blocks@;
    match call_lines(bs, order) {
        Err(e) => Err(e),
        Ok(calls) => match output_lines(bs, prog.outputs@) {
            Err(e) => Err(e),
            Ok(outs) => Ok(
                head_lines(prog) + calls + if prog.outputs@.len() == 0 {
                    Seq::<StLine>::empty()
                } else {
                    seq![plain(Seq::empty())] + outs
                } + seq![plain(pou_foot(prog.pou_type))],
            ),
        },
    }
}

/// The emitted lines of an FBD program, or why there are none.
pub open spec fn fbd_transpile(prog: FbdProgram) -> Result<Seq<StLine>, Seq<char>> {
    let bs = prog.blocks@;
    match validation_problem(prog) {
        Some(e) => Err(e),
        None => if topo_order(bs).len() < bs.len() {
            Err(cycle_msg(bs))
        } else {
            fbd_lines(prog, topo_order(bs))
        },
    }
}

proof fn lemma_arg_parts_prefix_fails(bs: Seq<FbdBlock>, ins: Seq<FbdInputBinding>, k: int)
    requires
        0 <= k <= ins.len(),
        arg_parts(bs, ins.take(k)) is Err,
    ensures
        arg_parts(bs, ins) == arg_parts(bs, ins.take(k)),
    decreases ins.len() - k,
{
    if k < ins.len() {
        assert(ins.take(k + 1).drop_last() =~= ins.take(k));
        lemma_arg_parts_prefix_fails(bs, ins, k + 1);
    } else {
        assert(ins.take(k) =~= ins);
    }
}

proof fn lemma_call_lines_prefix_fails(bs: Seq<FbdBlock>, order: Seq<int>, k: int)
    requires
        0 <= k <= order.len(),
        call_lines(bs, order.take(k)) is Err,
    ensures
        call_lines(bs, order) == call_lines(bs, order.take(k)),
    decreases order.len() - k,
{
    if k < order.len() {
        assert(order.take(k + 1).drop_last() =~= order.take(k));
        lemma_call_lines_prefix_fails(bs, order, k + 1);
    } else {
        assert(order.take(k) =~= order);
    }
}

proof fn lemma_output_lines_prefix_fails(bs: Seq<FbdBlock>, outs: Seq<FbdOutputBinding>, k: int)
    requires
        0 <= k <= outs.len(),
        output_lines(bs, outs.take(k)) is Err,
    ensures
        output_lines(bs, outs) == output_lines(bs, outs.take(k)),
    decreases outs.len() - k,
{
    if k < outs.len() {
        assert(outs.take(k + 1).drop_last() =~= outs.take(k));
        lemma_output_lines_prefix_fails(bs, outs, k + 1);
    } else {
        assert(outs.take(k) =~= outs);
    }
}

/// Renders one pin source as ST text.
fn render_input_value(src: &FbdInputSource, ids: &Vec<String>, blocks: &Vec<FbdBlock>) -> (r:
    Result<String, BridgeError>)
    requires
        views(ids@) == block_ids(blocks@),
    ensures
        match r {
            Ok(s) => value_text(blocks@, *src) == Ok::<Seq<char>, Seq<char>>(s@),
            Err(BridgeError::Parse(m)) => value_text(blocks@, *src) == Err::<Seq<char>, Seq<char>>(
                m@,
            ),
            Err(_) => false,
        },
{
    match src {
        FbdInputSource::Var { name } => {
            if name.as_str().is_empty() {
                Err(BridgeError::Parse(String::from_str("FBD var input has empty name")))
            } else {
                Ok(name.clone())
            }
        },
        FbdInputSource::Literal { value } => {
            if value.as_str().is_empty() {
                Err(BridgeError::Parse(String::from_str("FBD literal input is empty")))
            } else {
                Ok(value.clone())
            }
        },
        FbdInputSource::Block { block_id, pin } => {
            match index_of_string(ids, block_id) {
                Some(j) => {
                    proof {
                        lemma_first_index_bounds(views(ids@), block_id@);
                    }
                    let mut s = blocks[j].instance.clone();
                    s.append(".");
                    s.append(pin.as_str());
                    Ok(s)
                },
                None => {
                    let mut m = String::from_str("unknown block '");
                    m.append(block_id.as_str());
                    m.append("'");
                    Err(BridgeError::Parse(m))
                },
            }
        },
    }
}

/// A block's pin bindings as the argument list of its call.
fn render_inputs(inputs: &Vec<FbdInputBinding>, ids: &Vec<String>, blocks: &Vec<FbdBlock>) -> (r:
    Result<String, BridgeError>)
    requires
        views(ids@) == block_ids(blocks@),
    ensures
        match r {
            Ok(s) => arg_parts(blocks@, inputs@) matches Ok(parts) && s@ == join(parts, ", "@),
            Err(BridgeError::Parse(m)) => arg_parts(blocks@, inputs@) == Err::<
                Seq<Seq<char>>,
                Seq<char>,
            >(m@),
            Err(_) => false,
        },
{
    let mut parts: Vec<String> = Vec::new();
    let mut k: usize = 0;
    assert(views(parts@) =~= Seq::<Seq<char>>::empty());
    assert(inputs@.take(0) =~= Seq::<FbdInputBinding>::empty());
    while k < inputs.len()
        invariant
            views(ids@) == block_ids(blocks@),
            k <= inputs.len(),
            arg_parts(blocks@, inputs@.take(k as int)) == Ok::<Seq<Seq<char>>, Seq<char>>(
                views(parts@),
            ),
        decreases inputs.len() - k,
    {
        assert(inputs@.take(k + 1).drop_last() =~= inputs@.take(k as int));
        assert(inputs@.take(k + 1).last() == inputs@[k as int]);
        let input = &inputs[k];
        if input.pin.as_str().is_empty() {
            proof {
                lemma_arg_parts_prefix_fails(blocks@, inputs@, k + 1);
            }
            return Err(BridgeError::Parse(String::from_str("FBD input has empty pin name")));
        }
        match render_input_value(&input.value, ids, blocks) {
            Ok(v) => {
                let mut part = input.pin.clone();
                part.append(" := ");
                part.append(v.as_str());
                proof {
                    lemma_views_push(parts@, part);
                }
                parts.push(part);
            },
            Err(BridgeError::Parse(m)) => {
                proof {
                    lemma_arg_parts_prefix_fails(blocks@, inputs@, k + 1);
                }
                return Err(BridgeError::Parse(m));
            },
            Err(e) => {
                return Err(e);
            },
        }
        k = k + 1;
    }
    assert(inputs@.take(inputs.len() as int) =~= inputs@);
    Ok(join_strings(&parts, ", "))
}

/// Emits one output binding's assignment.
fn emit_output_binding(
    em: &mut StEmitter,
    out: &FbdOutputBinding,
    ids: &Vec<String>,
    blocks: &Vec<FbdBlock>,
    Ghost(ls): Ghost<Seq<StLine>>,
) -> (r: Result<(), BridgeError>)
    requires
        views(ids@) == block_ids(blocks@),
        old(em).holds(ls),
    ensures
        match r {
            Ok(()) => output_line(blocks@, *out) matches Ok(l) && final(em).holds(ls.push(l)),
            Err(BridgeError::Parse(m)) => output_line(blocks@, *out) == Err::<StLine, Seq<char>>(
                m@,
            ),
            Err(_) => false,
        },
{
    match index_of_string(ids, &out.from_block) {
        Some(j) => {
            proof {
                lemma_first_index_bounds(views(ids@), out.from_block@);
            }
            let mut s = String::from_str("    ");
            s.append(out.variable.as_str());
            s.append(" := ");
            s.append(blocks[j].instance.as_str());
            s.append(".");
            s.append(out.from_pin.as_str());
            s.append(";");
            em.line(Some(FbdLocation::Output { variable: out.variable.clone() }), s.as_str(), Ghost(ls));
            Ok(())
        },
        None => {
            let mut m = String::from_str("unknown block '");
            m.append(out.from_block.as_str());
            m.append("'");
            Err(BridgeError::Parse(m))
        },
    }
}

/// Emits one VAR section; the internal one also declares the FB instances
/// listed (ascending) in `sorted`.
fn write_var_section(
    em: &mut StEmitter,
    vars: &Vec<LdVariable>,
    blocks: &Vec<FbdBlock>,
    insts: &Vec<String>,
    sorted: &Vec<String>,
    section: LdVarSection,
    Ghost(ls): Ghost<Seq<StLine>>,
)
    requires
        old(em).holds(ls),
        views(insts@) == block_instances(blocks@),
        views(sorted@) == sort_dedup(block_instances(blocks@)),
    ensures
        final(em).holds(ls + var_section_lines(vars@, blocks@, section)),
{
    let ghost bs = blocks@;
    let mut header = String::from_str("    ");
    match section {
        LdVarSection::Input => header.append("VAR_INPUT"),
        LdVarSection::Output => header.append("VAR_OUTPUT"),
        LdVarSection::Internal => header.append("VAR"),
    }
    em.line(None, header.as_str(), Ghost(ls));
    let ghost start = ls.push(plain("    "@ + section_header(section)));
    let mut i: usize = 0;
    while i < vars.len()
        invariant
            i <= vars.len(),
            em.holds(start + var_decl_lines(vars@.take(i as int), section)),
        decreases vars.len() - i,
    {
        let ghost cur = start + var_decl_lines(vars@.take(i as int), section);
        assert(vars@.take(i + 1).drop_last() =~= vars@.take(i as int));
        assert(vars@.take(i + 1).last() == vars@[i as int]);
        let v = &vars[i];
        if v.section == section {
            let mut s = String::from_str("        ");
            s.append(v.name.as_str());
            s.append(" : ");
            s.append(v.iec_type.as_str());
            match &v.init {
                Some(init) => {
                    s.append(" := ");
                    s.append(init.as_str());
                },
                None => {},
            }
            s.append(";");
            assert(s@ == var_decl_line(*v).text);
            let loc = FbdLocation::Variable { name: v.name.clone() };
            assert(opt_loc_view(Some(loc)) == var_decl_line(*v).at);
            em.line(Some(loc), s.as_str(), Ghost(cur));
            assert(StLine { text: s@, at: opt_loc_view(Some(loc)) } == var_decl_line(*v));
            assert(cur.push(var_decl_line(*v)) =~= start + var_decl_lines(
                vars@.take(i + 1),
                section,
            ));
        } else {
            assert(cur =~= start + var_decl_lines(vars@.take(i + 1), section));
        }
        i = i + 1;
    }
    assert(vars@.take(vars.len() as int) =~= vars@);
    let ghost after_vars = start + var_decl_lines(vars@, section);
    let ghost mut cur = after_vars;
    if section == LdVarSection::Internal {
        let mut k: usize = 0;
        while k < sorted.len()
            invariant
                k <= sorted.len(),
                bs == blocks@,
                views(insts@) == block_instances(bs),
                views(sorted@) == sort_dedup(block_instances(bs)),
                em.holds(after_vars + instance_decl_lines(bs).take(k as int)),
            decreases sorted.len() - k,
        {
            let name = &sorted[k];
            let mut s = String::from_str("        ");
            s.append(name.as_str());
            s.append(" : ");
            match index_of_string(insts, name) {
                Some(j) => {
                    proof {
                        lemma_first_index_bounds(views(insts@), name@);
                    }
                    s.append(blocks[j].fb_type.as_str());
                },
                None => {},
            }
            s.append(";");
            assert(views(sorted@)[k as int] == name@);
            em.line(None, s.as_str(), Ghost(after_vars + instance_decl_lines(bs).take(k as int)));
            assert(instance_decl_lines(bs).take(k + 1) =~= instance_decl_lines(bs).take(
                k as int,
            ).push(instance_decl_lines(bs)[k as int]));
            assert((after_vars + instance_decl_lines(bs).take(k as int)).push(
                instance_decl_lines(bs)[k as int],
            ) =~= after_vars + instance_decl_lines(bs).take(k + 1));
            k = k + 1;
        }
        assert(instance_decl_lines(bs).take(sorted.len() as int) =~= instance_decl_lines(bs));
        proof {
            cur = after_vars + instance_decl_lines(bs);
        }
    } else {
        assert(after_vars + Seq::<StLine>::empty() =~= after_vars);
    }
    em.line(None, "    END_VAR", Ghost(cur));
    assert(cur.push(plain("    END_VAR"@)) =~= ls + var_section_lines(vars@, blocks@, section));
}


/// Renders an FBD program as a complete ST source, with one source-map
/// entry per emitted line. Errors (always `Parse`) name the first
/// inconsistency: see `validation_problem`, then a wire cycle, then a
/// pin without a name or an empty variable or literal, in call order.
pub fn transpile_to_st_with_map(prog: &FbdProgram) -> (r: Result<(String, FbdSourceMap), BridgeError>)
    ensures
        match r {
            Ok((st, map)) => fbd_transpile(*prog) matches Ok(ls) && st@ == lines_text(ls)
                && map_view(map.lines@) == lines_map(ls),
            Err(BridgeError::Parse(m)) => fbd_transpile(*prog) == Err::<Seq<StLine>, Seq<char>>(
                m@,
            ),
            Err(_) => false,
        },
{
    let ghost bs = prog.blocks@;
    if prog.name.as_str().is_empty() {
        return Err(BridgeError::Parse(String::from_str("FBD program name is empty")));
    }
    let ids = match check_block_ids(&prog.blocks) {
        Ok(ids) => ids,
        Err(m) => {
            return Err(BridgeError::Parse(m));
        },
    };
    let insts = match check_instances(&prog.blocks) {
        Ok(insts) => insts,
        Err(m) => {
            return Err(BridgeError::Parse(m));
        },
    };
    match check_wires(&prog.blocks, &ids) {
        Some(m) => {
            return Err(BridgeError::Parse(m));
        },
        None => {},
    }
    match check_output_sources(&prog.outputs, &ids) {
        Some(m) => {
            return Err(BridgeError::Parse(m));
        },
        None => {},
    }
    match check_output_drives(&prog.outputs) {
        Some(m) => {
            return Err(BridgeError::Parse(m));
        },
        None => {},
    }
    let order = match topo_sort(&prog.blocks, &ids) {
        Ok(order) => order,
        Err(e) => {
            return Err(e);
        },
    };
    assert(validation_problem(*prog) is None);
    let ghost ord = topo_order(bs);
    assert(ord.len() == bs.len());
    assert(fbd_transpile(*prog) == fbd_lines(*prog, ord));
    // FB instances, ascending by name.
    let mut sorted: Vec<String> = Vec::new();
    let mut i: usize = 0;
    assert(views(sorted@) =~= sort_dedup(views(insts@).take(0)));
    while i < insts.len()
        invariant
            i <= insts.len(),
            views(sorted@) == sort_dedup(views(insts@).take(i as int)),
        decreases insts.len() - i,
    {
        proof {
            lemma_sort_dedup_push(views(insts@).take(i as int), insts@[i as int]@);
            assert(views(insts@).take(i + 1) =~= views(insts@).take(i as int).push(
                insts@[i as int]@,
            ));
        }
        insert_sorted_string(&mut sorted, insts[i].clone());
        i = i + 1;
    }
    assert(views(insts@).take(insts.len() as int) =~= views(insts@));
    let mut em = StEmitter::new();
    let mut head = String::new();
    match prog.pou_type {
        LdPouType::Program => head.append("PROGRAM"),
        LdPouType::FunctionBlock => head.append("FUNCTION_BLOCK"),
    }
    head.append(" ");
    head.append(prog.name.as_str());
    em.line(None, head.as_str(), Ghost(Seq::empty()));
    let ghost l0 = seq![plain(pou_head(prog.pou_type) + " "@ + prog.name@)];
    assert(Seq::<StLine>::empty().push(plain(head@)) =~= l0);
    write_var_section(&mut em, &prog.variables, &prog.blocks, &insts, &sorted, LdVarSection::Input, Ghost(l0));
    let ghost l1 = l0 + var_section_lines(prog.variables@, bs, LdVarSection::Input);
    write_var_section(&mut em, &prog.variables, &prog.blocks, &insts, &sorted, LdVarSection::Output, Ghost(l1));
    let ghost l2 = l1 + var_section_lines(prog.variables@, bs, LdVarSection::Output);
    write_var_section(&mut em, &prog.variables, &prog.blocks, &insts, &sorted, LdVarSection::Internal, Ghost(l2));
    let ghost l3 = l2 + var_section_lines(prog.variables@, bs, LdVarSection::Internal);
    em.blank(Ghost(l3));
    let ghost hd = l3.push(plain(Seq::empty()));
    assert(hd =~= head_lines(*prog));
    // Block calls, in execution order.
    let mut p: usize = 0;
    assert(usizes(order@).take(0) =~= Seq::<int>::empty());
    assert(hd + Seq::<StLine>::empty() =~= hd);
    while p < order.len()
        invariant
            bs == prog.blocks@,
            views(ids@) == block_ids(bs),
            usizes(order@) == ord,
            forall|j: int| 0 <= j < order.len() ==> order@[j] < bs.len(),
            p <= order.len(),
            call_lines(bs, ord.take(p as int)) matches Ok(cl) && em.holds(hd + cl),
            fbd_transpile(*prog) == fbd_lines(*prog, ord),
        decreases order.len() - p,
    {
        let ghost cl = call_lines(bs, ord.take(p as int))->Ok_0;
        assert(ord.take(p + 1).drop_last() =~= ord.take(p as int));
        assert(ord.take(p + 1).last() == order@[p as int] as int);
        let b = &prog.blocks[order[p]];
        match render_inputs(&b.inputs, &ids, &prog.blocks) {
            Ok(args) => {
                let mut s = String::from_str("    ");
                s.append(b.instance.as_str());
                s.append("(");
                s.append(args.as_str());
                s.append(");");
                em.line(Some(FbdLocation::Block { block_id: b.id.clone() }), s.as_str(), Ghost(hd + cl));
                assert((hd + cl).push(call_line(bs, order@[p as int] as int)->Ok_0) =~= hd + (cl.push(
                    call_line(bs, order@[p as int] as int)->Ok_0,
                )));
            },
            Err(BridgeError::Parse(m)) => {
                proof {
                    lemma_call_lines_prefix_fails(bs, ord, p + 1);
                }
                return Err(BridgeError::Parse(m));
            },
            Err(e) => {
                return Err(e);
            },
        }
        p = p + 1;
    }
    assert(ord.take(order.len() as int) =~= ord);
    let ghost calls = call_lines(bs, ord)->Ok_0;
    let ghost body = hd + calls;
    let ghost mut tail_start = body;
    if prog.outputs.len() > 0 {
        em.blank(Ghost(body));
        proof {
            tail_start = body.push(plain(Seq::empty()));
        }
    }
    let mut k: usize = 0;
    assert(prog.outputs@.take(0) =~= Seq::<FbdOutputBinding>::empty());
    assert(tail_start + Seq::<StLine>::empty() =~= tail_start);
    while k < prog.outputs.len()
        invariant
            bs == prog.blocks@,
            views(ids@) == block_ids(bs),
            k <= prog.outputs.len(),
            output_lines(bs, prog.outputs@.take(k as int)) matches Ok(ol) && em.holds(
                tail_start + ol,
            ),
            fbd_transpile(*prog) == fbd_lines(*prog, ord),
            call_lines(bs, ord) is Ok,
        decreases prog.outputs.len() - k,
    {
        let ghost ol = output_lines(bs, prog.outputs@.take(k as int))->Ok_0;
        assert(prog.outputs@.take(k + 1).drop_last() =~= prog.outputs@.take(k as int));
        assert(prog.outputs@.take(k + 1).last() == prog.outputs@[k as int]);
        match emit_output_binding(&mut em, &prog.outputs[k], &ids, &prog.blocks, Ghost(tail_start + ol)) {
            Ok(()) => {
                assert((tail_start + ol).push(output_line(bs, prog.outputs@[k as int])->Ok_0) =~= tail_start + ol.push(
                    output_line(bs, prog.outputs@[k as int])->Ok_0,
                ));
            },
            Err(BridgeError::Parse(m)) => {
                proof {
                    lemma_output_lines_prefix_fails(bs, prog.outputs@, k + 1);
                }
                return Err(BridgeError::Parse(m));
            },
            Err(e) => {
                return Err(e);
            },
        }
        k = k + 1;
    }
    assert(prog.outputs@.take(prog.outputs.len() as int) =~= prog.outputs@);
    let ghost outl = output_lines(bs, prog.outputs@)->Ok_0;
    let ghost before_foot = tail_start + outl;
    let mut foot = String::new();
    match prog.pou_type {
        LdPouType::Program => foot.append("END_PROGRAM"),
        LdPouType::FunctionBlock => foot.append("END_FUNCTION_BLOCK"),
    }
    em.line(None, foot.as_str(), Ghost(before_foot));
    proof {
        let all = fbd_lines(*prog, ord)->Ok_0;
        if prog.outputs@.len() == 0 {
            assert(outl =~= Seq::<StLine>::empty());
        }
        assert(before_foot.push(plain(pou_foot(prog.pou_type))) =~= all);
    }
    Ok((em.out, FbdSourceMap { lines: em.map }))
}

/// As `transpile_to_st_with_map`, without the source map.
pub fn transpile_to_st(prog: &FbdProgram) -> (r: Result<String, BridgeError>)
    ensures
        match r {
            Ok(st) => fbd_transpile(*prog) matches Ok(ls) && st@ == lines_text(ls),
            Err(BridgeError::Parse(m)) => fbd_transpile(*prog) == Err::<Seq<StLine>, Seq<char>>(
                m@,
            ),
            Err(_) => false,
        },
{
    match transpile_to_st_with_map(prog) {
        Ok((st, _map)) => Ok(st),
        Err(e) => Err(e),
    }
}


/// A consistent program is refused for its wires exactly when they form a
/// cycle; otherwise its calls follow a topological order of the wires.
pub proof fn transpile_refuses_exactly_cycles(prog: FbdProgram)
    requires
        validation_problem(prog) is None,
    ensures
        (exists|t: Seq<int>| is_topological(prog.blocks@, t)) ==> fbd_transpile(prog) == fbd_lines(
            prog,
            topo_order(prog.blocks@),
        ) && is_topological(prog.blocks@, topo_order(prog.blocks@)),
        !(exists|t: Seq<int>| is_topological(prog.blocks@, t)) ==> fbd_transpile(prog) == Err::<
            Seq<StLine>,
            Seq<char>,
        >(cycle_msg(prog.blocks@)),
{
    let bs = prog.blocks@;
    topo_order_complete_iff_acyclic(bs);
    topo_order_is_topological(bs);
    crate::fbd_order::lemma_distinct_bound(topo_order(bs), bs.len() as int);
}

// ----- The source map: one entry per block and per output -----

proof fn lemma_first_some_all_none(s: Seq<Option<Seq<char>>>)
    requires
        first_some(s) is None,
    ensures
        forall|i: int| 0 <= i < s.len() ==> #[trigger] s[i] is None,
    decreases s.len(),
{
    if s.len() > 0 {
        lemma_first_some_all_none(s.drop_last());
        assert forall|i: int| 0 <= i < s.len() implies #[trigger] s[i] is None by {
            if i < s.len() - 1 {
                assert(s[i] == s.drop_last()[i]);
            }
        }
    }
}

proof fn lemma_ids_distinct(bs: Seq<FbdBlock>)
    requires
        id_problem(bs) is None,
    ensures
        forall|i: int, j: int| 0 <= i < j < bs.len() ==> #[trigger] bs[i].id@ != #[trigger] bs[j].id@,
{
    let checks = Seq::new(bs.len(), |i: int| id_check(bs, i));
    lemma_first_some_all_none(checks);
    assert forall|i: int, j: int| 0 <= i < j < bs.len() implies #[trigger] bs[i].id@
        != #[trigger] bs[j].id@ by {
        assert(checks[j] is None);
        assert(block_ids(bs.take(j))[i] == bs[i].id@);
    }
}

proof fn lemma_outputs_distinct(outs: Seq<FbdOutputBinding>)
    requires
        output_drive_problem(outs) is None,
    ensures
        forall|i: int, j: int|
            0 <= i < j < outs.len() ==> #[trigger] outs[i].variable@ != #[trigger] outs[j].variable@,
{
    let checks = Seq::new(outs.len(), |i: int| output_drive_check(outs, i));
    lemma_first_some_all_none(checks);
    assert forall|i: int, j: int| 0 <= i < j < outs.len() implies #[trigger] outs[i].variable@
        != #[trigger] outs[j].variable@ by {
        assert(checks[j] is None);
        let vs = output_vars(outs.take(j));
        assert(vs[i] == outs[i].variable@);
        if first_index(vs, outs[j].variable@) is None {
            crate::text::lemma_first_index_none_means(vs, outs[j].variable@, i);
        }
    }
}

/// A line that names no block and no output binding.
pub open spec fn neutral(l: StLine) -> bool {
    match l.at {
        None => true,
        Some(FbdLocationView::Variable(_)) => true,
        _ => false,
    }
}

proof fn lemma_var_decls_neutral(vars: Seq<LdVariable>, sec: LdVarSection)
    ensures
        forall|k: int|
            0 <= k < var_decl_lines(vars, sec).len() ==> neutral(#[trigger] var_decl_lines(vars, sec)[k]),
    decreases vars.len(),
{
    if vars.len() > 0 {
        lemma_var_decls_neutral(vars.drop_last(), sec);
        let a = var_decl_lines(vars.drop_last(), sec);
        let b = if vars.last().section == sec {
            seq![var_decl_line(vars.last())]
        } else {
            Seq::<StLine>::empty()
        };
        assert forall|k: int| 0 <= k < (a + b).len() implies neutral(#[trigger] (a + b)[k]) by {
            if k < a.len() {
                assert((a + b)[k] == a[k]);
            } else {
                assert((a + b)[k] == b[k - a.len()]);
            }
        }
    }
}

proof fn lemma_concat_neutral(a: Seq<StLine>, b: Seq<StLine>)
    requires
        forall|k: int| 0 <= k < a.len() ==> neutral(#[trigger] a[k]),
        forall|k: int| 0 <= k < b.len() ==> neutral(#[trigger] b[k]),
    ensures
        forall|k: int| 0 <= k < (a + b).len() ==> neutral(#[trigger] (a + b)[k]),
{
    assert forall|k: int| 0 <= k < (a + b).len() implies neutral(#[trigger] (a + b)[k]) by {
        if k < a.len() {
            assert((a + b)[k] == a[k]);
        } else {
            assert((a + b)[k] == b[k - a.len()]);
        }
    }
}

proof fn lemma_section_neutral(vars: Seq<LdVariable>, bs: Seq<FbdBlock>, sec: LdVarSection)
    ensures
        forall|k: int|
            0 <= k < var_section_lines(vars, bs, sec).len() ==> neutral(
                #[trigger] var_section_lines(vars, bs, sec)[k],
            ),
{
    lemma_var_decls_neutral(vars, sec);
    let head = seq![plain("    "@ + section_header(sec))];
    let inst = if sec == LdVarSection::Internal {
        instance_decl_lines(bs)
    } else {
        Seq::<StLine>::empty()
    };
    let foot = seq![plain("    END_VAR"@)];
    assert forall|k: int| 0 <= k < inst.len() implies neutral(#[trigger] inst[k]) by {}
    assert(forall|k: int| 0 <= k < head.len() ==> neutral(#[trigger] head[k]));
    assert(forall|k: int| 0 <= k < foot.len() ==> neutral(#[trigger] foot[k]));
    lemma_concat_neutral(head, var_decl_lines(vars, sec));
    lemma_concat_neutral(head + var_decl_lines(vars, sec), inst);
    lemma_concat_neutral(head + var_decl_lines(vars, sec) + inst, foot);
}

proof fn lemma_head_neutral(prog: FbdProgram)
    ensures
        forall|k: int| 0 <= k < head_lines(prog).len() ==> neutral(#[trigger] head_lines(prog)[k]),
{
    let vs = prog.variables@;
    let bs = prog.blocks@;
    let a = seq![plain(pou_head(prog.pou_type) + " "@ + prog.name@)];
    let i = var_section_lines(vs, bs, LdVarSection::Input);
    let o = var_section_lines(vs, bs, LdVarSection::Output);
    let n = var_section_lines(vs, bs, LdVarSection::Internal);
    let z = seq![plain(Seq::empty())];
    lemma_section_neutral(vs, bs, LdVarSection::Input);
    lemma_section_neutral(vs, bs, LdVarSection::Output);
    lemma_section_neutral(vs, bs, LdVarSection::Internal);
    assert(forall|k: int| 0 <= k < a.len() ==> neutral(#[trigger] a[k]));
    assert(forall|k: int| 0 <= k < z.len() ==> neutral(#[trigger] z[k]));
    lemma_concat_neutral(a, i);
    lemma_concat_neutral(a + i, o);
    lemma_concat_neutral(a + i + o, n);
    lemma_concat_neutral(a + i + o + n, z);
}

proof fn lemma_call_lines_at(bs: Seq<FbdBlock>, order: Seq<int>)
    requires
        call_lines(bs, order) is Ok,
    ensures
        call_lines(bs, order)->Ok_0.len() == order.len(),
        forall|k: int|
            0 <= k < order.len() ==> (#[trigger] call_lines(bs, order)->Ok_0[k]).at == Some(
                FbdLocationView::Block(bs[order[k]].id@),
            ),
    decreases order.len(),
{
    if order.len() > 0 {
        lemma_call_lines_at(bs, order.drop_last());
        let c = call_lines(bs, order);
        let p = call_lines(bs, order.drop_last())->Ok_0;
        assert forall|k: int| 0 <= k < order.len() implies (#[trigger] c->Ok_0[k]).at == Some(
            FbdLocationView::Block(bs[order[k]].id@),
        ) by {
            if k < order.len() - 1 {
                assert(c->Ok_0[k] == p[k]);
                assert(order[k] == order.drop_last()[k]);
            }
        }
    }
}

proof fn lemma_output_lines_at(bs: Seq<FbdBlock>, outs: Seq<FbdOutputBinding>)
    requires
        output_lines(bs, outs) is Ok,
    ensures
        output_lines(bs, outs)->Ok_0.len() == outs.len(),
        forall|k: int|
            0 <= k < outs.len() ==> (#[trigger] output_lines(bs, outs)->Ok_0[k]).at == Some(
                FbdLocationView::Output(outs[k].variable@),
            ),
    decreases outs.len(),
{
    if outs.len() > 0 {
        lemma_output_lines_at(bs, outs.drop_last());
        let c = output_lines(bs, outs);
        let p = output_lines(bs, outs.drop_last())->Ok_0;
        assert forall|k: int| 0 <= k < outs.len() implies (#[trigger] c->Ok_0[k]).at == Some(
            FbdLocationView::Output(outs[k].variable@),
        ) by {
            if k < outs.len() - 1 {
                assert(c->Ok_0[k] == p[k]);
                assert(outs[k] == outs.drop_last()[k]);
            }
        }
    }
}

proof fn lemma_order_covers(t: Seq<int>, n: int, j: int)
    requires
        t.len() == n,
        t.no_duplicates(),
        crate::fbd_order::in_range(t, n),
        0 <= j < n,
    ensures
        exists|k: int| 0 <= k < t.len() && t[k] == j,
{
    if !(exists|k: int| 0 <= k < t.len() && t[k] == j) {
        let u = t.map_values(|v: int| if v > j { v - 1 } else { v });
        assert forall|a: int, b: int| 0 <= a < u.len() && 0 <= b < u.len() && a != b implies u[a]
            != u[b] by {
            assert(t[a] != j && t[b] != j);
        }
        assert forall|a: int| 0 <= a < u.len() implies 0 <= #[trigger] u[a] < n - 1 by {
            assert(t[a] != j);
        }
        crate::fbd_order::lemma_distinct_bound(u, n - 1);
    }
}

/// The source map of a transpiled FBD program holds exactly one entry for
/// each block (its call line) and exactly one for each output binding
/// (its assignment line); no other entry names a block or an output.
pub proof fn source_map_one_entry_per_element(prog: FbdProgram)
    ensures
        fbd_transpile(prog) matches Ok(ls) ==> {
            let m = lines_map(ls);
            let bs = prog.blocks@;
            let outs = prog.outputs@;
            &&& m.len() == ls.len()
            &&& forall|j: int|
                0 <= j < bs.len() ==> exists|i: int|
                    0 <= i < m.len() && m[i] == Some(FbdLocationView::Block(#[trigger] bs[j].id@))
                        && forall|i2: int|
                        0 <= i2 < m.len() && m[i2] == Some(FbdLocationView::Block(bs[j].id@)) ==> i2
                            == i
            &&& forall|j: int|
                0 <= j < outs.len() ==> exists|i: int|
                    0 <= i < m.len() && m[i] == Some(
                        FbdLocationView::Output(#[trigger] outs[j].variable@),
                    ) && forall|i2: int|
                        0 <= i2 < m.len() && m[i2] == Some(
                            FbdLocationView::Output(outs[j].variable@),
                        ) ==> i2 == i
        },
{
    if let Ok(ls) = fbd_transpile(prog) {
        let bs = prog.blocks@;
        let outs = prog.outputs@;
        let order = topo_order(bs);
        topo_order_is_topological(bs);
        crate::fbd_order::lemma_distinct_bound(order, bs.len() as int);
        assert(validation_problem(prog) is None);
        assert(order.len() == bs.len());
        lemma_ids_distinct(bs);
        lemma_outputs_distinct(outs);
        lemma_call_lines_at(bs, order);
        lemma_output_lines_at(bs, outs);
        lemma_head_neutral(prog);
        let h = head_lines(prog);
        let c = call_lines(bs, order)->Ok_0;
        let o = output_lines(bs, outs)->Ok_0;
        let mid = if outs.len() == 0 {
            Seq::<StLine>::empty()
        } else {
            seq![plain(Seq::empty())] + o
        };
        let f = seq![plain(pou_foot(prog.pou_type))];
        assert(ls == h + c + mid + f);
        let m = lines_map(ls);
        // Where each kind of entry sits.
        assert forall|i: int| 0 <= i < ls.len() implies #[trigger] ls[i] == if i < h.len() {
            h[i]
        } else if i < h.len() + c.len() {
            c[i - h.len()]
        } else if i < h.len() + c.len() + mid.len() {
            mid[i - h.len() - c.len()]
        } else {
            f[i - h.len() - c.len() - mid.len()]
        } by {}
        assert forall|k: int| 0 <= k < mid.len() implies (#[trigger] mid[k]).at == if k == 0 {
            None
        } else {
            Some(FbdLocationView::Output(outs[k - 1].variable@))
        } by {
            if k > 0 {
                assert(mid[k] == o[k - 1]);
            }
        }
        assert forall|j: int| 0 <= j < bs.len() implies exists|i: int|
            0 <= i < m.len() && m[i] == Some(FbdLocationView::Block(#[trigger] bs[j].id@))
                && forall|i2: int|
                0 <= i2 < m.len() && m[i2] == Some(FbdLocationView::Block(bs[j].id@)) ==> i2
                    == i by {
            lemma_order_covers(order, bs.len() as int, j);
            let k = choose|k: int| 0 <= k < order.len() && order[k] == j;
            let i = h.len() + k;
            assert(ls[i] == c[k]);
            assert(m[i] == ls[i].at);
            assert forall|i2: int|
                0 <= i2 < m.len() && m[i2] == Some(FbdLocationView::Block(bs[j].id@)) implies i2
                == i by {
                assert(m[i2] == ls[i2].at);
                if i2 < h.len() {
                    assert(neutral(h[i2]));
                } else if i2 < h.len() + c.len() {
                    let k2 = i2 - h.len();
                    assert(c[k2].at == Some(FbdLocationView::Block(bs[order[k2]].id@)));
                    assert(bs[order[k2]].id@ == bs[j].id@);
                    if order[k2] != j {
                        if order[k2] < j {
                            assert(bs[order[k2]].id@ != bs[j].id@);
                        } else {
                            assert(bs[j].id@ != bs[order[k2]].id@);
                        }
                    }
                    assert(order[k2] == order[k]);
                } else if i2 < h.len() + c.len() + mid.len() {
                    assert(mid[i2 - h.len() - c.len()].at == ls[i2].at);
                } else {
                    assert(f[i2 - h.len() - c.len() - mid.len()].at is None);
                }
            }
        }
        assert forall|j: int| 0 <= j < outs.len() implies exists|i: int|
            0 <= i < m.len() && m[i] == Some(FbdLocationView::Output(#[trigger] outs[j].variable@))
                && forall|i2: int|
                0 <= i2 < m.len() && m[i2] == Some(FbdLocationView::Output(outs[j].variable@))
                    ==> i2 == i by {
            let i = h.len() + c.len() + 1 + j;
            assert(mid[1 + j].at == Some(FbdLocationView::Output(outs[j].variable@)));
            assert(ls[i] == mid[1 + j]);
            assert(m[i] == ls[i].at);
            assert forall|i2: int|
                0 <= i2 < m.len() && m[i2] == Some(FbdLocationView::Output(outs[j].variable@))
                    implies i2 == i by {
                assert(m[i2] == ls[i2].at);
                if i2 < h.len() {
                    assert(neutral(h[i2]));
                } else if i2 < h.len() + c.len() {
                    let k2 = i2 - h.len();
                    assert(c[k2].at == Some(FbdLocationView::Block(bs[order[k2]].id@)));
                } else if i2 < h.len() + c.len() + mid.len() {
                    let k2 = i2 - h.len() - c.len();
                    assert(mid[k2].at == ls[i2].at);
                    if k2 > 0 && k2 - 1 != j {
                        if k2 - 1 < j {
                            assert(outs[k2 - 1].variable@ != outs[j].variable@);
                        } else {
                            assert(outs[j].variable@ != outs[k2 - 1].variable@);
                        }
                    }
                } else {
                    assert(f[i2 - h.len() - c.len() - mid.len()].at is None);
                }
            }
        }
    }
}

// ----- When transpiling fails -----

proof fn lemma_first_some_exists(s: Seq<Option<Seq<char>>>)
    ensures
        first_some(s) is Some <==> exists|i: int| 0 <= i < s.len() && #[trigger] s[i] is Some,
    decreases s.len(),
{
    if s.len() > 0 {
        lemma_first_some_exists(s.drop_last());
        if exists|i: int| 0 <= i < s.drop_last().len() && #[trigger] s.drop_last()[i] is Some {
            let i = choose|i: int| 0 <= i < s.drop_last().len() && #[trigger] s.drop_last()[i] is Some;
            assert(s[i] is Some);
        }
        if exists|i: int| 0 <= i < s.len() && #[trigger] s[i] is Some {
            let i = choose|i: int| 0 <= i < s.len() && #[trigger] s[i] is Some;
            if i < s.len() - 1 {
                assert(s.drop_last()[i] is Some);
            }
        }
    }
}

/// An input pin that cannot become a call argument: it has no pin name,
/// or it reads a variable without a name, or an empty literal.
pub open spec fn bad_input(inp: FbdInputBinding) -> bool {
    inp.pin@.len() == 0 || match inp.value {
        FbdInputSource::Var { name } => name@.len() == 0,
        FbdInputSource::Literal { value } => value@.len() == 0,
        FbdInputSource::Block { .. } => false,
    }
}

/// Everything that keeps an FBD program from transpiling: no name; a
/// block with an empty or repeated id, an empty instance or type, or an
/// instance another block uses; a pin wired from an unknown block or from
/// an unnamed pin; an output binding from an unknown block, with an empty
/// variable, or driving a variable another binding drives; a block wired
/// to itself; wires forming a cycle; an input pin that cannot become a
/// call argument.
pub open spec fn fbd_defect(prog: FbdProgram) -> bool {
    let bs = prog.blocks@;
    let outs = prog.outputs@;
    let ids = block_ids(bs);
    ||| prog.name@.len() == 0
    ||| exists|i: int| 0 <= i < bs.len() && #[trigger] id_check(bs, i) is Some
    ||| exists|i: int| 0 <= i < bs.len() && #[trigger] instance_check(bs, i) is Some
    ||| exists|i: int, k: int|
        0 <= i < bs.len() && 0 <= k < bs[i].inputs@.len() && #[trigger] wire_check(bs[i], ids, k) is Some
    ||| exists|i: int| 0 <= i < outs.len() && #[trigger] output_source_check(outs, ids, i) is Some
    ||| exists|i: int| 0 <= i < outs.len() && #[trigger] output_drive_check(outs, i) is Some
    ||| exists|i: int| 0 <= i < bs.len() && #[trigger] crate::fbd_order::self_ref_check(bs, i) is Some
    ||| !(exists|t: Seq<int>| is_topological(bs, t))
    ||| exists|i: int, k: int|
        0 <= i < bs.len() && 0 <= k < bs[i].inputs@.len() && bad_input(#[trigger] bs[i].inputs@[k])
}

proof fn lemma_validation_exists(prog: FbdProgram)
    ensures
        validation_problem(prog) is Some <==> {
            let bs = prog.blocks@;
            let outs = prog.outputs@;
            let ids = block_ids(bs);
            ||| prog.name@.len() == 0
            ||| exists|i: int| 0 <= i < bs.len() && #[trigger] id_check(bs, i) is Some
            ||| exists|i: int| 0 <= i < bs.len() && #[trigger] instance_check(bs, i) is Some
            ||| exists|i: int, k: int|
                0 <= i < bs.len() && 0 <= k < bs[i].inputs@.len() && #[trigger] wire_check(bs[i], ids, k)
                    is Some
            ||| exists|i: int| 0 <= i < outs.len() && #[trigger] output_source_check(outs, ids, i) is Some
            ||| exists|i: int| 0 <= i < outs.len() && #[trigger] output_drive_check(outs, i) is Some
            ||| exists|i: int| 0 <= i < bs.len() && #[trigger] crate::fbd_order::self_ref_check(bs, i) is Some
        },
{
    let bs = prog.blocks@;
    let outs = prog.outputs@;
    let ids = block_ids(bs);
    let a = Seq::new(bs.len(), |i: int| id_check(bs, i));
    let b = Seq::new(bs.len(), |i: int| instance_check(bs, i));
    let w = Seq::new(bs.len(), |i: int| block_wire_problem(bs[i], ids));
    let c = Seq::new(outs.len(), |i: int| output_source_check(outs, ids, i));
    let d = Seq::new(outs.len(), |i: int| output_drive_check(outs, i));
    let e = Seq::new(bs.len(), |i: int| crate::fbd_order::self_ref_check(bs, i));
    lemma_first_some_exists(a);
    lemma_first_some_exists(b);
    lemma_first_some_exists(w);
    lemma_first_some_exists(c);
    lemma_first_some_exists(d);
    lemma_first_some_exists(e);
    assert(forall|i: int| 0 <= i < bs.len() ==> #[trigger] a[i] == id_check(bs, i));
    assert(forall|i: int| 0 <= i < bs.len() ==> #[trigger] b[i] == instance_check(bs, i));
    assert(forall|i: int| 0 <= i < outs.len() ==> #[trigger] c[i] == output_source_check(outs, ids, i));
    assert(forall|i: int| 0 <= i < outs.len() ==> #[trigger] d[i] == output_drive_check(outs, i));
    assert(forall|i: int| 0 <= i < bs.len() ==> #[trigger] e[i] == crate::fbd_order::self_ref_check(bs, i));
    assert(crate::fbd_order::self_ref_problem(bs) == first_some(e));
    assert(id_problem(bs) == first_some(a));
    assert(instance_problem(bs) == first_some(b));
    assert(wire_problem(bs) == first_some(w));
    assert(output_source_problem(outs, ids) == first_some(c));
    assert(output_drive_problem(outs) == first_some(d));
    assert forall|i: int| 0 <= i < bs.len() implies (#[trigger] w[i] is Some <==> exists|k: int|
        0 <= k < bs[i].inputs@.len() && #[trigger] wire_check(bs[i], ids, k) is Some) by {
        let ws = Seq::new(bs[i].inputs@.len(), |k: int| wire_check(bs[i], ids, k));
        lemma_first_some_exists(ws);
        assert(forall|k: int| 0 <= k < ws.len() ==> #[trigger] ws[k] == wire_check(bs[i], ids, k));
        assert(w[i] == block_wire_problem(bs[i], ids));
        assert(ws =~= Seq::new(bs[i].inputs@.len(), |k: int| wire_check(bs[i], ids, k)));
        assert(block_wire_problem(bs[i], ids) == first_some(ws));
        if w[i] is Some {
            let k = choose|k: int| 0 <= k < ws.len() && #[trigger] ws[k] is Some;
            assert(wire_check(bs[i], ids, k) is Some);
        }
        if exists|k: int| 0 <= k < bs[i].inputs@.len() && #[trigger] wire_check(bs[i], ids, k) is Some {
            let k = choose|k: int| 0 <= k < bs[i].inputs@.len() && #[trigger] wire_check(bs[i], ids, k) is Some;
            assert(ws[k] is Some);
        }
    }
    if exists|i: int| 0 <= i < w.len() && #[trigger] w[i] is Some {
        let i = choose|i: int| 0 <= i < w.len() && #[trigger] w[i] is Some;
        let k = choose|k: int| 0 <= k < bs[i].inputs@.len() && #[trigger] wire_check(bs[i], ids, k) is Some;
        assert(wire_check(bs[i], ids, k) is Some);
    }
    if exists|i: int| 0 <= i < bs.len() && #[trigger] crate::fbd_order::self_ref_check(bs, i) is Some {
        let i = choose|i: int| 0 <= i < bs.len() && #[trigger] crate::fbd_order::self_ref_check(bs, i) is Some;
        assert(e[i] is Some);
    }
    if exists|i: int| 0 <= i < bs.len() && #[trigger] id_check(bs, i) is Some {
        let i = choose|i: int| 0 <= i < bs.len() && #[trigger] id_check(bs, i) is Some;
        assert(a[i] is Some);
    }
    if exists|i: int| 0 <= i < bs.len() && #[trigger] instance_check(bs, i) is Some {
        let i = choose|i: int| 0 <= i < bs.len() && #[trigger] instance_check(bs, i) is Some;
        assert(b[i] is Some);
    }
    if exists|i: int| 0 <= i < outs.len() && #[trigger] output_source_check(outs, ids, i) is Some {
        let i = choose|i: int| 0 <= i < outs.len() && #[trigger] output_source_check(outs, ids, i) is Some;
        assert(c[i] is Some);
    }
    if exists|i: int| 0 <= i < outs.len() && #[trigger] output_drive_check(outs, i) is Some {
        let i = choose|i: int| 0 <= i < outs.len() && #[trigger] output_drive_check(outs, i) is Some;
        assert(d[i] is Some);
    }
    if exists|i: int, k: int|
        0 <= i < bs.len() && 0 <= k < bs[i].inputs@.len() && #[trigger] wire_check(bs[i], ids, k) is Some {
        let (i, k) = choose|i: int, k: int|
            0 <= i < bs.len() && 0 <= k < bs[i].inputs@.len() && #[trigger] wire_check(bs[i], ids, k)
                is Some;
        assert(w[i] is Some);
    }
}

proof fn lemma_value_text_ok(bs: Seq<FbdBlock>, inp: FbdInputBinding)
    requires
        !(inp.value matches FbdInputSource::Block { block_id, .. } && !block_ids(bs).contains(
            block_id@,
        )),
    ensures
        value_text(bs, inp.value) is Err <==> match inp.value {
            FbdInputSource::Var { name } => name@.len() == 0,
            FbdInputSource::Literal { value } => value@.len() == 0,
            FbdInputSource::Block { .. } => false,
        },
{
    if let FbdInputSource::Block { block_id, .. } = inp.value {
        if first_index(block_ids(bs), block_id@) is None {
            let j = choose|j: int| 0 <= j < block_ids(bs).len() && block_ids(bs)[j] == block_id@;
            crate::text::lemma_first_index_none_means(block_ids(bs), block_id@, j);
        }
    }
}

proof fn lemma_arg_parts_err(bs: Seq<FbdBlock>, ins: Seq<FbdInputBinding>)
    requires
        forall|k: int|
            0 <= k < ins.len() ==> !(#[trigger] ins[k].value matches FbdInputSource::Block {
                block_id,
                ..
            } && !block_ids(bs).contains(block_id@)),
    ensures
        arg_parts(bs, ins) is Err <==> exists|k: int| 0 <= k < ins.len() && bad_input(#[trigger] ins[k]),
    decreases ins.len(),
{
    if ins.len() > 0 {
        let init = ins.drop_last();
        assert forall|k: int| 0 <= k < init.len() implies !(#[trigger] init[k].value matches FbdInputSource::Block {
            block_id,
            ..
        } && !block_ids(bs).contains(block_id@)) by {
            assert(init[k] == ins[k]);
        }
        lemma_arg_parts_err(bs, init);
        lemma_value_text_ok(bs, ins.last());
        assert(ins.last() == ins[ins.len() - 1]);
        if exists|k: int| 0 <= k < init.len() && bad_input(#[trigger] init[k]) {
            let k = choose|k: int| 0 <= k < init.len() && bad_input(#[trigger] init[k]);
            assert(ins[k] == init[k]);
        }
        if exists|k: int| 0 <= k < ins.len() && bad_input(#[trigger] ins[k]) {
            let k = choose|k: int| 0 <= k < ins.len() && bad_input(#[trigger] ins[k]);
            if k < ins.len() - 1 {
                assert(init[k] == ins[k]);
            }
        }
    }
}

/// Whether block `i` has an input pin that cannot become an argument.
pub open spec fn block_has_bad_input(bs: Seq<FbdBlock>, i: int) -> bool {
    exists|k: int| 0 <= k < bs[i].inputs@.len() && bad_input(#[trigger] bs[i].inputs@[k])
}

proof fn lemma_call_lines_err(bs: Seq<FbdBlock>, order: Seq<int>)
    requires
        crate::fbd_order::in_range(order, bs.len() as int),
        forall|i: int, k: int|
            0 <= i < bs.len() && 0 <= k < bs[i].inputs@.len() ==> !(#[trigger] bs[i].inputs@[k].value matches FbdInputSource::Block {
                block_id,
                ..
            } && !block_ids(bs).contains(block_id@)),
    ensures
        call_lines(bs, order) is Err <==> exists|k: int|
            0 <= k < order.len() && block_has_bad_input(bs, #[trigger] order[k]),
    decreases order.len(),
{
    if order.len() > 0 {
        let init = order.drop_last();
        assert forall|k: int| 0 <= k < init.len() implies 0 <= #[trigger] init[k] < bs.len() by {
            assert(init[k] == order[k]);
        }
        lemma_call_lines_err(bs, init);
        let j = order.last();
        assert(j == order[order.len() - 1]);
        lemma_arg_parts_err(bs, bs[j].inputs@);
        if exists|k: int| 0 <= k < init.len() && block_has_bad_input(bs, #[trigger] init[k]) {
            let k = choose|k: int| 0 <= k < init.len() && block_has_bad_input(bs, #[trigger] init[k]);
            assert(order[k] == init[k]);
        }
        if exists|k: int| 0 <= k < order.len() && block_has_bad_input(bs, #[trigger] order[k]) {
            let k = choose|k: int| 0 <= k < order.len() && block_has_bad_input(bs, #[trigger] order[k]);
            if k < order.len() - 1 {
                assert(init[k] == order[k]);
            }
        }
    }
}

proof fn lemma_output_lines_ok(bs: Seq<FbdBlock>, outs: Seq<FbdOutputBinding>)
    requires
        forall|i: int| 0 <= i < outs.len() ==> block_ids(bs).contains(#[trigger] outs[i].from_block@),
    ensures
        output_lines(bs, outs) is Ok,
    decreases outs.len(),
{
    if outs.len() > 0 {
        let init = outs.drop_last();
        assert forall|i: int| 0 <= i < init.len() implies block_ids(bs).contains(#[trigger] init[i].from_block@) by {
            assert(init[i] == outs[i]);
        }
        lemma_output_lines_ok(bs, init);
        let o = outs.last();
        assert(o == outs[outs.len() - 1]);
        if first_index(block_ids(bs), o.from_block@) is None {
            let j = choose|j: int| 0 <= j < block_ids(bs).len() && block_ids(bs)[j] == o.from_block@;
            crate::text::lemma_first_index_none_means(block_ids(bs), o.from_block@, j);
        }
    }
}

/// An FBD program fails to transpile exactly when it has one of the
/// defects `fbd_defect` lists; every failure is then reported as a
/// parse error (see `transpile_to_st_with_map`).
pub proof fn fbd_transpile_fails_exactly(prog: FbdProgram)
    ensures
        fbd_transpile(prog) is Err <==> fbd_defect(prog),
{
    let bs = prog.blocks@;
    let outs = prog.outputs@;
    let ids = block_ids(bs);
    lemma_validation_exists(prog);
    if validation_problem(prog) is None {
        topo_order_complete_iff_acyclic(bs);
        topo_order_is_topological(bs);
        let order = topo_order(bs);
        crate::fbd_order::lemma_distinct_bound(order, bs.len() as int);
        if order.len() == bs.len() {
            assert forall|i: int, k: int|
                0 <= i < bs.len() && 0 <= k < bs[i].inputs@.len() implies !(#[trigger] bs[i].inputs@[k].value matches FbdInputSource::Block {
                    block_id,
                    ..
                } && !ids.contains(block_id@)) by {
                assert(wire_check(bs[i], ids, k) is None);
            }
            lemma_call_lines_err(bs, order);
            assert forall|i: int| 0 <= i < outs.len() implies ids.contains(#[trigger] outs[i].from_block@) by {
                assert(output_source_check(outs, ids, i) is None);
            }
            lemma_output_lines_ok(bs, outs);
            if exists|i: int, k: int|
                0 <= i < bs.len() && 0 <= k < bs[i].inputs@.len() && bad_input(#[trigger] bs[i].inputs@[k]) {
                let (i, k) = choose|i: int, k: int|
                    0 <= i < bs.len() && 0 <= k < bs[i].inputs@.len() && bad_input(#[trigger] bs[i].inputs@[k]);
                lemma_order_covers(order, bs.len() as int, i);
                let p = choose|p: int| 0 <= p < order.len() && order[p] == i;
                assert(block_has_bad_input(bs, order[p]));
            }
            if exists|p: int| 0 <= p < order.len() && block_has_bad_input(bs, #[trigger] order[p]) {
                let p = choose|p: int| 0 <= p < order.len() && block_has_bad_input(bs, #[trigger] order[p]);
                let i = order[p];
                let k = choose|k: int| 0 <= k < bs[i].inputs@.len() && bad_input(#[trigger] bs[i].inputs@[k]);
                assert(bad_input(bs[i].inputs@[k]));
            }
        }
    }
}

/// The number of newline characters in a text.
pub open spec fn newline_count(t: Seq<char>) -> nat
    decreases t.len(),
{
    if t.len() == 0 {
        0
    } else {
        newline_count(t.drop_last()) + if t.last() == '\n' {
            1nat
        } else {
            0nat
        }
    }
}

proof fn lemma_newline_count_concat(a: Seq<char>, b: Seq<char>)
    ensures
        newline_count(a + b) == newline_count(a) + newline_count(b),
    decreases b.len(),
{
    if b.len() == 0 {
        assert(a + b =~= a);
    } else {
        assert((a + b).drop_last() =~= a + b.drop_last());
        lemma_newline_count_concat(a, b.drop_last());
    }
}

proof fn lemma_no_newline(t: Seq<char>)
    requires
        !t.contains('\n'),
    ensures
        newline_count(t) == 0,
    decreases t.len(),
{
    if t.len() > 0 {
        assert(t.drop_last().len() < t.len());
        assert(!t.drop_last().contains('\n')) by {
            if t.drop_last().contains('\n') {
                let i = choose|i: int| 0 <= i < t.drop_last().len() && t.drop_last()[i] == '\n';
                assert(t[i] == '\n');
            }
        }
        lemma_no_newline(t.drop_last());
        assert(t[t.len() - 1] != '\n');
    }
}

/// The emitted text ends each of its lines with a newline: when no line's
/// own text holds a newline, the text has exactly one line per source map
/// entry.
pub proof fn text_has_one_line_per_map_entry(ls: Seq<StLine>)
    requires
        forall|i: int| 0 <= i < ls.len() ==> !(#[trigger] ls[i].text).contains('\n'),
    ensures
        newline_count(lines_text(ls)) == lines_map(ls).len(),
    decreases ls.len(),
{
    if ls.len() > 0 {
        let init = ls.drop_last();
        assert forall|i: int| 0 <= i < init.len() implies !(#[trigger] init[i].text).contains('\n') by {
            assert(init[i] == ls[i]);
        }
        text_has_one_line_per_map_entry(init);
        let l = ls.last();
        assert(!ls[ls.len() - 1].text.contains('\n'));
        lemma_no_newline(l.text);
        lemma_newline_count_concat(lines_text(init) + l.text, "\n"@);
        lemma_newline_count_concat(lines_text(init), l.text);
        assert(newline_count("\n"@) == 1) by {
            reveal_strlit("\n");
            let nl = "\n"@;
            assert(nl.len() == 1 && nl[0] == '\n');
            assert(nl.last() == '\n');
            assert(newline_count(nl.drop_last()) == 0);
        }
        assert(lines_map(init).len() == init.len());
    }
}

} // verus!
