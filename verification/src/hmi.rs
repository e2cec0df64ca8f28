//! HMI screen documents: a tree of nodes with live bindings and write
//! actions, its structural validation, and the queries the server makes
//! of it (nodes by id, referenced variables).
use vstd::prelude::*;
use vstd::arithmetic::power2::pow2;

use crate::chars::{trim, trim_chars};
use crate::text::{chars_of, contains_string, decimal, lemma_views_push, push_decimal, views};

verus! {

#[verifier::external_type_specification]
#[verifier::external_body]
pub struct ExJsonValue(serde_json::Value);

/// Document schema version this build writes.
pub const HMI_VERSION: u32 = 1;

pub fn default_hmi_version() -> (r: u32)
    ensures
        r == HMI_VERSION,
{
    HMI_VERSION
}

/// ISA-101 display level of a new screen.
pub fn default_level() -> (r: u8)
    ensures
        r == 2,
{
    2
}

/// Actions ask for confirmation unless told otherwise.
pub fn default_true() -> (r: bool)
    ensures
        r,
{
    true
}

/// Trend window in seconds.
pub fn default_window_s() -> (r: u32)
    ensures
        r == 300,
{
    300
}

/// Pulse length in milliseconds.
pub fn default_pulse_ms() -> (r: u32)
    ensures
        r == 500,
{
    500
}

/// One operator screen.
#[derive(Debug)]
pub struct HmiDoc {
    pub version: u32,
    pub title: String,
    /// ISA-101 display level, 1 (overview) to 4 (detail).
    pub level: u8,
    pub grid: HmiGrid,
    pub root: HmiNode,
}

/// Design surface and snap step, in CSS pixels.
#[derive(Debug, Clone, Copy, PartialEq, Eq, Structural)]
pub struct HmiGrid {
    pub w: u32,
    pub h: u32,
    pub snap: u32,
}

impl Default for HmiGrid {
    fn default() -> (g: Self)
        ensures
            g.w == 1280 && g.h == 800 && g.snap == 8,
    {
        HmiGrid { w: 1280, h: 800, snap: 8 }
    }
}

/// One element of a screen. `bind` and `action` are keyed by prop name
/// and gesture, in ascending key order.
#[derive(Debug)]
pub struct HmiNode {
    pub id: String,
    pub kind: HmiNodeKind,
    pub x: i32,
    pub y: i32,
    pub w: i32,
    pub h: i32,
    pub bind: Vec<(String, HmiBinding)>,
    pub action: Vec<(String, HmiAction)>,
}

/// The closed node vocabulary.
#[derive(Debug)]
pub enum HmiNodeKind {
    Group { layout: HmiLayout, gap: u32, children: Vec<HmiNode> },
    Text { text: String, style: HmiTextStyle },
    Value { label: Option<String>, unit: Option<String> },
    /// A built-in symbol with its symbol-specific JSON props.
    Symbol { symbol: String, props: Vec<(String, serde_json::Value)> },
    Trend { series: Vec<HmiSeries>, window_s: u32 },
    Alarmbar {},
    Button { label: String },
    Input { label: Option<String>, unit: Option<String> },
    Nav { label: String, target: String },
    Shape { shape: HmiShapeKind, points: Vec<[i32; 2]> },
}

#[derive(Debug, Clone, Copy, PartialEq, Eq, Structural)]
pub enum HmiLayout {
    Absolute,
    Vertical,
    Horizontal,
}

impl Default for HmiLayout {
    fn default() -> (r: Self)
        ensures
            r == HmiLayout::Absolute,
    {
        HmiLayout::Absolute
    }
}

#[derive(Debug, Clone, Copy, PartialEq, Eq, Structural)]
pub enum HmiTextStyle {
    Body,
    Section,
    Title,
    Caption,
}

impl Default for HmiTextStyle {
    fn default() -> (r: Self)
        ensures
            r == HmiTextStyle::Body,
    {
        HmiTextStyle::Body
    }
}

#[derive(Debug, Clone, Copy, PartialEq, Eq, Structural)]
pub enum HmiShapeKind {
    Rect,
    Line,
    Polyline,
}

#[derive(Debug, Clone)]
pub struct HmiSeries {
    pub variable: String,
    pub label: Option<String>,
}

/// A live binding: a variable, or a variable with an expression over it
/// and a display format.
#[derive(Debug, Clone)]
pub enum HmiBinding {
    Var(String),
    Spec(HmiBindingSpec),
}

#[derive(Debug, Clone)]
pub struct HmiBindingSpec {
    pub variable: String,
    pub expr: Option<String>,
    pub format: Option<String>,
}

/// An IEEE-754 double held by its bit pattern, with its display text.
#[derive(Debug, Clone)]
pub struct HmiNumber {
    pub bits: u64,
    pub text: String,
}

/// The ways a screen writes to the plant.
#[derive(Debug, Clone)]
pub enum HmiAction {
    Write { variable: String, value: HmiNumber, confirm: bool },
    Toggle { variable: String, confirm: bool },
    Pulse { variable: String, ms: u32, confirm: bool },
    SetValue { variable: String, min: Option<HmiNumber>, max: Option<HmiNumber>, confirm: bool },
    Nav { target: String },
}

pub open spec fn binding_var(b: HmiBinding) -> Seq<char> {
    match b {
        HmiBinding::Var(v) => v@,
        HmiBinding::Spec(s) => s.variable@,
    }
}

impl HmiBinding {
    /// The bound variable.
    pub fn variable(&self) -> (r: &str)
        ensures
            r@ == binding_var(*self),
    {
        match self {
            HmiBinding::Var(v) => v.as_str(),
            HmiBinding::Spec(s) => s.variable.as_str(),
        }
    }
}

pub open spec fn action_var(a: HmiAction) -> Option<Seq<char>> {
    match a {
        HmiAction::Write { variable, .. } => Some(variable@),
        HmiAction::Toggle { variable, .. } => Some(variable@),
        HmiAction::Pulse { variable, .. } => Some(variable@),
        HmiAction::SetValue { variable, .. } => Some(variable@),
        HmiAction::Nav { .. } => None,
    }
}

impl HmiAction {
    /// The variable an action writes; navigation writes none.
    pub fn variable(&self) -> (r: Option<&str>)
        ensures
            match r {
                Some(s) => action_var(*self) == Some(s@),
                None => action_var(*self) is None,
            },
    {
        match self {
            HmiAction::Write { variable, .. } => Some(variable.as_str()),
            HmiAction::Toggle { variable, .. } => Some(variable.as_str()),
            HmiAction::Pulse { variable, .. } => Some(variable.as_str()),
            HmiAction::SetValue { variable, .. } => Some(variable.as_str()),
            HmiAction::Nav { .. } => None,
        }
    }
}

/// One structural finding.
#[derive(Debug, Clone)]
pub struct HmiIssue {
    pub severity: String,
    pub node_id: Option<String>,
    pub message: String,
}

pub open spec fn issue_view(i: HmiIssue) -> (Seq<char>, Option<Seq<char>>, Seq<char>) {
    (
        i.severity@,
        match i.node_id {
            Some(n) => Some(n@),
            None => None,
        },
        i.message@,
    )
}

pub open spec fn issue_views(s: Seq<HmiIssue>) -> Seq<(Seq<char>, Option<Seq<char>>, Seq<char>)> {
    s.map_values(|i: HmiIssue| issue_view(i))
}

pub fn err(node: Option<&str>, msg: String) -> (i: HmiIssue)
    ensures
        issue_view(i) == ("error"@, match node {
            Some(n) => Some(n@),
            None => None,
        }, msg@),
{
    HmiIssue {
        severity: String::from_str("error"),
        node_id: match node {
            Some(n) => Some(n.to_string()),
            None => None,
        },
        message: msg,
    }
}

pub fn warn(node: Option<&str>, msg: String) -> (i: HmiIssue)
    ensures
        issue_view(i) == ("warning"@, match node {
            Some(n) => Some(n@),
            None => None,
        }, msg@),
{
    HmiIssue {
        severity: String::from_str("warning"),
        node_id: match node {
            Some(n) => Some(n.to_string()),
            None => None,
        },
        message: msg,
    }
}

// ----- The node tree -----

/// The nodes of a tree in pre-order: the node, then each child's tree.
pub open spec fn preorder(n: HmiNode) -> Seq<HmiNode>
    decreases n, 1int,
{
    seq![n] + match n.kind {
        HmiNodeKind::Group { children, .. } => preorder_all(children@),
        _ => Seq::empty(),
    }
}

pub open spec fn preorder_all(ns: Seq<HmiNode>) -> Seq<HmiNode>
    decreases ns, 0int,
{
    if ns.len() == 0 {
        Seq::empty()
    } else {
        preorder_all(ns.drop_last()) + preorder(ns.last())
    }
}

pub open spec fn children_of(n: HmiNode) -> Seq<HmiNode> {
    match n.kind {
        HmiNodeKind::Group { children, .. } => children@,
        _ => Seq::empty(),
    }
}

pub proof fn lemma_preorder_all_push(ns: Seq<HmiNode>, n: HmiNode)
    ensures
        preorder_all(ns.push(n)) == preorder_all(ns) + preorder(n),
{
    assert(ns.push(n).drop_last() =~= ns);
}

/// The ids of a tree, in pre-order.
pub open spec fn ids_of(ns: Seq<HmiNode>) -> Seq<Seq<char>> {
    ns.map_values(|n: HmiNode| n.id@)
}

fn collect_ids_into(node: &HmiNode, out: &mut Vec<String>)
    ensures
        views(final(out)@) == views(old(out)@) + ids_of(preorder(*node)),
    decreases node, 1int,
{
    proof {
        lemma_views_push(out@, node.id);
    }
    out.push(node.id.clone());
    let ghost after_self = views(out@);
    match &node.kind {
        HmiNodeKind::Group { children, .. } => {
            collect_children_ids(children, out);
            assert(ids_of(preorder(*node)) =~= seq![node.id@] + ids_of(preorder_all(children@)));
        },
        _ => {
            assert(ids_of(preorder(*node)) =~= seq![node.id@]);
        },
    }
}

fn collect_children_ids(children: &Vec<HmiNode>, out: &mut Vec<String>)
    ensures
        views(final(out)@) == views(old(out)@) + ids_of(preorder_all(children@)),
    decreases children@, 0int,
{
    let ghost start = views(out@);
    let mut i: usize = 0;
    assert(ids_of(preorder_all(children@.take(0))) =~= Seq::<Seq<char>>::empty());
    assert(start + ids_of(preorder_all(children@.take(0))) =~= start);
    while i < children.len()
        invariant
            i <= children.len(),
            views(out@) == start + ids_of(preorder_all(children@.take(i as int))),
        decreases children.len() - i,
    {
        assert(decreases_to!(children@ => children@[i as int]));
        collect_ids_into(&children[i], out);
        proof {
            assert(children@.take(i + 1) =~= children@.take(i as int).push(children@[i as int]));
            lemma_preorder_all_push(children@.take(i as int), children@[i as int]);
            assert(ids_of(preorder_all(children@.take(i + 1))) =~= ids_of(
                preorder_all(children@.take(i as int)),
            ) + ids_of(preorder(children@[i as int])));
        }
        i = i + 1;
    }
    assert(children@.take(children.len() as int) =~= children@);
}

/// Every id of a subtree, in pre-order.
pub fn collect_ids(node: &HmiNode) -> (r: Vec<String>)
    ensures
        views(r@) == ids_of(preorder(*node)),
{
    let mut out: Vec<String> = Vec::new();
    collect_ids_into(node, &mut out);
    assert(views(out@) =~= Seq::<Seq<char>>::empty() + ids_of(preorder(*node)));
    out
}

/// The first node in pre-order whose id is `id`.
pub open spec fn first_with_id(ns: Seq<HmiNode>, id: Seq<char>) -> Option<HmiNode>
    decreases ns.len(),
{
    if ns.len() == 0 {
        None
    } else if ns[0].id@ == id {
        Some(ns[0])
    } else {
        first_with_id(ns.drop_first(), id)
    }
}

pub proof fn lemma_first_with_id_concat(a: Seq<HmiNode>, b: Seq<HmiNode>, id: Seq<char>)
    ensures
        first_with_id(a + b, id) == match first_with_id(a, id) {
            Some(n) => Some(n),
            None => first_with_id(b, id),
        },
    decreases a.len(),
{
    if a.len() > 0 {
        assert((a + b).drop_first() =~= a.drop_first() + b);
        lemma_first_with_id_concat(a.drop_first(), b, id);
    } else {
        assert(a + b =~= b);
    }
}

/// The node of the tree with the given id (the first in pre-order).
pub fn find_node<'a>(root: &'a HmiNode, id: &str) -> (r: Option<&'a HmiNode>)
    ensures
        match r {
            Some(n) => first_with_id(preorder(*root), id@) == Some(*n),
            None => first_with_id(preorder(*root), id@) is None,
        },
    decreases root, 1int,
{
    let key = id.to_string();
    if root.id == key {
        return Some(root);
    }
    proof {
        lemma_first_with_id_concat(seq![*root], preorder_all(children_of(*root)), id@);
        assert(seq![*root].drop_first() =~= Seq::<HmiNode>::empty());
        assert(first_with_id(seq![*root], id@) is None);
    }
    match &root.kind {
        HmiNodeKind::Group { children, .. } => {
            assert(preorder(*root) == seq![*root] + preorder_all(children@));
            find_in_children(children, id)
        },
        _ => {
            assert(preorder_all(Seq::<HmiNode>::empty()) =~= Seq::<HmiNode>::empty());
            assert(preorder(*root) =~= seq![*root]);
            None
        },
    }
}

fn find_in_children<'a>(children: &'a Vec<HmiNode>, id: &str) -> (r: Option<&'a HmiNode>)
    ensures
        match r {
            Some(n) => first_with_id(preorder_all(children@), id@) == Some(*n),
            None => first_with_id(preorder_all(children@), id@) is None,
        },
    decreases children@, 0int,
{
    let mut i: usize = 0;
    assert(preorder_all(children@.take(0)) =~= Seq::<HmiNode>::empty());
    while i < children.len()
        invariant
            i <= children.len(),
            first_with_id(preorder_all(children@.take(i as int)), id@) is None,
        decreases children.len() - i,
    {
        proof {
            assert(children@.take(i + 1) =~= children@.take(i as int).push(children@[i as int]));
            lemma_preorder_all_push(children@.take(i as int), children@[i as int]);
            lemma_first_with_id_concat(
                preorder_all(children@.take(i as int)),
                preorder(children@[i as int]),
                id@,
            );
        }
        assert(decreases_to!(children@ => children@[i as int]));
        match find_node(&children[i], id) {
            Some(found) => {
                proof {
                    lemma_preorder_all_prefix(children@, i + 1);
                    lemma_first_with_id_concat(
                        preorder_all(children@.take(i + 1)),
                        preorder_all(children@.skip(i + 1)),
                        id@,
                    );
                }
                return Some(found);
            },
            None => {},
        }
        i = i + 1;
    }
    assert(children@.take(children.len() as int) =~= children@);
    None
}

/// Pre-order of a list splits at any point.
pub proof fn lemma_preorder_all_prefix(ns: Seq<HmiNode>, k: int)
    requires
        0 <= k <= ns.len(),
    ensures
        preorder_all(ns) == preorder_all(ns.take(k)) + preorder_all(ns.skip(k)),
    decreases ns.len() - k,
{
    if k < ns.len() {
        lemma_preorder_all_prefix(ns, k + 1);
        assert(ns.take(k + 1) =~= ns.take(k).push(ns[k]));
        lemma_preorder_all_push(ns.take(k), ns[k]);
        lemma_preorder_all_cons(ns[k], ns.skip(k + 1));
        assert(ns.skip(k) =~= seq![ns[k]] + ns.skip(k + 1));
    } else {
        assert(ns.take(k) =~= ns);
        assert(ns.skip(k) =~= Seq::<HmiNode>::empty());
        assert(preorder_all(ns.skip(k)) =~= Seq::<HmiNode>::empty());
    }
}

pub proof fn lemma_preorder_all_cons(n: HmiNode, ns: Seq<HmiNode>)
    ensures
        preorder_all(seq![n] + ns) == preorder(n) + preorder_all(ns),
    decreases ns.len(),
{
    if ns.len() == 0 {
        assert(seq![n] + ns =~= seq![n]);
        assert(seq![n].drop_last() =~= Seq::<HmiNode>::empty());
        assert(preorder(n) + preorder_all(ns) =~= preorder(n));
        assert(preorder_all(Seq::<HmiNode>::empty()) + preorder(n) =~= preorder(n));
    } else {
        lemma_preorder_all_cons(n, ns.drop_last());
        assert((seq![n] + ns).drop_last() =~= seq![n] + ns.drop_last());
        assert(preorder_all(seq![n] + ns) =~= preorder(n) + preorder_all(ns));
    }
}


// ----- Referenced variables -----

pub open spec fn bind_vars(id: Seq<char>, bs: Seq<(String, HmiBinding)>) -> Seq<(Seq<char>, Seq<char>)> {
    bs.map_values(|b: (String, HmiBinding)| (id, binding_var(b.1)))
}

pub open spec fn action_vars(id: Seq<char>, acts: Seq<(String, HmiAction)>) -> Seq<(Seq<char>, Seq<char>)>
    decreases acts.len(),
{
    if acts.len() == 0 {
        Seq::empty()
    } else {
        action_vars(id, acts.drop_last()) + match action_var(acts.last().1) {
            Some(v) => seq![(id, v)],
            None => Seq::empty(),
        }
    }
}

pub open spec fn series_vars(id: Seq<char>, n: HmiNode) -> Seq<(Seq<char>, Seq<char>)> {
    match n.kind {
        HmiNodeKind::Trend { series, .. } => series@.map_values(|s: HmiSeries| (id, s.variable@)),
        _ => Seq::empty(),
    }
}

/// The (node id, variable) pairs one node references: bindings, then
/// actions, then trend series.
pub open spec fn node_vars(n: HmiNode) -> Seq<(Seq<char>, Seq<char>)> {
    bind_vars(n.id@, n.bind@) + action_vars(n.id@, n.action@) + series_vars(n.id@, n)
}

pub open spec fn vars_of(ns: Seq<HmiNode>) -> Seq<(Seq<char>, Seq<char>)>
    decreases ns.len(),
{
    if ns.len() == 0 {
        Seq::empty()
    } else {
        vars_of(ns.drop_last()) + node_vars(ns.last())
    }
}

pub proof fn lemma_vars_of_concat(a: Seq<HmiNode>, b: Seq<HmiNode>)
    ensures
        vars_of(a + b) == vars_of(a) + vars_of(b),
    decreases b.len(),
{
    if b.len() == 0 {
        assert(a + b =~= a);
        assert(vars_of(a) + vars_of(b) =~= vars_of(a));
    } else {
        assert((a + b).drop_last() =~= a + b.drop_last());
        lemma_vars_of_concat(a, b.drop_last());
        assert(vars_of(a + b) =~= vars_of(a) + vars_of(b));
    }
}

pub open spec fn pair_views(s: Seq<(String, String)>) -> Seq<(Seq<char>, Seq<char>)> {
    s.map_values(|p: (String, String)| (p.0@, p.1@))
}

fn push_pair(out: &mut Vec<(String, String)>, a: &String, b: String)
    ensures
        pair_views(final(out)@) == pair_views(old(out)@).push((a@, b@)),
{
    out.push((a.clone(), b));
    assert(pair_views(out@) =~= pair_views(old(out)@).push((a@, b@)));
}

fn own_vars(n: &HmiNode, out: &mut Vec<(String, String)>)
    ensures
        pair_views(final(out)@) == pair_views(old(out)@) + node_vars(*n),
{
    let ghost o0 = pair_views(out@);
    let mut i: usize = 0;
    assert(bind_vars(n.id@, n.bind@.take(0)) =~= Seq::<(Seq<char>, Seq<char>)>::empty());
    assert(o0 + bind_vars(n.id@, n.bind@.take(0)) =~= o0);
    while i < n.bind.len()
        invariant
            i <= n.bind.len(),
            pair_views(out@) == o0 + bind_vars(n.id@, n.bind@.take(i as int)),
        decreases n.bind.len() - i,
    {
        let v = n.bind[i].1.variable();
        push_pair(out, &n.id, v.to_string());
        assert(bind_vars(n.id@, n.bind@.take(i + 1)) =~= bind_vars(n.id@, n.bind@.take(i as int)).push(
            (n.id@, binding_var(n.bind@[i as int].1)),
        ));
        i = i + 1;
    }
    assert(n.bind@.take(n.bind.len() as int) =~= n.bind@);
    let ghost o1 = pair_views(out@);
    let mut i: usize = 0;
    assert(action_vars(n.id@, n.action@.take(0)) =~= Seq::<(Seq<char>, Seq<char>)>::empty());
    assert(o1 + action_vars(n.id@, n.action@.take(0)) =~= o1);
    while i < n.action.len()
        invariant
            i <= n.action.len(),
            pair_views(out@) == o1 + action_vars(n.id@, n.action@.take(i as int)),
        decreases n.action.len() - i,
    {
        assert(n.action@.take(i + 1).drop_last() =~= n.action@.take(i as int));
        assert(n.action@.take(i + 1).last() == n.action@[i as int]);
        match n.action[i].1.variable() {
            Some(v) => {
                push_pair(out, &n.id, v.to_string());
                assert(pair_views(out@) =~= o1 + action_vars(n.id@, n.action@.take(i + 1)));
            },
            None => {
                assert(pair_views(out@) =~= o1 + action_vars(n.id@, n.action@.take(i + 1)));
            },
        }
        i = i + 1;
    }
    assert(n.action@.take(n.action.len() as int) =~= n.action@);
    let ghost o2 = pair_views(out@);
    match &n.kind {
        HmiNodeKind::Trend { series, .. } => {
            let mut i: usize = 0;
            assert(o2 + series@.take(0).map_values(|s: HmiSeries| (n.id@, s.variable@)) =~= o2);
            while i < series.len()
                invariant
                    i <= series.len(),
                    pair_views(out@) == o2 + series@.take(i as int).map_values(
                        |s: HmiSeries| (n.id@, s.variable@),
                    ),
                decreases series.len() - i,
            {
                push_pair(out, &n.id, series[i].variable.clone());
                assert(series@.take(i + 1).map_values(|s: HmiSeries| (n.id@, s.variable@))
                    =~= series@.take(i as int).map_values(|s: HmiSeries| (n.id@, s.variable@)).push(
                    (n.id@, series@[i as int].variable@),
                ));
                i = i + 1;
            }
            assert(series@.take(series.len() as int) =~= series@);
        },
        _ => {},
    }
    assert(pair_views(out@) =~= o0 + node_vars(*n));
}

fn vars_into(node: &HmiNode, out: &mut Vec<(String, String)>)
    ensures
        pair_views(final(out)@) == pair_views(old(out)@) + vars_of(preorder(*node)),
    decreases node, 1int,
{
    let ghost o0 = pair_views(out@);
    own_vars(node, out);
    assert(seq![*node].drop_last() =~= Seq::<HmiNode>::empty());
    assert(vars_of(Seq::<HmiNode>::empty()) =~= Seq::<(Seq<char>, Seq<char>)>::empty());
    assert(vars_of(seq![*node]) == vars_of(Seq::<HmiNode>::empty()) + node_vars(*node));
    assert(vars_of(seq![*node]) =~= node_vars(*node));
    proof {
        lemma_vars_of_concat(seq![*node], preorder_all(children_of(*node)));
    }
    match &node.kind {
        HmiNodeKind::Group { children, .. } => {
            children_vars(children, out);
            assert(pair_views(out@) =~= o0 + vars_of(preorder(*node)));
        },
        _ => {
            assert(preorder(*node) =~= seq![*node]);
        },
    }
}

fn children_vars(children: &Vec<HmiNode>, out: &mut Vec<(String, String)>)
    ensures
        pair_views(final(out)@) == pair_views(old(out)@) + vars_of(preorder_all(children@)),
    decreases children@, 0int,
{
    let ghost start = pair_views(out@);
    let mut i: usize = 0;
    assert(preorder_all(children@.take(0)) =~= Seq::<HmiNode>::empty());
    assert(start + vars_of(preorder_all(children@.take(0))) =~= start);
    while i < children.len()
        invariant
            i <= children.len(),
            pair_views(out@) == start + vars_of(preorder_all(children@.take(i as int))),
        decreases children.len() - i,
    {
        assert(decreases_to!(children@ => children@[i as int]));
        vars_into(&children[i], out);
        proof {
            assert(children@.take(i + 1) =~= children@.take(i as int).push(children@[i as int]));
            lemma_preorder_all_push(children@.take(i as int), children@[i as int]);
            lemma_vars_of_concat(preorder_all(children@.take(i as int)), preorder(children@[i as int]));
        }
        i = i + 1;
    }
    assert(children@.take(children.len() as int) =~= children@);
}

/// Every (node id, variable) pair a screen references, in pre-order.
pub fn hmi_variables(doc: &HmiDoc) -> (r: Vec<(String, String)>)
    ensures
        pair_views(r@) == vars_of(preorder(doc.root)),
{
    let mut out: Vec<(String, String)> = Vec::new();
    vars_into(&doc.root, &mut out);
    assert(pair_views(out@) =~= Seq::<(Seq<char>, Seq<char>)>::empty() + vars_of(preorder(doc.root)));
    out
}


// ----- Structural validation -----

/// The symbols the renderer draws.
pub open spec fn hmi_symbols() -> Seq<Seq<char>> {
    seq![
        "tank"@,
        "valve"@,
        "pump"@,
        "motor"@,
        "pipe_h"@,
        "pipe_v"@,
        "gauge"@,
        "indicator"@,
        "setpoint"@,
    ]
}

fn is_builtin_symbol(s: &String) -> (r: bool)
    ensures
        r == hmi_symbols().contains(s@),
{
    let r = *s == String::from_str("tank") || *s == String::from_str("valve") || *s
        == String::from_str("pump") || *s == String::from_str("motor") || *s == String::from_str(
        "pipe_h",
    ) || *s == String::from_str("pipe_v") || *s == String::from_str("gauge") || *s
        == String::from_str("indicator") || *s == String::from_str("setpoint");
    proof {
        let syms = hmi_symbols();
        if r {
            assert(syms[0] == "tank"@ && syms[1] == "valve"@ && syms[2] == "pump"@ && syms[3]
                == "motor"@ && syms[4] == "pipe_h"@ && syms[5] == "pipe_v"@ && syms[6] == "gauge"@
                && syms[7] == "indicator"@ && syms[8] == "setpoint"@);
        }
        if syms.contains(s@) {
            let k = choose|k: int| 0 <= k < syms.len() && syms[k] == s@;
            assert(k == 0 || k == 1 || k == 2 || k == 3 || k == 4 || k == 5 || k == 6 || k == 7 || k == 8);
        }
    }
    r
}

/// IEEE-754: a NaN has an all-ones exponent and a non-zero fraction.
pub open spec fn f64_is_nan(b: u64) -> bool {
    (b & 0x7ff0_0000_0000_0000u64) == 0x7ff0_0000_0000_0000u64 && (b & 0x000f_ffff_ffff_ffffu64) != 0
}

/// The order of non-NaN doubles: sign and magnitude, with `-0 == +0`.
pub open spec fn f64_key(b: u64) -> int {
    let mag = (b & 0x7fff_ffff_ffff_ffffu64) as int;
    if b >= 0x8000_0000_0000_0000u64 {
        -mag
    } else {
        mag
    }
}

/// `a > b` on the doubles with these bit patterns (false with a NaN).
pub open spec fn f64_gt(a: u64, b: u64) -> bool {
    !f64_is_nan(a) && !f64_is_nan(b) && f64_key(a) > f64_key(b)
}

pub fn f64_bits_gt(a: u64, b: u64) -> (r: bool)
    ensures
        r == f64_gt(a, b),
{
    let a_nan = (a & 0x7ff0_0000_0000_0000u64) == 0x7ff0_0000_0000_0000u64 && (a
        & 0x000f_ffff_ffff_ffffu64) != 0;
    let b_nan = (b & 0x7ff0_0000_0000_0000u64) == 0x7ff0_0000_0000_0000u64 && (b
        & 0x000f_ffff_ffff_ffffu64) != 0;
    if a_nan || b_nan {
        return false;
    }
    let am: u64 = a & 0x7fff_ffff_ffff_ffffu64;
    let bm: u64 = b & 0x7fff_ffff_ffff_ffffu64;
    let a_neg = a >= 0x8000_0000_0000_0000u64;
    let b_neg = b >= 0x8000_0000_0000_0000u64;
    if !a_neg && !b_neg {
        am > bm
    } else if a_neg && b_neg {
        am < bm
    } else if !a_neg {
        !(am == 0 && bm == 0)
    } else {
        false
    }
}

pub type IssueView = (Seq<char>, Option<Seq<char>>, Seq<char>);

pub open spec fn id_issues(n: HmiNode, seen: Seq<Seq<char>>) -> Seq<IssueView> {
    if trim(n.id@).len() == 0 {
        seq![("error"@, None, "node with empty id"@)]
    } else if seen.contains(n.id@) {
        seq![("error"@, Some(n.id@), "duplicate id '"@ + n.id@ + "'"@)]
    } else {
        Seq::empty()
    }
}

pub open spec fn has_key(acts: Seq<(String, HmiAction)>, key: Seq<char>) -> bool {
    exists|i: int| 0 <= i < acts.len() && #[trigger] acts[i].0@ == key
}

pub open spec fn kind_issues(n: HmiNode) -> Seq<IssueView> {
    match n.kind {
        HmiNodeKind::Symbol { symbol, .. } => if !hmi_symbols().contains(symbol@) {
            seq![
                (
                    "warning"@,
                    Some(n.id@),
                    "unknown symbol '"@ + symbol@
                        + "' (built-ins: tank, valve, pump, motor, pipe_h, pipe_v, gauge, indicator, setpoint)"@,
                ),
            ]
        } else {
            Seq::empty()
        },
        HmiNodeKind::Trend { series, .. } => if series@.len() == 0 {
            seq![("error"@, Some(n.id@), "trend has no series"@)]
        } else {
            Seq::empty()
        },
        HmiNodeKind::Nav { target, .. } => if trim(target@).len() == 0 {
            seq![("error"@, Some(n.id@), "nav target is empty"@)]
        } else {
            Seq::empty()
        },
        HmiNodeKind::Input { .. } => if !has_key(n.action@, "commit"@) {
            seq![
                (
                    "warning"@,
                    Some(n.id@),
                    "input has no `commit` action \u{2014} entries will go nowhere"@,
                ),
            ]
        } else {
            Seq::empty()
        },
        _ => Seq::empty(),
    }
}

/// Set-value actions whose lower bound exceeds their upper bound.
pub open spec fn bound_issues(id: Seq<char>, acts: Seq<(String, HmiAction)>) -> Seq<IssueView>
    decreases acts.len(),
{
    if acts.len() == 0 {
        Seq::empty()
    } else {
        bound_issues(id, acts.drop_last()) + match acts.last().1 {
            HmiAction::SetValue { min: Some(lo), max: Some(hi), .. } => if f64_gt(lo.bits, hi.bits) {
                seq![
                    (
                        "error"@,
                        Some(id),
                        "action '"@ + acts.last().0@ + "': min "@ + lo.text@ + " > max "@ + hi.text@,
                    ),
                ]
            } else {
                Seq::empty()
            },
            _ => Seq::empty(),
        }
    }
}

/// What one node contributes, given the ids of the nodes before it.
pub open spec fn node_issues(n: HmiNode, seen: Seq<Seq<char>>) -> Seq<IssueView> {
    id_issues(n, seen) + kind_issues(n) + bound_issues(n.id@, n.action@)
}

/// The non-blank ids of a node list.
pub open spec fn seen_ids(ns: Seq<HmiNode>) -> Seq<Seq<char>>
    decreases ns.len(),
{
    if ns.len() == 0 {
        Seq::empty()
    } else {
        seen_ids(ns.drop_last()) + if trim(ns.last().id@).len() > 0 {
            seq![ns.last().id@]
        } else {
            Seq::<Seq<char>>::empty()
        }
    }
}

pub open spec fn walk_issues(ns: Seq<HmiNode>, seen0: Seq<Seq<char>>) -> Seq<IssueView>
    decreases ns.len(),
{
    if ns.len() == 0 {
        Seq::empty()
    } else {
        walk_issues(ns.drop_last(), seen0) + node_issues(ns.last(), seen0 + seen_ids(ns.drop_last()))
    }
}

/// The screen-level findings: a root that is no group, a blank title, a
/// level outside 1..4.
pub open spec fn header_issues(doc: HmiDoc) -> Seq<IssueView> {
    (if !(doc.root.kind is Group) {
        seq![("error"@, Some(doc.root.id@), "root node must be a group"@)]
    } else {
        Seq::empty()
    }) + (if trim(doc.title@).len() == 0 {
        seq![("warning"@, None, "screen has no title"@)]
    } else {
        Seq::empty()
    }) + (if doc.level < 1 || doc.level > 4 {
        seq![("warning"@, None, "level "@ + decimal(doc.level as nat) + " outside ISA-101 1..4"@)]
    } else {
        Seq::empty()
    })
}

pub open spec fn doc_issues(doc: HmiDoc) -> Seq<IssueView> {
    header_issues(doc) + walk_issues(preorder(doc.root), Seq::empty())
}

pub proof fn lemma_seen_ids_concat(a: Seq<HmiNode>, b: Seq<HmiNode>)
    ensures
        seen_ids(a + b) == seen_ids(a) + seen_ids(b),
    decreases b.len(),
{
    if b.len() == 0 {
        assert(a + b =~= a);
        assert(seen_ids(a) + seen_ids(b) =~= seen_ids(a));
    } else {
        assert((a + b).drop_last() =~= a + b.drop_last());
        lemma_seen_ids_concat(a, b.drop_last());
        assert(seen_ids(a + b) =~= seen_ids(a) + seen_ids(b));
    }
}

pub proof fn lemma_walk_issues_concat(a: Seq<HmiNode>, b: Seq<HmiNode>, s: Seq<Seq<char>>)
    ensures
        walk_issues(a + b, s) == walk_issues(a, s) + walk_issues(b, s + seen_ids(a)),
    decreases b.len(),
{
    if b.len() == 0 {
        assert(a + b =~= a);
        assert(walk_issues(a, s) + walk_issues(b, s + seen_ids(a)) =~= walk_issues(a, s));
    } else {
        assert((a + b).drop_last() =~= a + b.drop_last());
        lemma_walk_issues_concat(a, b.drop_last(), s);
        lemma_seen_ids_concat(a, b.drop_last());
        assert(s + seen_ids(a + b.drop_last()) =~= (s + seen_ids(a)) + seen_ids(b.drop_last()));
        assert(walk_issues(a + b, s) =~= walk_issues(a, s) + walk_issues(b, s + seen_ids(a)));
    }
}

fn push_issue(issues: &mut Vec<HmiIssue>, i: HmiIssue)
    ensures
        issue_views(final(issues)@) == issue_views(old(issues)@).push(issue_view(i)),
{
    issues.push(i);
    assert(issue_views(issues@) =~= issue_views(old(issues)@).push(issue_view(i)));
}

fn has_commit(acts: &Vec<(String, HmiAction)>) -> (r: bool)
    ensures
        r == has_key(acts@, "commit"@),
{
    let key = String::from_str("commit");
    let mut i: usize = 0;
    while i < acts.len()
        invariant
            i <= acts.len(),
            key@ == "commit"@,
            forall|j: int| 0 <= j < i ==> acts@[j].0@ != "commit"@,
        decreases acts.len() - i,
    {
        if acts[i].0 == key {
            assert(acts@[i as int].0@ == "commit"@);
            return true;
        }
        i = i + 1;
    }
    false
}

fn check_own(n: &HmiNode, seen: &Vec<String>, issues: &mut Vec<HmiIssue>)
    ensures
        issue_views(final(issues)@) == issue_views(old(issues)@) + node_issues(*n, views(seen@)),
{
    let ghost i0 = issue_views(issues@);
    let t = trim_chars(&chars_of(n.id.as_str()));
    if t.len() == 0 {
        push_issue(issues, err(None, String::from_str("node with empty id")));
    } else if contains_string(seen, &n.id) {
        let mut m = String::from_str("duplicate id '");
        m.append(n.id.as_str());
        m.append("'");
        push_issue(issues, err(Some(n.id.as_str()), m));
    }
    assert(issue_views(issues@) =~= i0 + id_issues(*n, views(seen@)));
    let ghost i1 = issue_views(issues@);
    match &n.kind {
        HmiNodeKind::Symbol { symbol, .. } => {
            if !is_builtin_symbol(symbol) {
                let mut m = String::from_str("unknown symbol '");
                m.append(symbol.as_str());
                m.append(
                    "' (built-ins: tank, valve, pump, motor, pipe_h, pipe_v, gauge, indicator, setpoint)",
                );
                push_issue(issues, warn(Some(n.id.as_str()), m));
            }
        },
        HmiNodeKind::Trend { series, .. } => {
            if series.len() == 0 {
                push_issue(issues, err(Some(n.id.as_str()), String::from_str("trend has no series")));
            }
        },
        HmiNodeKind::Nav { target, .. } => {
            if trim_chars(&chars_of(target.as_str())).len() == 0 {
                push_issue(issues, err(Some(n.id.as_str()), String::from_str("nav target is empty")));
            }
        },
        HmiNodeKind::Input { .. } => {
            if !has_commit(&n.action) {
                push_issue(
                    issues,
                    warn(
                        Some(n.id.as_str()),
                        String::from_str("input has no `commit` action \u{2014} entries will go nowhere"),
                    ),
                );
            }
        },
        _ => {},
    }
    assert(issue_views(issues@) =~= i1 + kind_issues(*n));
    let ghost i2 = issue_views(issues@);
    let mut k: usize = 0;
    assert(i2 + bound_issues(n.id@, n.action@.take(0)) =~= i2);
    while k < n.action.len()
        invariant
            k <= n.action.len(),
            issue_views(issues@) == i2 + bound_issues(n.id@, n.action@.take(k as int)),
        decreases n.action.len() - k,
    {
        assert(n.action@.take(k + 1).drop_last() =~= n.action@.take(k as int));
        assert(n.action@.take(k + 1).last() == n.action@[k as int]);
        let ghost before = issue_views(issues@);
        let (gesture, a) = &n.action[k];
        match a {
            HmiAction::SetValue { min: Some(lo), max: Some(hi), .. } => {
                if f64_bits_gt(lo.bits, hi.bits) {
                    let mut m = String::from_str("action '");
                    m.append(gesture.as_str());
                    m.append("': min ");
                    m.append(lo.text.as_str());
                    m.append(" > max ");
                    m.append(hi.text.as_str());
                    push_issue(issues, err(Some(n.id.as_str()), m));
                }
            },
            _ => {},
        }
        assert(issue_views(issues@) =~= i2 + bound_issues(n.id@, n.action@.take(k + 1)));
        k = k + 1;
    }
    assert(n.action@.take(n.action.len() as int) =~= n.action@);
}

fn check_tree(node: &HmiNode, seen: &mut Vec<String>, issues: &mut Vec<HmiIssue>)
    ensures
        issue_views(final(issues)@) == issue_views(old(issues)@) + walk_issues(
            preorder(*node),
            views(old(seen)@),
        ),
        views(final(seen)@) == views(old(seen)@) + seen_ids(preorder(*node)),
    decreases node, 1int,
{
    let ghost s0 = views(seen@);
    let ghost i0 = issue_views(issues@);
    check_own(node, seen, issues);
    let t = trim_chars(&chars_of(node.id.as_str()));
    if t.len() > 0 {
        proof {
            lemma_views_push(seen@, node.id);
        }
        seen.push(node.id.clone());
    }
    proof {
        assert(seq![*node].drop_last() =~= Seq::<HmiNode>::empty());
        assert(seen_ids(Seq::<HmiNode>::empty()) =~= Seq::<Seq<char>>::empty());
        assert(walk_issues(Seq::<HmiNode>::empty(), s0) =~= Seq::<IssueView>::empty());
        assert(s0 + seen_ids(Seq::<HmiNode>::empty()) =~= s0);
        assert(walk_issues(seq![*node], s0) =~= node_issues(*node, s0));
        assert(views(seen@) =~= s0 + seen_ids(seq![*node]));
        lemma_walk_issues_concat(seq![*node], preorder_all(children_of(*node)), s0);
        lemma_seen_ids_concat(seq![*node], preorder_all(children_of(*node)));
    }
    match &node.kind {
        HmiNodeKind::Group { children, .. } => {
            check_children(children, seen, issues);
            assert(preorder(*node) == seq![*node] + preorder_all(children@));
            assert(views(seen@) =~= s0 + seen_ids(preorder(*node)));
            assert(issue_views(issues@) =~= i0 + walk_issues(preorder(*node), s0));
        },
        _ => {
            assert(preorder(*node) =~= seq![*node]);
        },
    }
}

fn check_children(children: &Vec<HmiNode>, seen: &mut Vec<String>, issues: &mut Vec<HmiIssue>)
    ensures
        issue_views(final(issues)@) == issue_views(old(issues)@) + walk_issues(
            preorder_all(children@),
            views(old(seen)@),
        ),
        views(final(seen)@) == views(old(seen)@) + seen_ids(preorder_all(children@)),
    decreases children@, 0int,
{
    let ghost s0 = views(seen@);
    let ghost i0 = issue_views(issues@);
    let mut i: usize = 0;
    assert(preorder_all(children@.take(0)) =~= Seq::<HmiNode>::empty());
    assert(i0 + walk_issues(Seq::<HmiNode>::empty(), s0) =~= i0);
    assert(s0 + seen_ids(Seq::<HmiNode>::empty()) =~= s0);
    while i < children.len()
        invariant
            i <= children.len(),
            issue_views(issues@) == i0 + walk_issues(preorder_all(children@.take(i as int)), s0),
            views(seen@) == s0 + seen_ids(preorder_all(children@.take(i as int))),
        decreases children.len() - i,
    {
        assert(decreases_to!(children@ => children@[i as int]));
        check_tree(&children[i], seen, issues);
        proof {
            let pre = preorder_all(children@.take(i as int));
            let c = preorder(children@[i as int]);
            assert(children@.take(i + 1) =~= children@.take(i as int).push(children@[i as int]));
            lemma_preorder_all_push(children@.take(i as int), children@[i as int]);
            lemma_walk_issues_concat(pre, c, s0);
            lemma_seen_ids_concat(pre, c);
            assert(s0 + seen_ids(pre) + seen_ids(c) =~= s0 + seen_ids(pre + c));
        }
        i = i + 1;
    }
    assert(children@.take(children.len() as int) =~= children@);
}

/// Structural validation of a screen: the screen-level findings, then
/// per node in pre-order a blank or duplicate id, an unknown symbol
/// (warning), a trend without series, a blank navigation target, an input
/// without a `commit` action (warning), and set-value bounds in the wrong
/// order.
pub fn validate_hmi(doc: &HmiDoc) -> (r: Vec<HmiIssue>)
    ensures
        issue_views(r@) == doc_issues(*doc),
{
    let mut issues: Vec<HmiIssue> = Vec::new();
    match &doc.root.kind {
        HmiNodeKind::Group { .. } => {},
        _ => {
            push_issue(&mut issues, err(Some(doc.root.id.as_str()), String::from_str("root node must be a group")));
        },
    }
    if trim_chars(&chars_of(doc.title.as_str())).len() == 0 {
        push_issue(&mut issues, warn(None, String::from_str("screen has no title")));
    }
    if doc.level < 1 || doc.level > 4 {
        let mut m = String::from_str("level ");
        push_decimal(&mut m, doc.level as u64);
        m.append(" outside ISA-101 1..4");
        push_issue(&mut issues, warn(None, m));
    }
    assert(issue_views(issues@) =~= header_issues(*doc));
    let mut seen: Vec<String> = Vec::new();
    assert(views(seen@) =~= Seq::<Seq<char>>::empty());
    check_tree(&doc.root, &mut seen, &mut issues);
    issues
}

/// A new screen: the given title, level 2, the default grid and an empty
/// root group.
pub open spec fn is_fresh_screen(d: HmiDoc, title: Seq<char>) -> bool {
    &&& d.version == HMI_VERSION
    &&& d.title@ == title
    &&& d.level == 2
    &&& d.grid == HmiGrid { w: 1280, h: 800, snap: 8 }
    &&& d.root.id@ == "root"@
    &&& d.root.kind matches HmiNodeKind::Group { layout, gap, children } && layout
        == HmiLayout::Absolute && gap == 0 && children@.len() == 0
    &&& d.root.x == 0 && d.root.y == 0 && d.root.w == 0 && d.root.h == 0
    &&& d.root.bind@.len() == 0 && d.root.action@.len() == 0
}

pub fn empty_hmi(title: &str) -> (d: HmiDoc)
    ensures
        is_fresh_screen(d, title@),
{
    HmiDoc {
        version: HMI_VERSION,
        title: title.to_string(),
        level: 2,
        grid: HmiGrid::default(),
        root: HmiNode {
            id: String::from_str("root"),
            kind: HmiNodeKind::Group { layout: HmiLayout::Absolute, gap: 0, children: Vec::new() },
            x: 0,
            y: 0,
            w: 0,
            h: 0,
            bind: Vec::new(),
            action: Vec::new(),
        },
    }
}

/// A fresh screen with a non-blank title validates without findings.
pub proof fn fresh_screen_is_valid(d: HmiDoc, title: Seq<char>)
    requires
        is_fresh_screen(d, title),
        trim(title).len() > 0,
    ensures
        doc_issues(d).len() == 0,
{
    let root = d.root;
    assert(children_of(root) =~= Seq::<HmiNode>::empty());
    assert(preorder_all(Seq::<HmiNode>::empty()) =~= Seq::<HmiNode>::empty());
    assert(preorder(root) =~= seq![root]);
    assert(seq![root].drop_last() =~= Seq::<HmiNode>::empty());
    reveal_strlit("root");
    assert(trim("root"@) == "root"@) by {
        assert("root"@[0] == 'r');
        assert("root"@[3] == 't');
        assert("root"@.drop_last() =~= seq!['r', 'o', 'o']);
    }
    assert(!Seq::<Seq<char>>::empty().contains(root.id@));
    assert(id_issues(root, Seq::empty() + seen_ids(Seq::<HmiNode>::empty())) =~= Seq::<IssueView>::empty());
    assert(kind_issues(root) =~= Seq::<IssueView>::empty());
    assert(bound_issues(root.id@, root.action@) =~= Seq::<IssueView>::empty());
    let s0 = Seq::<Seq<char>>::empty();
    assert(node_issues(root, s0 + seen_ids(Seq::<HmiNode>::empty())) =~= Seq::<IssueView>::empty());
    assert(walk_issues(Seq::<HmiNode>::empty(), s0) =~= Seq::<IssueView>::empty());
    assert(walk_issues(seq![root], s0) == walk_issues(Seq::<HmiNode>::empty(), s0) + node_issues(
        root,
        s0 + seen_ids(Seq::<HmiNode>::empty()),
    ));
    assert(walk_issues(preorder(root), s0) =~= Seq::<IssueView>::empty());
    assert(header_issues(d) =~= Seq::<IssueView>::empty());
}

// ----- Set-value bounds compare as real numbers -----

/// The biased exponent field of a double.
pub open spec fn f64_exponent(b: u64) -> int {
    ((b >> 52u64) & 0x7ffu64) as int
}

/// The fraction field of a double.
pub open spec fn f64_fraction(b: u64) -> int {
    (b & 0x000f_ffff_ffff_ffffu64) as int
}

/// A finite double: neither an infinity nor a NaN.
pub open spec fn f64_finite(b: u64) -> bool {
    f64_exponent(b) < 0x7ff
}

/// The magnitude of a finite double with exponent field `e` and fraction
/// `f`, times 2^1074: a subnormal is `f * 2^-1074`, a normal number
/// `(1 + f / 2^52) * 2^(e - 1023)`.
pub open spec fn scaled_magnitude(e: int, f: int) -> int {
    if e == 0 {
        f
    } else {
        (f + pow2(52)) * pow2((e - 1) as nat)
    }
}

/// The value of a finite double, times 2^1074 (so that every finite
/// double is an integer here), by IEEE-754's definition.
pub open spec fn f64_scaled(b: u64) -> int {
    let m = scaled_magnitude(f64_exponent(b), f64_fraction(b));
    if b >= 0x8000_0000_0000_0000u64 {
        -m
    } else {
        m
    }
}

proof fn lemma_fields(b: u64)
    ensures
        (b & 0x7fff_ffff_ffff_ffffu64) as int == f64_exponent(b) * 0x10_0000_0000_0000 + f64_fraction(b),
        0 <= f64_fraction(b) < 0x10_0000_0000_0000,
        0 <= f64_exponent(b) <= 0x7ff,
{
    assert((b & 0x7fff_ffff_ffff_ffffu64) == ((b >> 52u64) & 0x7ffu64) * 0x10_0000_0000_0000u64 + (b
        & 0x000f_ffff_ffff_ffffu64)) by (bit_vector);
    assert((b & 0x000f_ffff_ffff_ffffu64) < 0x10_0000_0000_0000u64) by (bit_vector);
    assert(((b >> 52u64) & 0x7ffu64) <= 0x7ffu64) by (bit_vector);
}

proof fn lemma_magnitude_bounds(e: int, f: int)
    requires
        0 <= e,
        0 <= f < pow2(52),
    ensures
        0 <= scaled_magnitude(e, f) < pow2(52) * pow2(e as nat),
        e > 0 ==> scaled_magnitude(e, f) >= pow2(52) * pow2((e - 1) as nat),
        scaled_magnitude(e, f) == 0 <==> e == 0 && f == 0,
{
    vstd::arithmetic::power2::lemma_pow2_pos(52);
    vstd::arithmetic::power2::lemma_pow2_pos(e as nat);
    if e == 0 {
        assert(pow2(0) == 1) by {
            vstd::arithmetic::power2::lemma2_to64();
        }
        assert(pow2(e as nat) == 1);
        let q = pow2(52);
        let r = pow2(e as nat);
        assert(q * r == q) by (nonlinear_arith)
            requires
                r == 1,
        ;
    } else {
        let p = pow2((e - 1) as nat);
        let q = pow2(52);
        vstd::arithmetic::power2::lemma_pow2_pos((e - 1) as nat);
        vstd::arithmetic::power2::lemma_pow2_unfold(e as nat);
        assert((f + q) * p < q * pow2(e as nat)) by (nonlinear_arith)
            requires
                f < q,
                p > 0,
                pow2(e as nat) == 2 * p,
        ;
        assert((f + q) * p >= q * p) by (nonlinear_arith)
            requires
                f >= 0,
                p > 0,
        ;
        assert(q * p > 0) by (nonlinear_arith)
            requires
                q > 0,
                p > 0,
        ;
    }
}

proof fn lemma_magnitude_increases(e1: int, f1: int, e2: int, f2: int)
    requires
        0 <= e1,
        0 <= e2,
        0 <= f1 < pow2(52),
        0 <= f2 < pow2(52),
        e1 * pow2(52) + f1 < e2 * pow2(52) + f2,
    ensures
        scaled_magnitude(e1, f1) < scaled_magnitude(e2, f2),
{
    let q = pow2(52);
    vstd::arithmetic::power2::lemma_pow2_pos(52);
    if e1 == e2 {
        if e1 > 0 {
            let p = pow2((e1 - 1) as nat);
            vstd::arithmetic::power2::lemma_pow2_pos((e1 - 1) as nat);
            assert((f1 + q) * p < (f2 + q) * p) by (nonlinear_arith)
                requires
                    f1 < f2,
                    p > 0,
            ;
        }
    } else {
        assert(e1 < e2) by (nonlinear_arith)
            requires
                e1 * q + f1 < e2 * q + f2,
                0 <= f1 < q,
                0 <= f2 < q,
                e1 != e2,
        ;
        lemma_magnitude_bounds(e1, f1);
        lemma_magnitude_bounds(e2, f2);
        if e1 < e2 - 1 {
            vstd::arithmetic::power2::lemma_pow2_strictly_increases(e1 as nat, (e2 - 1) as nat);
        }
        assert(q * pow2(e1 as nat) <= q * pow2((e2 - 1) as nat)) by (nonlinear_arith)
            requires
                pow2(e1 as nat) <= pow2((e2 - 1) as nat),
                q > 0,
        ;
    }
}

/// On finite doubles, the order the bounds are checked in is the order of
/// their values as real numbers.
proof fn lemma_f64_gt_is_real_order(a: u64, b: u64)
    requires
        f64_finite(a),
        f64_finite(b),
    ensures
        f64_gt(a, b) <==> f64_scaled(a) > f64_scaled(b),
{
    lemma_fields(a);
    lemma_fields(b);
    assert(pow2(52) == 0x10_0000_0000_0000) by {
        vstd::arithmetic::power2::lemma2_to64_rest();
    }
    let ea = f64_exponent(a);
    let fa = f64_fraction(a);
    let eb = f64_exponent(b);
    let fb = f64_fraction(b);
    assert(!f64_is_nan(a) && !f64_is_nan(b)) by {
        assert(((a & 0x7ff0_0000_0000_0000u64) == 0x7ff0_0000_0000_0000u64) ==> ((a >> 52u64) & 0x7ffu64)
            == 0x7ffu64) by (bit_vector);
        assert(((b & 0x7ff0_0000_0000_0000u64) == 0x7ff0_0000_0000_0000u64) ==> ((b >> 52u64) & 0x7ffu64)
            == 0x7ffu64) by (bit_vector);
    }
    let ma = ea * pow2(52) + fa;
    let mb = eb * pow2(52) + fb;
    lemma_magnitude_bounds(ea, fa);
    lemma_magnitude_bounds(eb, fb);
    if ma < mb {
        lemma_magnitude_increases(ea, fa, eb, fb);
    } else if mb < ma {
        lemma_magnitude_increases(eb, fb, ea, fa);
    } else {
        assert(ea == eb && fa == fb) by (nonlinear_arith)
            requires
                ea * 0x10_0000_0000_0000 + fa == eb * 0x10_0000_0000_0000 + fb,
                0 <= fa < 0x10_0000_0000_0000,
                0 <= fb < 0x10_0000_0000_0000,
        ;
    }
    assert(ma == 0 <==> ea == 0 && fa == 0) by (nonlinear_arith)
        requires
            ma == ea * 0x10_0000_0000_0000 + fa,
            0 <= fa,
            0 <= ea,
    ;
    assert(mb == 0 <==> eb == 0 && fb == 0) by (nonlinear_arith)
        requires
            mb == eb * 0x10_0000_0000_0000 + fb,
            0 <= fb,
            0 <= eb,
    ;
}

/// A set-value action is flagged exactly when both bounds are given and
/// its minimum is greater than its maximum as real numbers (for finite
/// bounds): `min = -10, max = 10` is never flagged, `min = 10, max = -10`
/// always is, and `-0` equals `+0`. Each action is judged on its own.
pub proof fn set_value_flagged_iff_min_exceeds_max(
    id: Seq<char>,
    acts: Seq<(String, HmiAction)>,
    act: (String, HmiAction),
)
    requires
        act.1 matches HmiAction::SetValue { min: Some(lo), max: Some(hi), .. } ==> f64_finite(lo.bits)
            && f64_finite(hi.bits),
    ensures
        bound_issues(id, acts.push(act)).len() == bound_issues(id, acts).len() + if act.1 matches HmiAction::SetValue {
            min: Some(lo),
            max: Some(hi),
            ..
        } && f64_scaled(lo.bits) > f64_scaled(hi.bits) {
            1int
        } else {
            0int
        },
        bound_issues(id, acts.push(act)).take(bound_issues(id, acts).len() as int) == bound_issues(
            id,
            acts,
        ),
{
    assert(acts.push(act).drop_last() =~= acts);
    assert(acts.push(act).last() == act);
    if let HmiAction::SetValue { min: Some(lo), max: Some(hi), .. } = act.1 {
        lemma_f64_gt_is_real_order(lo.bits, hi.bits);
    }
    let before = bound_issues(id, acts);
    let after = bound_issues(id, acts.push(act));
    assert(after.take(before.len() as int) =~= before);
}

} // verus!
