//! Structural edits of an HMI screen: adding a subtree under a group,
//! removing a subtree, replacing a node and changing the document's
//! metadata. A screen is modelled as a tree of node shells (a node without
//! its children) for the contracts.
use vstd::prelude::*;

use crate::hmi::{HmiDoc, HmiGrid, HmiNode, HmiNodeKind, collect_ids, ids_of, preorder, preorder_all};
use crate::text::views;

verus! {

/// One edit of a screen, as a batch carries it.
#[derive(Debug)]
pub enum HmiOp {
    /// Insert a subtree under a group (the root when `parent` is `None`)
    /// at `index` among its children (the end when `None`).
    AddNode { parent: Option<String>, node: HmiNode, index: Option<usize> },
    /// Merge a JSON patch one level deep into the node with this id; the
    /// id and the type cannot change.
    UpdateNode { id: String, patch: serde_json::Value },
    /// Remove the node and, for a group, its subtree.
    RemoveNode { id: String },
    /// Change document metadata without touching the tree.
    SetMeta { title: Option<String>, level: Option<u8>, grid: Option<HmiGrid> },
}

/// A node without its children.
pub open spec fn shell(n: HmiNode) -> HmiNode {
    match n.kind {
        HmiNodeKind::Group { layout, gap, .. } => HmiNode {
            kind: HmiNodeKind::Group { layout, gap, children: vstd::pervasive::arbitrary() },
            ..n
        },
        _ => n,
    }
}

/// A screen tree as node shells and child trees.
pub struct Tree {
    pub shell: HmiNode,
    pub children: Seq<Tree>,
}

pub open spec fn tree(n: HmiNode) -> Tree
    decreases n, 1int,
{
    match n.kind {
        HmiNodeKind::Group { children, .. } => Tree { shell: shell(n), children: trees(children@) },
        _ => Tree { shell: n, children: Seq::empty() },
    }
}

pub open spec fn trees(ns: Seq<HmiNode>) -> Seq<Tree>
    decreases ns, 0int,
{
    if ns.len() == 0 {
        Seq::empty()
    } else {
        trees(ns.drop_last()).push(tree(ns.last()))
    }
}

pub proof fn lemma_trees(ns: Seq<HmiNode>)
    ensures
        trees(ns).len() == ns.len(),
        forall|i: int| 0 <= i < ns.len() ==> #[trigger] trees(ns)[i] == tree(ns[i]),
    decreases ns.len(),
{
    if ns.len() > 0 {
        lemma_trees(ns.drop_last());
    }
}

pub open spec fn is_group(t: Tree) -> bool {
    t.shell.kind is Group
}

/// The first node with the given id, in pre-order.
pub open spec fn find(t: Tree, id: Seq<char>) -> Option<Tree>
    decreases t, 1int,
{
    if t.shell.id@ == id {
        Some(t)
    } else {
        find_in(t.children, id)
    }
}

pub open spec fn find_in(ts: Seq<Tree>, id: Seq<char>) -> Option<Tree>
    decreases ts, 0int,
{
    if ts.len() == 0 {
        None
    } else {
        match find(ts[0], id) {
            Some(x) => Some(x),
            None => find_in(ts.drop_first(), id),
        }
    }
}

/// Whether the tree holds a node with the given id.
pub open spec fn holds(t: Tree, id: Seq<char>) -> bool {
    find(t, id) is Some
}

/// The position a child is inserted at: the one asked for, the end when
/// none is given, and at most the end.
pub open spec fn insert_at(len: int, index: Option<usize>) -> int {
    match index {
        Some(i) => if i < len {
            i as int
        } else {
            len
        },
        None => len,
    }
}

/// The tree with `x` inserted among the children of the first node with
/// id `pid`.
pub open spec fn added(t: Tree, pid: Seq<char>, index: Option<usize>, x: Tree) -> Tree
    decreases t, 1int,
{
    if t.shell.id@ == pid {
        Tree {
            children: t.children.insert(insert_at(t.children.len() as int, index), x),
            ..t
        }
    } else {
        Tree { children: added_in(t.children, pid, index, x), ..t }
    }
}

pub open spec fn added_in(ts: Seq<Tree>, pid: Seq<char>, index: Option<usize>, x: Tree) -> Seq<Tree>
    decreases ts, 0int,
{
    if ts.len() == 0 {
        ts
    } else if holds(ts[0], pid) {
        ts.update(0, added(ts[0], pid, index, x))
    } else {
        seq![ts[0]] + added_in(ts.drop_first(), pid, index, x)
    }
}

/// The first position among `ts` whose tree holds `id`.
pub open spec fn first_holding(ts: Seq<Tree>, id: Seq<char>) -> Option<int>
    decreases ts.len(),
{
    if ts.len() == 0 {
        None
    } else if holds(ts[0], id) {
        Some(0)
    } else {
        match first_holding(ts.drop_first(), id) {
            Some(k) => Some(k + 1),
            None => None,
        }
    }
}

proof fn lemma_first_holding(ts: Seq<Tree>, id: Seq<char>, k: int)
    requires
        0 <= k <= ts.len(),
        forall|j: int| 0 <= j < k ==> !holds(#[trigger] ts[j], id),
    ensures
        k < ts.len() && holds(ts[k], id) ==> first_holding(ts, id) == Some(k),
        k == ts.len() ==> first_holding(ts, id) is None,
        k < ts.len() && holds(ts[k], id) ==> find_in(ts, id) == find(ts[k], id),
        k == ts.len() ==> find_in(ts, id) is None,
    decreases k,
{
    if k > 0 {
        assert forall|j: int| 0 <= j < k - 1 implies !holds(#[trigger] ts.drop_first()[j], id) by {
            assert(ts.drop_first()[j] == ts[j + 1]);
        }
        assert(!holds(ts[0], id));
        lemma_first_holding(ts.drop_first(), id, k - 1);
        if k < ts.len() {
            assert(ts.drop_first()[k - 1] == ts[k]);
        }
    }
}

/// Whether `n`'s tree holds `id`, and if so whether that node is a group.
pub fn locate(n: &HmiNode, id: &String) -> (r: Option<bool>)
    ensures
        r == (match find(tree(*n), id@) {
            Some(p) => Some(is_group(p)),
            None => None,
        }),
    decreases n, 1int,
{
    if n.id == *id {
        return Some(matches!(n.kind, HmiNodeKind::Group { .. }));
    }
    match &n.kind {
        HmiNodeKind::Group { children, .. } => {
            assert(tree(*n).children == trees(children@));
            assert(find(tree(*n), id@) == find_in(trees(children@), id@));
            locate_in(children, id)
        },
        _ => {
            assert(find_in(Seq::<Tree>::empty(), id@) is None);
            None
        },
    }
}

fn locate_in(children: &Vec<HmiNode>, id: &String) -> (r: Option<bool>)
    ensures
        r == (match find_in(trees(children@), id@) {
            Some(p) => Some(is_group(p)),
            None => None,
        }),
    decreases children@, 0int,
{
    proof {
        lemma_trees(children@);
    }
    let mut i: usize = 0;
    while i < children.len()
        invariant
            i <= children@.len(),
            trees(children@).len() == children@.len(),
            forall|j: int| 0 <= j < children@.len() ==> #[trigger] trees(children@)[j] == tree(children@[j]),
            forall|j: int| 0 <= j < i ==> !holds(#[trigger] trees(children@)[j], id@),
        decreases children@.len() - i,
    {
        assert(decreases_to!(children@ => children@[i as int]));
        let r = locate(&children[i], id);
        if r.is_some() {
            proof {
                lemma_first_holding(trees(children@), id@, i as int);
            }
            return r;
        }
        i = i + 1;
    }
    proof {
        lemma_first_holding(trees(children@), id@, i as int);
    }
    None
}

proof fn lemma_added_in(ts: Seq<Tree>, pid: Seq<char>, index: Option<usize>, x: Tree, k: int)
    requires
        0 <= k < ts.len(),
        holds(ts[k], pid),
        forall|j: int| 0 <= j < k ==> !holds(#[trigger] ts[j], pid),
    ensures
        added_in(ts, pid, index, x) == ts.update(k, added(ts[k], pid, index, x)),
    decreases k,
{
    if k > 0 {
        assert forall|j: int| 0 <= j < k - 1 implies !holds(#[trigger] ts.drop_first()[j], pid) by {
            assert(ts.drop_first()[j] == ts[j + 1]);
        }
        assert(!holds(ts[0], pid));
        lemma_added_in(ts.drop_first(), pid, index, x, k - 1);
        assert(ts.drop_first()[k - 1] == ts[k]);
        assert(seq![ts[0]] + ts.drop_first().update(k - 1, added(ts[k], pid, index, x)) =~= ts.update(
            k,
            added(ts[k], pid, index, x),
        ));
    }
}

proof fn lemma_trees_update(ns: Seq<HmiNode>, i: int, n: HmiNode)
    requires
        0 <= i < ns.len(),
    ensures
        trees(ns.update(i, n)) == trees(ns).update(i, tree(n)),
{
    lemma_trees(ns);
    lemma_trees(ns.update(i, n));
    assert(trees(ns.update(i, n)) =~= trees(ns).update(i, tree(n)));
}

proof fn lemma_trees_insert(ns: Seq<HmiNode>, i: int, n: HmiNode)
    requires
        0 <= i <= ns.len(),
    ensures
        trees(ns.insert(i, n)) == trees(ns).insert(i, tree(n)),
{
    lemma_trees(ns);
    lemma_trees(ns.insert(i, n));
    assert(trees(ns.insert(i, n)) =~= trees(ns).insert(i, tree(n)));
}

proof fn lemma_trees_remove(ns: Seq<HmiNode>, i: int)
    requires
        0 <= i < ns.len(),
    ensures
        trees(ns.remove(i)) == trees(ns).remove(i),
{
    lemma_trees(ns);
    lemma_trees(ns.remove(i));
    assert(trees(ns.remove(i)) =~= trees(ns).remove(i));
}

/// Inserts `item` among the children of the first node with id `pid`,
/// which is a group.
fn add_into(n: HmiNode, pid: &String, index: Option<usize>, item: HmiNode) -> (r: HmiNode)
    requires
        find(tree(n), pid@) matches Some(p) && is_group(p),
    ensures
        tree(r) == added(tree(n), pid@, index, tree(item)),
    decreases n, 1int,
{
    let ghost n0 = n;
    let HmiNode { id, kind, x, y, w, h, bind, action } = n;
    match kind {
        HmiNodeKind::Group { layout, gap, children } => {
            let ghost cs0 = children@;
            assert(tree(n0).children == trees(cs0));
            let mut children = children;
            if id == *pid {
                let len = children.len();
                let at = match index {
                    Some(i) => if i < len {
                        i
                    } else {
                        len
                    },
                    None => len,
                };
                children.insert(at, item);
                proof {
                    lemma_trees(cs0);
                    lemma_trees_insert(cs0, at as int, item);
                }
                let r = HmiNode {
                    id,
                    kind: HmiNodeKind::Group { layout, gap, children },
                    x,
                    y,
                    w,
                    h,
                    bind,
                    action,
                };
                assert(shell(r) == shell(n0));
                r
            } else {
                assert(find(tree(n0), pid@) == find_in(trees(cs0), pid@));
                let cs = add_into_children(children, pid, index, item);
                let r = HmiNode {
                    id,
                    kind: HmiNodeKind::Group { layout, gap, children: cs },
                    x,
                    y,
                    w,
                    h,
                    bind,
                    action,
                };
                assert(shell(r) == shell(n0));
                r
            }
        },
        other => {
            let r = HmiNode { id, kind: other, x, y, w, h, bind, action };
            assert(r == n0);
            proof {
                if id@ != pid@ {
                    assert(find_in(Seq::<Tree>::empty(), pid@) is None);
                }
            }
            r
        },
    }
}

fn add_into_children(children: Vec<HmiNode>, pid: &String, index: Option<usize>, item: HmiNode) -> (r: Vec<HmiNode>)
    requires
        find_in(trees(children@), pid@) matches Some(p) && is_group(p),
    ensures
        trees(r@) == added_in(trees(children@), pid@, index, tree(item)),
    decreases children@, 0int,
{
    let ghost cs0 = children@;
    proof {
        lemma_trees(cs0);
    }
    let mut children = children;
    let mut i: usize = 0;
    while i < children.len() && locate(&children[i], pid).is_none()
        invariant
            i <= children@.len(),
            children@ == cs0,
            trees(cs0).len() == cs0.len(),
            forall|j: int| 0 <= j < cs0.len() ==> #[trigger] trees(cs0)[j] == tree(cs0[j]),
            forall|j: int| 0 <= j < i ==> !holds(#[trigger] trees(cs0)[j], pid@),
        decreases children@.len() - i,
    {
        i = i + 1;
    }
    proof {
        if i == children@.len() {
            lemma_first_holding(trees(cs0), pid@, i as int);
        }
        lemma_first_holding(trees(cs0), pid@, i as int);
        lemma_added_in(trees(cs0), pid@, index, tree(item), i as int);
    }
    let child = children.remove(i);
    assert(child == cs0[i as int]);
    assert(decreases_to!(cs0 => cs0[i as int]));
    let child2 = add_into(child, pid, index, item);
    children.insert(i, child2);
    proof {
        assert(children@ =~= cs0.update(i as int, child2));
        lemma_trees_update(cs0, i as int, child2);
    }
    children
}


/// The first position among `ts` of a tree whose own id is `id`.
pub open spec fn child_pos(ts: Seq<Tree>, id: Seq<char>) -> Option<int>
    decreases ts.len(),
{
    if ts.len() == 0 {
        None
    } else if ts[0].shell.id@ == id {
        Some(0)
    } else {
        match child_pos(ts.drop_first(), id) {
            Some(k) => Some(k + 1),
            None => None,
        }
    }
}

/// The tree with the node of id `id` removed, subtree and all, or `None`
/// when no group holds such a node. Each group first looks among its own
/// children, then searches its children's trees in order.
pub open spec fn removed(t: Tree, id: Seq<char>) -> Option<Tree>
    decreases t, 1int,
{
    if !is_group(t) {
        None
    } else {
        match child_pos(t.children, id) {
            Some(k) => Some(Tree { children: t.children.remove(k), ..t }),
            None => match removed_in(t.children, id) {
                Some(cs) => Some(Tree { children: cs, ..t }),
                None => None,
            },
        }
    }
}

pub open spec fn removed_in(ts: Seq<Tree>, id: Seq<char>) -> Option<Seq<Tree>>
    decreases ts, 0int,
{
    if ts.len() == 0 {
        None
    } else {
        match removed(ts[0], id) {
            Some(c) => Some(ts.update(0, c)),
            None => match removed_in(ts.drop_first(), id) {
                Some(rest) => Some(seq![ts[0]] + rest),
                None => None,
            },
        }
    }
}

proof fn lemma_child_pos(ts: Seq<Tree>, id: Seq<char>, k: int)
    requires
        0 <= k <= ts.len(),
        forall|j: int| 0 <= j < k ==> (#[trigger] ts[j]).shell.id@ != id,
    ensures
        k < ts.len() && ts[k].shell.id@ == id ==> child_pos(ts, id) == Some(k),
        k == ts.len() ==> child_pos(ts, id) is None,
    decreases k,
{
    if k > 0 {
        assert forall|j: int| 0 <= j < k - 1 implies (#[trigger] ts.drop_first()[j]).shell.id@ != id by {
            assert(ts.drop_first()[j] == ts[j + 1]);
        }
        assert(ts[0].shell.id@ != id);
        lemma_child_pos(ts.drop_first(), id, k - 1);
        if k < ts.len() {
            assert(ts.drop_first()[k - 1] == ts[k]);
        }
    }
}

proof fn lemma_removed_in(ts: Seq<Tree>, id: Seq<char>, k: int)
    requires
        0 <= k <= ts.len(),
        forall|j: int| 0 <= j < k ==> removed(#[trigger] ts[j], id) is None,
    ensures
        k < ts.len() && removed(ts[k], id) is Some ==> removed_in(ts, id) == Some(
            ts.update(k, removed(ts[k], id)->0),
        ),
        k == ts.len() ==> removed_in(ts, id) is None,
    decreases k,
{
    if k > 0 {
        assert forall|j: int| 0 <= j < k - 1 implies removed(#[trigger] ts.drop_first()[j], id) is None by {
            assert(ts.drop_first()[j] == ts[j + 1]);
        }
        assert(removed(ts[0], id) is None);
        lemma_removed_in(ts.drop_first(), id, k - 1);
        if k < ts.len() && removed(ts[k], id) is Some {
            assert(ts.drop_first()[k - 1] == ts[k]);
            assert(seq![ts[0]] + ts.drop_first().update(k - 1, removed(ts[k], id)->0) =~= ts.update(
                k,
                removed(ts[k], id)->0,
            ));
        }
    }
}

/// Removes the node with id `id` as `removed` describes; says whether it
/// found one.
fn remove_from(n: HmiNode, id: &String) -> (r: (HmiNode, bool))
    ensures
        r.1 == removed(tree(n), id@) is Some,
        r.1 ==> tree(r.0) == removed(tree(n), id@)->0,
        !r.1 ==> tree(r.0) == tree(n),
    decreases n, 1int,
{
    let ghost n0 = n;
    let HmiNode { id: nid, kind, x, y, w, h, bind, action } = n;
    match kind {
        HmiNodeKind::Group { layout, gap, children } => {
            let ghost cs0 = children@;
            assert(tree(n0).children == trees(cs0));
            proof {
                lemma_trees(cs0);
            }
            let mut children = children;
            let mut k: usize = 0;
            while k < children.len() && children[k].id != *id
                invariant
                    k <= children@.len(),
                    children@ == cs0,
                    trees(cs0).len() == cs0.len(),
                    forall|j: int| 0 <= j < cs0.len() ==> #[trigger] trees(cs0)[j] == tree(cs0[j]),
                    forall|j: int| 0 <= j < k ==> (#[trigger] trees(cs0)[j]).shell.id@ != id@,
                decreases children@.len() - k,
            {
                assert(trees(cs0)[k as int].shell.id == cs0[k as int].id);
                k = k + 1;
            }
            if k < children.len() {
                proof {
                    assert(trees(cs0)[k as int].shell.id == cs0[k as int].id);
                    lemma_child_pos(trees(cs0), id@, k as int);
                    lemma_trees_remove(cs0, k as int);
                }
                let _gone = children.remove(k);
                let r = HmiNode {
                    id: nid,
                    kind: HmiNodeKind::Group { layout, gap, children },
                    x,
                    y,
                    w,
                    h,
                    bind,
                    action,
                };
                assert(shell(r) == shell(n0));
                return (r, true);
            }
            proof {
                lemma_child_pos(trees(cs0), id@, k as int);
            }
            assert(tree(n0) == Tree { shell: shell(n0), children: trees(cs0) });
            let (children, found) = remove_in_children(children, id);
            let r = HmiNode {
                id: nid,
                kind: HmiNodeKind::Group { layout, gap, children },
                x,
                y,
                w,
                h,
                bind,
                action,
            };
            assert(shell(r) == shell(n0));
            (r, found)
        },
        other => {
            let r = HmiNode { id: nid, kind: other, x, y, w, h, bind, action };
            assert(r == n0);
            (r, false)
        },
    }
}


/// Whether `removed` finds the node in `n`'s tree.
fn can_remove(n: &HmiNode, id: &String) -> (r: bool)
    ensures
        r == removed(tree(*n), id@) is Some,
    decreases n, 1int,
{
    match &n.kind {
        HmiNodeKind::Group { children, .. } => {
            assert(tree(*n).children == trees(children@));
            proof {
                lemma_trees(children@);
            }
            let mut k: usize = 0;
            while k < children.len() && children[k].id != *id
                invariant
                    k <= children@.len(),
                    trees(children@).len() == children@.len(),
                    forall|j: int| 0 <= j < children@.len() ==> #[trigger] trees(children@)[j] == tree(children@[j]),
                    forall|j: int| 0 <= j < k ==> (#[trigger] trees(children@)[j]).shell.id@ != id@,
                decreases children@.len() - k,
            {
                assert(trees(children@)[k as int].shell.id == children@[k as int].id);
                k = k + 1;
            }
            if k < children.len() {
                proof {
                    assert(trees(children@)[k as int].shell.id == children@[k as int].id);
                    lemma_child_pos(trees(children@), id@, k as int);
                }
                return true;
            }
            proof {
                lemma_child_pos(trees(children@), id@, k as int);
            }
            can_remove_in(children, id)
        },
        _ => false,
    }
}

fn can_remove_in(children: &Vec<HmiNode>, id: &String) -> (r: bool)
    ensures
        r == removed_in(trees(children@), id@) is Some,
    decreases children@, 0int,
{
    proof {
        lemma_trees(children@);
    }
    let mut i: usize = 0;
    while i < children.len()
        invariant
            i <= children@.len(),
            trees(children@).len() == children@.len(),
            forall|j: int| 0 <= j < children@.len() ==> #[trigger] trees(children@)[j] == tree(children@[j]),
            forall|j: int| 0 <= j < i ==> removed(#[trigger] trees(children@)[j], id@) is None,
        decreases children@.len() - i,
    {
        assert(decreases_to!(children@ => children@[i as int]));
        if can_remove(&children[i], id) {
            proof {
                lemma_removed_in(trees(children@), id@, i as int);
            }
            return true;
        }
        i = i + 1;
    }
    proof {
        lemma_removed_in(trees(children@), id@, i as int);
    }
    false
}

fn remove_in_children(children: Vec<HmiNode>, id: &String) -> (r: (Vec<HmiNode>, bool))
    ensures
        r.1 == removed_in(trees(children@), id@) is Some,
        r.1 ==> trees(r.0@) == removed_in(trees(children@), id@)->0,
        !r.1 ==> trees(r.0@) == trees(children@),
    decreases children@, 0int,
{
    let ghost cs0 = children@;
    proof {
        lemma_trees(cs0);
    }
    let mut children = children;
    let mut i: usize = 0;
    while i < children.len() && !can_remove(&children[i], id)
        invariant
            i <= children@.len(),
            children@ == cs0,
            trees(cs0).len() == cs0.len(),
            forall|j: int| 0 <= j < cs0.len() ==> #[trigger] trees(cs0)[j] == tree(cs0[j]),
            forall|j: int| 0 <= j < i ==> removed(#[trigger] trees(cs0)[j], id@) is None,
        decreases children@.len() - i,
    {
        i = i + 1;
    }
    proof {
        lemma_removed_in(trees(cs0), id@, i as int);
    }
    if i == children.len() {
        return (children, false);
    }
    let child = children.remove(i);
    assert(child == cs0[i as int]);
    assert(decreases_to!(cs0 => cs0[i as int]));
    let (c2, found) = remove_from(child, id);
    children.insert(i, c2);
    proof {
        assert(children@ =~= cs0.update(i as int, c2));
        lemma_trees_update(cs0, i as int, c2);
    }
    (children, found)
}


/// The tree with the first node of id `id` (in pre-order) replaced by `x`.
pub open spec fn replaced(t: Tree, id: Seq<char>, x: Tree) -> Tree
    decreases t, 1int,
{
    if t.shell.id@ == id {
        x
    } else {
        Tree { children: replaced_in(t.children, id, x), ..t }
    }
}

pub open spec fn replaced_in(ts: Seq<Tree>, id: Seq<char>, x: Tree) -> Seq<Tree>
    decreases ts, 0int,
{
    if ts.len() == 0 {
        ts
    } else if holds(ts[0], id) {
        ts.update(0, replaced(ts[0], id, x))
    } else {
        seq![ts[0]] + replaced_in(ts.drop_first(), id, x)
    }
}

proof fn lemma_replaced_in(ts: Seq<Tree>, id: Seq<char>, x: Tree, k: int)
    requires
        0 <= k < ts.len(),
        holds(ts[k], id),
        forall|j: int| 0 <= j < k ==> !holds(#[trigger] ts[j], id),
    ensures
        replaced_in(ts, id, x) == ts.update(k, replaced(ts[k], id, x)),
    decreases k,
{
    if k > 0 {
        assert forall|j: int| 0 <= j < k - 1 implies !holds(#[trigger] ts.drop_first()[j], id) by {
            assert(ts.drop_first()[j] == ts[j + 1]);
        }
        assert(!holds(ts[0], id));
        lemma_replaced_in(ts.drop_first(), id, x, k - 1);
        assert(ts.drop_first()[k - 1] == ts[k]);
        assert(seq![ts[0]] + ts.drop_first().update(k - 1, replaced(ts[k], id, x)) =~= ts.update(
            k,
            replaced(ts[k], id, x),
        ));
    }
}

/// Puts `item` in place of the first node with id `id`.
fn replace_into(n: HmiNode, id: &String, item: HmiNode) -> (r: HmiNode)
    requires
        holds(tree(n), id@),
    ensures
        tree(r) == replaced(tree(n), id@, tree(item)),
    decreases n, 1int,
{
    if n.id == *id {
        return item;
    }
    let ghost n0 = n;
    let HmiNode { id: nid, kind, x, y, w, h, bind, action } = n;
    match kind {
        HmiNodeKind::Group { layout, gap, children } => {
            assert(tree(n0).children == trees(children@));
            assert(find(tree(n0), id@) == find_in(trees(children@), id@));
            let cs = replace_in_children(children, id, item);
            let r = HmiNode {
                id: nid,
                kind: HmiNodeKind::Group { layout, gap, children: cs },
                x,
                y,
                w,
                h,
                bind,
                action,
            };
            assert(shell(r) == shell(n0));
            r
        },
        other => {
            let r = HmiNode { id: nid, kind: other, x, y, w, h, bind, action };
            assert(r == n0);
            assert(find_in(Seq::<Tree>::empty(), id@) is None);
            r
        },
    }
}

fn replace_in_children(children: Vec<HmiNode>, id: &String, item: HmiNode) -> (r: Vec<HmiNode>)
    requires
        find_in(trees(children@), id@) is Some,
    ensures
        trees(r@) == replaced_in(trees(children@), id@, tree(item)),
    decreases children@, 0int,
{
    let ghost cs0 = children@;
    proof {
        lemma_trees(cs0);
    }
    let mut children = children;
    let mut i: usize = 0;
    while i < children.len() && locate(&children[i], id).is_none()
        invariant
            i <= children@.len(),
            children@ == cs0,
            trees(cs0).len() == cs0.len(),
            forall|j: int| 0 <= j < cs0.len() ==> #[trigger] trees(cs0)[j] == tree(cs0[j]),
            forall|j: int| 0 <= j < i ==> !holds(#[trigger] trees(cs0)[j], id@),
        decreases children@.len() - i,
    {
        i = i + 1;
    }
    proof {
        lemma_first_holding(trees(cs0), id@, i as int);
        lemma_replaced_in(trees(cs0), id@, tree(item), i as int);
    }
    let child = children.remove(i);
    assert(child == cs0[i as int]);
    assert(decreases_to!(cs0 => cs0[i as int]));
    let child2 = replace_into(child, id, item);
    children.insert(i, child2);
    proof {
        assert(children@ =~= cs0.update(i as int, child2));
        lemma_trees_update(cs0, i as int, child2);
    }
    children
}


// ----- Edits of a document -----

fn quote(pre: &str, x: &str, post: &str) -> (s: String)
    ensures
        s@ == pre@ + x@ + post@,
{
    let mut s = pre.to_string();
    s.append(x);
    s.append(post);
    s
}

/// The first id of `ids` other than `own` that the screen already holds.
pub open spec fn taken_descendant(ids: Seq<Seq<char>>, own: Seq<char>, root: Tree) -> Option<Seq<char>>
    decreases ids.len(),
{
    if ids.len() == 0 {
        None
    } else if ids[0] != own && holds(root, ids[0]) {
        Some(ids[0])
    } else {
        taken_descendant(ids.drop_first(), own, root)
    }
}

proof fn lemma_taken_descendant(ids: Seq<Seq<char>>, own: Seq<char>, root: Tree, k: int)
    requires
        0 <= k <= ids.len(),
        forall|j: int| 0 <= j < k ==> !(#[trigger] ids[j] != own && holds(root, ids[j])),
    ensures
        k < ids.len() && ids[k] != own && holds(root, ids[k]) ==> taken_descendant(ids, own, root)
            == Some(ids[k]),
        k == ids.len() ==> taken_descendant(ids, own, root) is None,
    decreases k,
{
    if k > 0 {
        assert forall|j: int| 0 <= j < k - 1 implies !(#[trigger] ids.drop_first()[j] != own && holds(
            root,
            ids.drop_first()[j],
        )) by {
            assert(ids.drop_first()[j] == ids[j + 1]);
        }
        assert(!(ids[0] != own && holds(root, ids[0])));
        lemma_taken_descendant(ids.drop_first(), own, root, k - 1);
        if k < ids.len() {
            assert(ids.drop_first()[k - 1] == ids[k]);
        }
    }
}

/// The parent an added node goes under: the one named, else the root.
pub open spec fn parent_of(root: HmiNode, parent: Option<String>) -> Seq<char> {
    match parent {
        Some(p) => p@,
        None => root.id@,
    }
}

/// Why adding `node` under `parent` fails, by the first check that does:
/// an empty id, an id the screen already has, a descendant id it already
/// has, a parent it lacks, a parent that is not a group.
pub open spec fn add_error(root: HmiNode, parent: Option<String>, node: HmiNode) -> Option<Seq<char>> {
    let t = tree(root);
    let nid = node.id@;
    let pid = parent_of(root, parent);
    if nid.len() == 0 {
        Some("node id must not be empty"@)
    } else if holds(t, nid) {
        Some("id '"@ + nid + "' already exists"@)
    } else {
        match taken_descendant(ids_of(preorder(node)), nid, t) {
            Some(d) => Some("descendant id '"@ + d + "' already exists"@),
            None => match find(t, pid) {
                None => Some("parent '"@ + pid + "' not found"@),
                Some(p) => if !is_group(p) {
                    Some("parent '"@ + pid + "' is not a group"@)
                } else {
                    None
                },
            },
        }
    }
}

/// Adds a subtree under `parent` (the root when none is named), at
/// `index` among its children (the end when none is given, and at most
/// the end). On success the screen changes as `added` says and the ids of
/// the new subtree come back in pre-order; on failure the document comes
/// back as it was, with the reason.
pub fn add_node(doc: HmiDoc, parent: Option<String>, node: HmiNode, index: Option<usize>) -> (r: (
    HmiDoc,
    Result<Vec<String>, String>,
))
    ensures
        match add_error(doc.root, parent, node) {
            Some(e) => r.0 == doc && (r.1 matches Err(m) && m@ == e),
            None => {
                &&& r.1 matches Ok(t) && views(t@) == ids_of(preorder(node))
                &&& tree(r.0.root) == added(
                    tree(doc.root),
                    parent_of(doc.root, parent),
                    index,
                    tree(node),
                )
                &&& r.0.version == doc.version && r.0.title == doc.title && r.0.level == doc.level
                    && r.0.grid == doc.grid
            },
        },
{
    if node.id.as_str().is_empty() {
        proof {
            reveal_strlit("node id must not be empty");
        }
        return (doc, Err(String::from_str("node id must not be empty")));
    }
    if locate(&doc.root, &node.id).is_some() {
        let m = quote("id '", node.id.as_str(), "' already exists");
        return (doc, Err(m));
    }
    let ids = collect_ids(&node);
    let ghost own = node.id@;
    let ghost t = tree(doc.root);
    let mut k: usize = 0;
    while k < ids.len()
        invariant
            k <= ids@.len(),
            views(ids@) == ids_of(preorder(node)),
            own == node.id@,
            t == tree(doc.root),
            own.len() > 0,
            !holds(t, own),
            forall|j: int| 0 <= j < k ==> !(#[trigger] views(ids@)[j] != own && holds(t, views(ids@)[j])),
        decreases ids@.len() - k,
    {
        assert(views(ids@)[k as int] == ids@[k as int]@);
        if !(ids[k] == node.id) && locate(&doc.root, &ids[k]).is_some() {
            proof {
                lemma_taken_descendant(views(ids@), own, t, k as int);
            }
            let m = quote("descendant id '", ids[k].as_str(), "' already exists");
            return (doc, Err(m));
        }
        k = k + 1;
    }
    proof {
        lemma_taken_descendant(views(ids@), own, t, k as int);
    }
    let pid = match &parent {
        Some(p) => p.clone(),
        None => doc.root.id.clone(),
    };
    assert(pid@ == parent_of(doc.root, parent));
    match locate(&doc.root, &pid) {
        None => {
            let m = quote("parent '", pid.as_str(), "' not found");
            (doc, Err(m))
        },
        Some(false) => {
            let m = quote("parent '", pid.as_str(), "' is not a group");
            (doc, Err(m))
        },
        Some(true) => {
            let HmiDoc { version, title, level, grid, root } = doc;
            let root = add_into(root, &pid, index, node);
            (HmiDoc { version, title, level, grid, root }, Ok(ids))
        },
    }
}

/// Why removing the node `id` fails: it is the root, or no group holds it.
pub open spec fn remove_error(root: HmiNode, id: Seq<char>) -> Option<Seq<char>> {
    if id == root.id@ {
        Some("cannot remove the root group"@)
    } else if removed(tree(root), id) is None {
        Some("node '"@ + id + "' not found"@)
    } else {
        None
    }
}

/// Removes the node `id` and its subtree, as `removed` says; on failure
/// the document comes back as it was, with the reason.
pub fn remove_node(doc: HmiDoc, id: &String) -> (r: (HmiDoc, Result<(), String>))
    ensures
        match remove_error(doc.root, id@) {
            Some(e) => r.0 == doc && (r.1 matches Err(m) && m@ == e),
            None => {
                &&& r.1 is Ok
                &&& tree(r.0.root) == removed(tree(doc.root), id@)->0
                &&& r.0.version == doc.version && r.0.title == doc.title && r.0.level == doc.level
                    && r.0.grid == doc.grid
            },
        },
{
    if *id == doc.root.id {
        proof {
            reveal_strlit("cannot remove the root group");
        }
        return (doc, Err(String::from_str("cannot remove the root group")));
    }
    if !can_remove(&doc.root, id) {
        let m = quote("node '", id.as_str(), "' not found");
        return (doc, Err(m));
    }
    let HmiDoc { version, title, level, grid, root } = doc;
    let (root, _found) = remove_from(root, id);
    (HmiDoc { version, title, level, grid, root }, Ok(()))
}

/// Puts `node` in place of the node `id` (the first with that id, in
/// pre-order); fails, leaving the document as it was, when there is none.
pub fn replace_node(doc: HmiDoc, id: &String, node: HmiNode) -> (r: (HmiDoc, Result<(), String>))
    ensures
        holds(tree(doc.root), id@) ==> {
            &&& r.1 is Ok
            &&& tree(r.0.root) == replaced(tree(doc.root), id@, tree(node))
            &&& r.0.version == doc.version && r.0.title == doc.title && r.0.level == doc.level
                && r.0.grid == doc.grid
        },
        !holds(tree(doc.root), id@) ==> r.0 == doc && (r.1 matches Err(m) && m@ == "node '"@ + id@
            + "' not found"@),
{
    if locate(&doc.root, id).is_none() {
        let m = quote("node '", id.as_str(), "' not found");
        return (doc, Err(m));
    }
    let HmiDoc { version, title, level, grid, root } = doc;
    let root = replace_into(root, id, node);
    (HmiDoc { version, title, level, grid, root }, Ok(()))
}

/// Changes the metadata that is given and leaves the rest, tree included.
pub fn set_meta(doc: &mut HmiDoc, title: Option<String>, level: Option<u8>, grid: Option<HmiGrid>)
    ensures
        final(doc).title == (match title {
            Some(t) => t,
            None => old(doc).title,
        }),
        final(doc).level == (match level {
            Some(l) => l,
            None => old(doc).level,
        }),
        final(doc).grid == (match grid {
            Some(g) => g,
            None => old(doc).grid,
        }),
        final(doc).version == old(doc).version,
        final(doc).root == old(doc).root,
{
    if let Some(t) = title {
        doc.title = t;
    }
    if let Some(l) = level {
        doc.level = l;
    }
    if let Some(g) = grid {
        doc.grid = g;
    }
}


// ----- Laws -----

proof fn lemma_find_in_some(ts: Seq<Tree>, id: Seq<char>, j: int)
    requires
        0 <= j < ts.len(),
        holds(ts[j], id),
    ensures
        find_in(ts, id) is Some,
    decreases j,
{
    if j > 0 && find(ts[0], id) is None {
        assert(ts.drop_first()[j - 1] == ts[j]);
        lemma_find_in_some(ts.drop_first(), id, j - 1);
    }
}

proof fn lemma_first_holding_index(ts: Seq<Tree>, id: Seq<char>) -> (k: int)
    requires
        find_in(ts, id) is Some,
    ensures
        0 <= k < ts.len(),
        holds(ts[k], id),
        forall|j: int| 0 <= j < k ==> !holds(#[trigger] ts[j], id),
    decreases ts.len(),
{
    if holds(ts[0], id) {
        0
    } else {
        let k = lemma_first_holding_index(ts.drop_first(), id);
        assert(ts.drop_first()[k] == ts[k + 1]);
        assert forall|j: int| 0 <= j < k + 1 implies !holds(#[trigger] ts[j], id) by {
            if j > 0 {
                assert(ts.drop_first()[j - 1] == ts[j]);
            }
        }
        k + 1
    }
}

proof fn lemma_added_holds(t: Tree, pid: Seq<char>, index: Option<usize>, x: Tree)
    requires
        holds(t, pid),
    ensures
        holds(added(t, pid, index, x), x.shell.id@),
    decreases t, 1int,
{
    let r = added(t, pid, index, x);
    if r.shell.id@ != x.shell.id@ {
        if t.shell.id@ == pid {
            let at = insert_at(t.children.len() as int, index);
            assert(r.children[at] == x);
            lemma_find_in_some(r.children, x.shell.id@, at);
        } else {
            let k = lemma_first_holding_index(t.children, pid);
            lemma_added_in(t.children, pid, index, x, k);
            assert(decreases_to!(t => t.children));
            assert(decreases_to!(t.children => t.children[k]));
            lemma_added_holds(t.children[k], pid, index, x);
            assert(r.children[k] == added(t.children[k], pid, index, x));
            lemma_find_in_some(r.children, x.shell.id@, k);
        }
    }
}

/// Once a node is added, the screen holds its id, so adding another node
/// with that id is refused.
pub proof fn added_node_is_held(doc: HmiDoc, parent: Option<String>, node: HmiNode, index: Option<usize>, after: HmiDoc)
    requires
        add_error(doc.root, parent, node) is None,
        tree(after.root) == added(tree(doc.root), parent_of(doc.root, parent), index, tree(node)),
    ensures
        holds(tree(after.root), node.id@),
        add_error(after.root, parent, node) == Some("id '"@ + node.id@ + "' already exists"@),
{
    let pid = parent_of(doc.root, parent);
    assert(tree(node).shell.id == node.id);
    lemma_added_holds(tree(doc.root), pid, index, tree(node));
}


/// Only groups have children, all the way down.
pub open spec fn wf_tree(t: Tree) -> bool
    decreases t, 1int,
{
    &&& (!is_group(t) ==> t.children.len() == 0)
    &&& wf_trees(t.children)
}

pub open spec fn wf_trees(ts: Seq<Tree>) -> bool
    decreases ts, 0int,
{
    ts.len() > 0 ==> wf_tree(ts[0]) && wf_trees(ts.drop_first())
}

proof fn lemma_wf_trees_at(ts: Seq<Tree>, j: int)
    requires
        wf_trees(ts),
        0 <= j < ts.len(),
    ensures
        wf_tree(ts[j]),
    decreases j,
{
    if j > 0 {
        assert(ts.drop_first()[j - 1] == ts[j]);
        lemma_wf_trees_at(ts.drop_first(), j - 1);
    }
}

proof fn lemma_wf_trees_all(ts: Seq<Tree>)
    requires
        forall|j: int| 0 <= j < ts.len() ==> wf_tree(#[trigger] ts[j]),
    ensures
        wf_trees(ts),
    decreases ts.len(),
{
    if ts.len() > 0 {
        assert forall|j: int| 0 <= j < ts.drop_first().len() implies wf_tree(#[trigger] ts.drop_first()[j]) by {
            assert(ts.drop_first()[j] == ts[j + 1]);
        }
        lemma_wf_trees_all(ts.drop_first());
    }
}

/// The tree of every node is well formed.
proof fn lemma_tree_wf(n: HmiNode)
    ensures
        wf_tree(tree(n)),
    decreases n, 1int,
{
    match n.kind {
        HmiNodeKind::Group { children, .. } => {
            lemma_trees_wf(children@);
        },
        _ => {
            assert(wf_trees(Seq::<Tree>::empty()));
        },
    }
}

proof fn lemma_trees_wf(ns: Seq<HmiNode>)
    ensures
        wf_trees(trees(ns)),
    decreases ns, 0int,
{
    lemma_trees(ns);
    assert forall|j: int| 0 <= j < trees(ns).len() implies wf_tree(#[trigger] trees(ns)[j]) by {
        assert(decreases_to!(ns => ns[j]));
        lemma_tree_wf(ns[j]);
    }
    lemma_wf_trees_all(trees(ns));
}

proof fn lemma_not_held(t: Tree, id: Seq<char>)
    requires
        !holds(t, id),
    ensures
        t.shell.id@ != id,
        forall|j: int| 0 <= j < t.children.len() ==> !holds(#[trigger] t.children[j], id),
{
    assert forall|j: int| 0 <= j < t.children.len() implies !holds(#[trigger] t.children[j], id) by {
        if holds(t.children[j], id) {
            lemma_find_in_some(t.children, id, j);
        }
    }
}

proof fn lemma_removed_held(t: Tree, id: Seq<char>)
    requires
        removed(t, id) is Some,
    ensures
        holds(t, id),
    decreases t, 1int,
{
    if t.shell.id@ != id {
        match child_pos(t.children, id) {
            Some(k) => {
                lemma_child_pos_at(t.children, id);
                lemma_find_in_some(t.children, id, k);
            },
            None => {
                let j = lemma_removed_in_index(t.children, id);
                assert(decreases_to!(t => t.children));
                assert(decreases_to!(t.children => t.children[j]));
                lemma_removed_held(t.children[j], id);
                lemma_find_in_some(t.children, id, j);
            },
        }
    }
}

proof fn lemma_child_pos_at(ts: Seq<Tree>, id: Seq<char>)
    ensures
        child_pos(ts, id) matches Some(k) ==> 0 <= k < ts.len() && ts[k].shell.id@ == id,
    decreases ts.len(),
{
    if ts.len() > 0 && ts[0].shell.id@ != id {
        lemma_child_pos_at(ts.drop_first(), id);
        if child_pos(ts.drop_first(), id) is Some {
            let k = child_pos(ts.drop_first(), id)->0;
            assert(ts.drop_first()[k] == ts[k + 1]);
        }
    }
}

proof fn lemma_removed_in_index(ts: Seq<Tree>, id: Seq<char>) -> (j: int)
    requires
        removed_in(ts, id) is Some,
    ensures
        0 <= j < ts.len(),
        removed(ts[j], id) is Some,
    decreases ts.len(),
{
    if removed(ts[0], id) is Some {
        0
    } else {
        let j = lemma_removed_in_index(ts.drop_first(), id);
        assert(ts.drop_first()[j] == ts[j + 1]);
        j + 1
    }
}

proof fn lemma_added_shell(t: Tree, pid: Seq<char>, index: Option<usize>, x: Tree)
    ensures
        added(t, pid, index, x).shell == t.shell,
{
}

proof fn lemma_undo_add(t: Tree, pid: Seq<char>, index: Option<usize>, x: Tree)
    requires
        wf_tree(t),
        find(t, pid) matches Some(p) && is_group(p),
        !holds(t, x.shell.id@),
    ensures
        removed(added(t, pid, index, x), x.shell.id@) == Some(t),
    decreases t, 1int,
{
    let xid = x.shell.id@;
    let r = added(t, pid, index, x);
    lemma_not_held(t, xid);
    if t.shell.id@ == pid {
        let at = insert_at(t.children.len() as int, index);
        assert(r.children == t.children.insert(at, x));
        assert forall|j: int| 0 <= j < at implies (#[trigger] r.children[j]).shell.id@ != xid by {
            assert(r.children[j] == t.children[j]);
            lemma_not_held(t.children[j], xid);
        }
        lemma_child_pos(r.children, xid, at);
        assert(r.children.remove(at) =~= t.children);
    } else {
        let k = lemma_first_holding_index(t.children, pid);
        lemma_added_in(t.children, pid, index, x, k);
        assert(r.children == t.children.update(k, added(t.children[k], pid, index, x)));
        assert(t.children.len() > 0);
        assert(is_group(r));
        assert forall|j: int| 0 <= j < r.children.len() implies (#[trigger] r.children[j]).shell.id@ != xid by {
            if j == k {
                lemma_added_shell(t.children[k], pid, index, x);
            }
            lemma_not_held(t.children[j], xid);
        }
        lemma_child_pos(r.children, xid, r.children.len() as int);
        assert forall|j: int| 0 <= j < k implies removed(#[trigger] r.children[j], xid) is None by {
            assert(r.children[j] == t.children[j]);
            lemma_not_held(t, xid);
            if removed(t.children[j], xid) is Some {
                lemma_removed_held(t.children[j], xid);
            }
        }
        assert(decreases_to!(t => t.children));
        assert(decreases_to!(t.children => t.children[k]));
        lemma_wf_trees_at(t.children, k);
        lemma_first_holding(t.children, pid, k);
        lemma_undo_add(t.children[k], pid, index, x);
        lemma_removed_in(r.children, xid, k);
        assert(r.children.update(k, t.children[k]) =~= t.children);
    }
}

/// A node just added is removed again by its id, and the screen is then
/// as it was before the addition.
pub proof fn remove_undoes_add(
    doc: HmiDoc,
    parent: Option<String>,
    node: HmiNode,
    index: Option<usize>,
    after: HmiDoc,
)
    requires
        add_error(doc.root, parent, node) is None,
        tree(after.root) == added(tree(doc.root), parent_of(doc.root, parent), index, tree(node)),
    ensures
        remove_error(after.root, node.id@) is None,
        removed(tree(after.root), node.id@) == Some(tree(doc.root)),
{
    lemma_tree_wf(doc.root);
    assert(tree(node).shell.id == node.id);
    lemma_not_held(tree(doc.root), node.id@);
    lemma_added_shell(tree(doc.root), parent_of(doc.root, parent), index, tree(node));
    assert(tree(after.root).shell.id == after.root.id);
    assert(tree(doc.root).shell.id == doc.root.id);
    lemma_undo_add(tree(doc.root), parent_of(doc.root, parent), index, tree(node));
}

// ----- Ids stay distinct -----

/// The ids of a tree in pre-order.
pub open spec fn tree_ids(t: Tree) -> Seq<Seq<char>>
    decreases t, 1int,
{
    seq![t.shell.id@] + forest_ids(t.children)
}

pub open spec fn forest_ids(ts: Seq<Tree>) -> Seq<Seq<char>>
    decreases ts, 0int,
{
    if ts.len() == 0 {
        Seq::empty()
    } else {
        tree_ids(ts[0]) + forest_ids(ts.drop_first())
    }
}

proof fn lemma_contains_concat(a: Seq<Seq<char>>, b: Seq<Seq<char>>, x: Seq<char>)
    ensures
        (a + b).contains(x) <==> a.contains(x) || b.contains(x),
{
    if a.contains(x) {
        let i = choose|i: int| 0 <= i < a.len() && a[i] == x;
        assert((a + b)[i] == x);
    }
    if b.contains(x) {
        let i = choose|i: int| 0 <= i < b.len() && b[i] == x;
        assert((a + b)[a.len() + i] == x);
    }
    if (a + b).contains(x) {
        let i = choose|i: int| 0 <= i < (a + b).len() && (a + b)[i] == x;
        if i < a.len() {
            assert(a[i] == x);
        } else {
            assert(b[i - a.len()] == x);
        }
    }
}

proof fn lemma_holds_ids(t: Tree, id: Seq<char>)
    ensures
        find(t, id) is Some <==> tree_ids(t).contains(id),
    decreases t, 1int,
{
    lemma_find_in_ids(t.children, id);
    lemma_contains_concat(seq![t.shell.id@], forest_ids(t.children), id);
    assert(seq![t.shell.id@].contains(id) <==> t.shell.id@ == id) by {
        if seq![t.shell.id@].contains(id) {
            assert(seq![t.shell.id@][0] == t.shell.id@);
        }
        if t.shell.id@ == id {
            assert(seq![t.shell.id@][0] == id);
        }
    }
}

proof fn lemma_find_in_ids(ts: Seq<Tree>, id: Seq<char>)
    ensures
        find_in(ts, id) is Some <==> forest_ids(ts).contains(id),
    decreases ts, 0int,
{
    if ts.len() > 0 {
        lemma_holds_ids(ts[0], id);
        lemma_find_in_ids(ts.drop_first(), id);
        lemma_contains_concat(tree_ids(ts[0]), forest_ids(ts.drop_first()), id);
    }
}

proof fn lemma_forest_concat(a: Seq<Tree>, b: Seq<Tree>)
    ensures
        forest_ids(a + b) == forest_ids(a) + forest_ids(b),
    decreases a.len(),
{
    if a.len() == 0 {
        assert(a + b =~= b);
        assert(forest_ids(a) + forest_ids(b) =~= forest_ids(b));
    } else {
        assert((a + b)[0] == a[0]);
        assert((a + b).drop_first() =~= a.drop_first() + b);
        lemma_forest_concat(a.drop_first(), b);
        assert(forest_ids(a + b) =~= forest_ids(a) + forest_ids(b));
    }
}

proof fn lemma_forest_single(x: Tree)
    ensures
        forest_ids(seq![x]) == tree_ids(x),
{
    assert(seq![x].drop_first() =~= Seq::<Tree>::empty());
    assert(seq![x][0] == x);
    assert(forest_ids(Seq::<Tree>::empty()) == Seq::<Seq<char>>::empty());
    assert(forest_ids(seq![x]) == tree_ids(x) + forest_ids(seq![x].drop_first()));
    assert(tree_ids(x) + Seq::<Seq<char>>::empty() =~= tree_ids(x));
}

proof fn lemma_ids_concat(a: Seq<HmiNode>, b: Seq<HmiNode>)
    ensures
        ids_of(a + b) == ids_of(a) + ids_of(b),
{
    assert(ids_of(a + b) =~= ids_of(a) + ids_of(b));
}

proof fn lemma_tree_ids_node(n: HmiNode)
    ensures
        tree_ids(tree(n)) == ids_of(preorder(n)),
    decreases n, 1int,
{
    lemma_ids_concat(seq![n], preorder_rest(n));
    assert(ids_of(seq![n]) =~= seq![n.id@]);
    match n.kind {
        HmiNodeKind::Group { children, .. } => {
            lemma_tree_ids_nodes(children@);
        },
        _ => {
            assert(forest_ids(Seq::<Tree>::empty()) =~= Seq::<Seq<char>>::empty());
            assert(ids_of(Seq::<HmiNode>::empty()) =~= Seq::<Seq<char>>::empty());
        },
    }
    assert(preorder(n) == seq![n] + preorder_rest(n));
}

/// The part of a node's pre-order after the node itself.
pub open spec fn preorder_rest(n: HmiNode) -> Seq<HmiNode> {
    match n.kind {
        HmiNodeKind::Group { children, .. } => preorder_all(children@),
        _ => Seq::empty(),
    }
}

proof fn lemma_tree_ids_nodes(ns: Seq<HmiNode>)
    ensures
        forest_ids(trees(ns)) == ids_of(preorder_all(ns)),
    decreases ns, 0int,
{
    if ns.len() == 0 {
        assert(ids_of(preorder_all(ns)) =~= Seq::<Seq<char>>::empty());
    } else {
        lemma_tree_ids_nodes(ns.drop_last());
        lemma_tree_ids_node(ns.last());
        lemma_forest_concat(trees(ns.drop_last()), seq![tree(ns.last())]);
        lemma_forest_single(tree(ns.last()));
        assert(trees(ns) =~= trees(ns.drop_last()) + seq![tree(ns.last())]);
        lemma_ids_concat(preorder_all(ns.drop_last()), preorder(ns.last()));
    }
}

proof fn lemma_insert_ids(cs: Seq<Tree>, i: int, x: Tree)
    requires
        0 <= i <= cs.len(),
    ensures
        forest_ids(cs.insert(i, x)).to_multiset() == forest_ids(cs).to_multiset().add(
            tree_ids(x).to_multiset(),
        ),
{
    broadcast use vstd::seq_lib::lemma_multiset_commutative;

    let a = cs.take(i);
    let b = cs.skip(i);
    assert(cs.insert(i, x) =~= a + (seq![x] + b));
    assert(cs =~= a + b);
    lemma_forest_concat(a, seq![x] + b);
    lemma_forest_concat(seq![x], b);
    lemma_forest_single(x);
    lemma_forest_concat(a, b);
    let fa = forest_ids(a);
    let fb = forest_ids(b);
    let tx = tree_ids(x);
    assert(forest_ids(cs.insert(i, x)) == fa + (tx + fb));
    assert(forest_ids(cs) == fa + fb);
    assert((fa + (tx + fb)).to_multiset() =~= fa.to_multiset().add(tx.to_multiset().add(
        fb.to_multiset(),
    )));
    assert((fa + fb).to_multiset() =~= fa.to_multiset().add(fb.to_multiset()));
    assert(fa.to_multiset().add(tx.to_multiset().add(fb.to_multiset())) =~= fa.to_multiset().add(
        fb.to_multiset(),
    ).add(tx.to_multiset()));
}

proof fn lemma_added_ids(t: Tree, pid: Seq<char>, index: Option<usize>, x: Tree)
    requires
        find(t, pid) is Some,
    ensures
        tree_ids(added(t, pid, index, x)).to_multiset() == tree_ids(t).to_multiset().add(
            tree_ids(x).to_multiset(),
        ),
    decreases t, 1int,
{
    broadcast use vstd::seq_lib::lemma_multiset_commutative;

    let head = seq![t.shell.id@];
    let r = added(t, pid, index, x);
    assert(r.shell == t.shell);
    if t.shell.id@ == pid {
        let i = insert_at(t.children.len() as int, index);
        lemma_insert_ids(t.children, i, x);
        assert(r.children == t.children.insert(i, x));
    } else {
        lemma_added_in_ids(t.children, pid, index, x);
    }
    assert(tree_ids(r) == head + forest_ids(r.children));
    assert(tree_ids(t) == head + forest_ids(t.children));
    assert((head + forest_ids(r.children)).to_multiset() =~= head.to_multiset().add(
        forest_ids(r.children).to_multiset(),
    ));
    assert((head + forest_ids(t.children)).to_multiset() =~= head.to_multiset().add(
        forest_ids(t.children).to_multiset(),
    ));
    assert(head.to_multiset().add(forest_ids(t.children).to_multiset().add(tree_ids(x).to_multiset()))
        =~= head.to_multiset().add(forest_ids(t.children).to_multiset()).add(
        tree_ids(x).to_multiset(),
    ));
}

proof fn lemma_added_in_ids(ts: Seq<Tree>, pid: Seq<char>, index: Option<usize>, x: Tree)
    requires
        find_in(ts, pid) is Some,
    ensures
        forest_ids(added_in(ts, pid, index, x)).to_multiset() == forest_ids(ts).to_multiset().add(
            tree_ids(x).to_multiset(),
        ),
    decreases ts, 0int,
{
    broadcast use vstd::seq_lib::lemma_multiset_commutative;

    let r = added_in(ts, pid, index, x);
    let rest = forest_ids(ts.drop_first());
    let tx = tree_ids(x).to_multiset();
    if holds(ts[0], pid) {
        lemma_added_ids(ts[0], pid, index, x);
        assert(r[0] == added(ts[0], pid, index, x));
        assert(r.drop_first() =~= ts.drop_first());
        let a = tree_ids(ts[0]);
        let a2 = tree_ids(added(ts[0], pid, index, x));
        assert(forest_ids(r) == a2 + rest);
        assert((a2 + rest).to_multiset() =~= a2.to_multiset().add(rest.to_multiset()));
        assert((a + rest).to_multiset() =~= a.to_multiset().add(rest.to_multiset()));
        assert(a.to_multiset().add(tx).add(rest.to_multiset()) =~= a.to_multiset().add(
            rest.to_multiset(),
        ).add(tx));
    } else {
        assert(find_in(ts.drop_first(), pid) is Some);
        lemma_added_in_ids(ts.drop_first(), pid, index, x);
        let r2 = added_in(ts.drop_first(), pid, index, x);
        assert(r =~= seq![ts[0]] + r2);
        assert(r[0] == ts[0]);
        assert(r.drop_first() =~= r2);
        let a = tree_ids(ts[0]);
        assert(forest_ids(r) == a + forest_ids(r2));
        assert((a + forest_ids(r2)).to_multiset() =~= a.to_multiset().add(forest_ids(r2).to_multiset()));
        assert((a + rest).to_multiset() =~= a.to_multiset().add(rest.to_multiset()));
        assert(a.to_multiset().add(rest.to_multiset().add(tx)) =~= a.to_multiset().add(
            rest.to_multiset(),
        ).add(tx));
    }
}

proof fn lemma_no_taken(ids: Seq<Seq<char>>, own: Seq<char>, root: Tree)
    requires
        taken_descendant(ids, own, root) is None,
    ensures
        forall|j: int| 0 <= j < ids.len() ==> #[trigger] ids[j] == own || !holds(root, ids[j]),
    decreases ids.len(),
{
    if ids.len() > 0 {
        lemma_no_taken(ids.drop_first(), own, root);
        assert forall|j: int| 0 <= j < ids.len() implies #[trigger] ids[j] == own || !holds(
            root,
            ids[j],
        ) by {
            if j > 0 {
                assert(ids[j] == ids.drop_first()[j - 1]);
            }
        }
    }
}

/// Adding a node keeps the screen's ids distinct: when the screen's ids
/// and the new subtree's ids are each distinct and the add succeeds, the
/// screen afterwards holds exactly both, each once.
pub proof fn add_keeps_ids_distinct(
    doc: HmiDoc,
    parent: Option<String>,
    node: HmiNode,
    index: Option<usize>,
    after: HmiDoc,
)
    requires
        ids_of(preorder(doc.root)).no_duplicates(),
        ids_of(preorder(node)).no_duplicates(),
        add_error(doc.root, parent, node) is None,
        tree(after.root) == added(tree(doc.root), parent_of(doc.root, parent), index, tree(node)),
    ensures
        ids_of(preorder(after.root)).no_duplicates(),
        ids_of(preorder(after.root)).to_multiset() == ids_of(preorder(doc.root)).to_multiset().add(
            ids_of(preorder(node)).to_multiset(),
        ),
{
    broadcast use vstd::seq_lib::group_to_multiset_ensures;

    let t = tree(doc.root);
    let pid = parent_of(doc.root, parent);
    let a = ids_of(preorder(doc.root));
    let b = ids_of(preorder(node));
    let c = ids_of(preorder(after.root));
    lemma_tree_ids_node(doc.root);
    lemma_tree_ids_node(node);
    lemma_tree_ids_node(after.root);
    lemma_added_ids(t, pid, index, tree(node));
    assert(c.to_multiset() == a.to_multiset().add(b.to_multiset()));
    lemma_no_taken(b, node.id@, t);
    assert forall|x: Seq<char>| b.contains(x) implies !a.contains(x) by {
        let j = choose|j: int| 0 <= j < b.len() && b[j] == x;
        lemma_holds_ids(t, x);
        lemma_holds_ids(t, node.id@);
    }
    a.lemma_multiset_has_no_duplicates();
    b.lemma_multiset_has_no_duplicates();
    assert forall|x: Seq<char>| c.to_multiset().contains(x) implies c.to_multiset().count(x) == 1 by {
        if a.contains(x) {
            assert(!b.contains(x));
        }
    }
    c.lemma_multiset_has_no_duplicates_conv();
}

} // verus!
