//! What the OPC UA adapter decides on plain values: the names and channel
//! types of the standard scalar data types, the order browsed nodes are
//! shown in, the tags written on failsafe, and the poll period. Node ids
//! reach this module as their namespace and numeric identifier.
use vstd::prelude::*;

use crate::store::{insert_by_key, sort_by_key};
use crate::text::seq_lt;
use crate::types::{OpcuaAccess, OpcuaChannel, OpcuaDataType};

verus! {

/// Shortest poll period of the tag mirror.
pub const MIN_POLL_MS: u32 = 50;

/// One node under a browsed parent.
#[derive(Debug, Clone)]
pub struct BrowsedNode {
    /// Full node id, as a channel's `node_id` takes it.
    pub node_id: String,
    pub display_name: String,
    /// `Object`, `Variable`, `Method`, ...
    pub node_class: String,
    /// For a variable of a standard scalar type, the type's name.
    pub data_type: Option<String>,
    /// The channel type closest to that data type.
    pub suggested_channel_type: Option<OpcuaDataType>,
}

/// The standard scalar data types of namespace 0 by numeric id: display
/// name and the closest channel type.
pub open spec fn ua_type(namespace: u16, numeric: Option<u32>) -> (Option<Seq<char>>, Option<OpcuaDataType>) {
    if namespace != 0 {
        (None, None)
    } else {
        match numeric {
            Some(1) => (Some("Boolean"@), Some(OpcuaDataType::Bool)),
            Some(2) => (Some("SByte"@), Some(OpcuaDataType::I16)),
            Some(3) => (Some("Byte"@), Some(OpcuaDataType::U16)),
            Some(4) => (Some("Int16"@), Some(OpcuaDataType::I16)),
            Some(5) => (Some("UInt16"@), Some(OpcuaDataType::U16)),
            Some(6) => (Some("Int32"@), Some(OpcuaDataType::I32)),
            Some(7) => (Some("UInt32"@), Some(OpcuaDataType::U32)),
            Some(8) => (Some("Int64"@), Some(OpcuaDataType::I32)),
            Some(9) => (Some("UInt64"@), Some(OpcuaDataType::U32)),
            Some(10) => (Some("Float"@), Some(OpcuaDataType::F32)),
            Some(11) => (Some("Double"@), Some(OpcuaDataType::F64)),
            Some(12) => (Some("String"@), None),
            _ => (None, None),
        }
    }
}

fn named(s: &str, t: Option<OpcuaDataType>) -> (r: (Option<String>, Option<OpcuaDataType>))
    ensures
        r.0 matches Some(n) && n@ == s@,
        r.1 == t,
{
    (Some(s.to_string()), t)
}

/// The name and channel type of a data type node, given its namespace and
/// numeric identifier (`None` for a non-numeric identifier).
pub fn ua_type_name(namespace: u16, numeric: Option<u32>) -> (r: (Option<String>, Option<OpcuaDataType>))
    ensures
        r.1 == ua_type(namespace, numeric).1,
        match r.0 {
            Some(n) => ua_type(namespace, numeric).0 == Some(n@),
            None => ua_type(namespace, numeric).0 is None,
        },
{
    if namespace != 0 {
        return (None, None);
    }
    match numeric {
        Some(1) => named("Boolean", Some(OpcuaDataType::Bool)),
        Some(2) => named("SByte", Some(OpcuaDataType::I16)),
        Some(3) => named("Byte", Some(OpcuaDataType::U16)),
        Some(4) => named("Int16", Some(OpcuaDataType::I16)),
        Some(5) => named("UInt16", Some(OpcuaDataType::U16)),
        Some(6) => named("Int32", Some(OpcuaDataType::I32)),
        Some(7) => named("UInt32", Some(OpcuaDataType::U32)),
        Some(8) => named("Int64", Some(OpcuaDataType::I32)),
        Some(9) => named("UInt64", Some(OpcuaDataType::U32)),
        Some(10) => named("Float", Some(OpcuaDataType::F32)),
        Some(11) => named("Double", Some(OpcuaDataType::F64)),
        Some(12) => named("String", None),
        _ => (None, None),
    }
}

/// Where a node class sorts: objects, then variables, then the rest.
pub open spec fn class_rank(node_class: Seq<char>) -> char {
    if node_class == "Object"@ {
        '0'
    } else if node_class == "Variable"@ {
        '1'
    } else {
        '2'
    }
}

/// The sort key of a browsed node: its class rank, then its display name.
pub open spec fn browse_key() -> spec_fn(BrowsedNode) -> Seq<char> {
    |n: BrowsedNode| seq![class_rank(n.node_class@)] + n.display_name@
}

fn rank_of(node_class: &String) -> (c: char)
    ensures
        c == class_rank(node_class@),
{
    if *node_class == "Object".to_string() {
        '0'
    } else if *node_class == "Variable".to_string() {
        '1'
    } else {
        '2'
    }
}

/// Whether `a` sorts strictly before `b` by class rank, then by name.
fn browse_lt(a: &BrowsedNode, b: &BrowsedNode) -> (r: bool)
    ensures
        r == seq_lt(browse_key()(*a), browse_key()(*b)),
{
    let ra = rank_of(&a.node_class);
    let rb = rank_of(&b.node_class);
    let ghost ka = browse_key()(*a);
    let ghost kb = browse_key()(*b);
    assert(ka[0] == ra && ka.drop_first() =~= a.display_name@);
    assert(kb[0] == rb && kb.drop_first() =~= b.display_name@);
    if ra == rb {
        crate::text::str_lt(a.display_name.as_str(), b.display_name.as_str())
    } else {
        (ra as u32) < (rb as u32)
    }
}

fn insert_browsed(v: &mut Vec<BrowsedNode>, a: BrowsedNode)
    ensures
        final(v)@ == insert_by_key(old(v)@, a, browse_key()),
{
    let ghost old_v = v@;
    let mut i: usize = 0;
    assert(old_v.skip(0) =~= old_v);
    assert(old_v.take(0) + insert_by_key(old_v, a, browse_key()) =~= insert_by_key(
        old_v,
        a,
        browse_key(),
    ));
    while i < v.len()
        invariant
            i <= v.len(),
            v@ == old_v,
            old_v == old(v)@,
            insert_by_key(old_v, a, browse_key()) == old_v.take(i as int) + insert_by_key(
                old_v.skip(i as int),
                a,
                browse_key(),
            ),
        decreases v.len() - i,
    {
        let ghost rest = old_v.skip(i as int);
        assert(rest[0] == v@[i as int]);
        if browse_lt(&a, &v[i]) {
            v.insert(i, a);
            proof {
                assert(v@ =~= old_v.take(i as int) + (seq![a] + rest));
            }
            return;
        }
        assert(rest.drop_first() =~= old_v.skip(i + 1));
        assert(old_v.take(i as int) + (seq![rest[0]] + insert_by_key(rest.drop_first(), a, browse_key()))
            =~= old_v.take(i + 1) + insert_by_key(old_v.skip(i + 1), a, browse_key()));
        i = i + 1;
    }
    v.push(a);
    proof {
        assert(old_v.skip(i as int) =~= Seq::<BrowsedNode>::empty());
        assert(v@ =~= old_v.take(i as int) + seq![a]);
    }
}

/// Browsed nodes in the order a tree shows them: objects, then variables,
/// then the rest, each group by display name; ties keep their order.
pub fn sort_browsed(nodes: Vec<BrowsedNode>) -> (r: Vec<BrowsedNode>)
    ensures
        r@ == sort_by_key(nodes@, browse_key()),
{
    let ghost all = nodes@;
    let mut nodes = nodes;
    let n = nodes.len();
    let mut out: Vec<BrowsedNode> = Vec::new();
    let mut i: usize = 0;
    assert(out@ =~= sort_by_key(all.take(0), browse_key()));
    while nodes.len() > 0
        invariant
            i + nodes@.len() == n,
            n == all.len(),
            nodes@ == all.skip(i as int),
            out@ == sort_by_key(all.take(i as int), browse_key()),
        decreases nodes@.len(),
    {
        let ghost before = nodes@;
        let x = nodes.remove(0);
        assert(nodes@ =~= all.skip(i + 1));
        assert(x == all[i as int]);
        assert(all.take(i + 1).drop_last() =~= all.take(i as int));
        assert(all.take(i + 1).last() == all[i as int]);
        insert_browsed(&mut out, x);
        i = i + 1;
    }
    assert(all.take(n as int) =~= all);
    out
}

/// The positions of the channels written on failsafe: writable ones with
/// a failsafe value, in declaration order. The others keep whatever the
/// system below decides.
pub fn failsafe_targets(channels: &Vec<OpcuaChannel>) -> (r: Vec<usize>)
    ensures
        forall|k: int| 0 <= k < r@.len() ==> r@[k] < channels@.len(),
        forall|k: int, l: int| 0 <= k < l < r@.len() ==> r@[k] < r@[l],
        forall|i: int|
            0 <= i < channels@.len() ==> (r@.contains(i as usize) <==> (channels@[i].access
                == OpcuaAccess::Write && channels@[i].failsafe_bits is Some)),
{
    let mut out: Vec<usize> = Vec::new();
    let mut i: usize = 0;
    while i < channels.len()
        invariant
            i <= channels@.len(),
            forall|k: int| 0 <= k < out@.len() ==> out@[k] < i,
            forall|k: int, l: int| 0 <= k < l < out@.len() ==> out@[k] < out@[l],
            forall|j: int|
                0 <= j < i ==> (out@.contains(j as usize) <==> (channels@[j].access == OpcuaAccess::Write
                    && channels@[j].failsafe_bits is Some)),
        decreases channels@.len() - i,
    {
        let c = &channels[i];
        let ghost before = out@;
        if c.access == OpcuaAccess::Write && c.failsafe_bits.is_some() {
            out.push(i);
            assert(out@[out@.len() - 1] == i);
        }
        assert forall|j: int| 0 <= j < i + 1 implies (out@.contains(j as usize) <==> (
        channels@[j].access == OpcuaAccess::Write && channels@[j].failsafe_bits is Some)) by {
            if j < i {
                if out@.contains(j as usize) {
                    let k = choose|k: int| 0 <= k < out@.len() && out@[k] == j as usize;
                    if k < before.len() {
                        assert(before[k] == j as usize);
                    }
                }
                if before.contains(j as usize) {
                    let k = choose|k: int| 0 <= k < before.len() && before[k] == j as usize;
                    assert(out@[k] == j as usize);
                }
            } else {
                if out@.contains(j as usize) {
                    let k = choose|k: int| 0 <= k < out@.len() && out@[k] == j as usize;
                    if k < before.len() {
                        assert(before[k] < i);
                    }
                }
            }
        }
        i = i + 1;
    }
    out
}

/// The mirror's poll period: the configured one, at least 50 ms.
pub fn poll_period_ms(configured: u32) -> (r: u32)
    ensures
        r == (if configured < MIN_POLL_MS {
            MIN_POLL_MS
        } else {
            configured
        }),
{
    if configured < MIN_POLL_MS {
        MIN_POLL_MS
    } else {
        configured
    }
}

/// Whether a channel takes writes from the scan loop.
pub fn accepts_writes(c: &OpcuaChannel) -> (r: bool)
    ensures
        r == (c.access == OpcuaAccess::Write),
{
    c.access == OpcuaAccess::Write
}

} // verus!
