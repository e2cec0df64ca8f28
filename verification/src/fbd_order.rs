//! Execution order of FBD blocks. A block runs after every block it reads
//! a wire from; the order is the one Kahn's algorithm gives with a FIFO
//! queue, seeded with the unwired blocks in authoring order and fed, after
//! each block runs, with the readers that block made ready, in authoring
//! order.
use vstd::prelude::*;
use vstd::set_lib::*;

use std::collections::VecDeque;

use crate::errors::BridgeError;
use crate::fbd::{FbdBlock, FbdInputBinding, FbdInputSource};
use crate::text::{
    first_index, first_some, index_of_string, join, join_strings, lemma_first_index_bounds,
    lemma_first_some_at, lemma_first_some_none, lemma_first_some_step, views,
};

verus! {

/// The `id` of every block, in order.
pub open spec fn block_ids(bs: Seq<FbdBlock>) -> Seq<Seq<char>> {
    bs.map_values(|b: FbdBlock| b.id@)
}

/// The position of the block an input pin is wired from, if it is wired
/// to a block that exists.
pub open spec fn src_of(ids: Seq<Seq<char>>, inp: FbdInputBinding) -> Option<int> {
    match inp.value {
        FbdInputSource::Block { block_id, pin } => first_index(ids, block_id@),
        _ => None,
    }
}

/// The positions the given pins read from, one entry per wired pin.
pub open spec fn sources_of(ids: Seq<Seq<char>>, ins: Seq<FbdInputBinding>) -> Seq<int>
    decreases ins.len(),
{
    if ins.len() == 0 {
        Seq::empty()
    } else {
        sources_of(ids, ins.drop_last()) + match src_of(ids, ins.last()) {
            Some(w) => seq![w],
            None => Seq::<int>::empty(),
        }
    }
}

/// The blocks that block `x` reads from.
pub open spec fn sources(bs: Seq<FbdBlock>, x: int) -> Seq<int> {
    sources_of(block_ids(bs), bs[x].inputs@)
}

/// Block `x` may run once every block it reads from is in `done`.
pub open spec fn ready(bs: Seq<FbdBlock>, x: int, done: Seq<int>) -> bool {
    forall|k: int| 0 <= k < sources(bs, x).len() ==> done.contains(#[trigger] sources(bs, x)[k])
}

/// The integers `0 <= v < k` that satisfy `p`, ascending.
pub open spec fn filter_upto(k: int, p: spec_fn(int) -> bool) -> Seq<int>
    decreases k,
{
    if k <= 0 {
        Seq::empty()
    } else {
        filter_upto(k - 1, p) + if p(k - 1) {
            seq![k - 1]
        } else {
            Seq::<int>::empty()
        }
    }
}

pub open spec fn ready_pred(bs: Seq<FbdBlock>, done: Seq<int>) -> spec_fn(int) -> bool {
    |v: int| ready(bs, v, done)
}

/// Readers of `u` that are ready once `done` has run.
pub open spec fn released_pred(bs: Seq<FbdBlock>, u: int, done: Seq<int>) -> spec_fn(int) -> bool {
    |v: int| sources(bs, v).contains(u) && ready(bs, v, done)
}

pub open spec fn initially_ready(bs: Seq<FbdBlock>) -> Seq<int> {
    filter_upto(bs.len() as int, ready_pred(bs, Seq::empty()))
}

pub open spec fn newly_ready(bs: Seq<FbdBlock>, u: int, done: Seq<int>) -> Seq<int> {
    filter_upto(bs.len() as int, released_pred(bs, u, done))
}

/// Runs the queue for at most `fuel` steps: take the front block, append
/// it to the order, enqueue the readers it released.
pub open spec fn kahn(bs: Seq<FbdBlock>, queue: Seq<int>, order: Seq<int>, fuel: nat) -> Seq<int>
    decreases fuel,
{
    if fuel == 0 || queue.len() == 0 {
        order
    } else {
        let u = queue[0];
        let done = order.push(u);
        kahn(bs, queue.drop_first() + newly_ready(bs, u, done), done, (fuel - 1) as nat)
    }
}

/// The execution order of the blocks; shorter than `bs` when the wires
/// form a cycle.
pub open spec fn topo_order(bs: Seq<FbdBlock>) -> Seq<int> {
    kahn(bs, initially_ready(bs), Seq::empty(), bs.len())
}

pub open spec fn in_range(s: Seq<int>, n: int) -> bool {
    forall|i: int| 0 <= i < s.len() ==> 0 <= #[trigger] s[i] < n
}

/// Every block of `order` comes after all the blocks it reads from.
pub open spec fn respects(bs: Seq<FbdBlock>, order: Seq<int>) -> bool {
    forall|p: int| 0 <= p < order.len() ==> ready(bs, #[trigger] order[p], order.take(p))
}

/// `t` lists every block exactly once, each after the blocks it reads from.
pub open spec fn is_topological(bs: Seq<FbdBlock>, t: Seq<int>) -> bool {
    &&& t.len() == bs.len()
    &&& t.no_duplicates()
    &&& in_range(t, bs.len() as int)
    &&& respects(bs, t)
}

/// Blocks that never ran, in authoring order.
pub open spec fn not_in_pred(order: Seq<int>) -> spec_fn(int) -> bool {
    |x: int| !order.contains(x)
}

pub open spec fn kahn_inv(bs: Seq<FbdBlock>, queue: Seq<int>, order: Seq<int>) -> bool {
    &&& (order + queue).no_duplicates()
    &&& in_range(order + queue, bs.len() as int)
    &&& forall|i: int| 0 <= i < queue.len() ==> ready(bs, #[trigger] queue[i], order)
    &&& respects(bs, order)
    &&& forall|x: int|
        #![trigger ready(bs, x, order)]
        0 <= x < bs.len() && ready(bs, x, order) ==> (order + queue).contains(x)
}

pub proof fn lemma_filter_upto(k: int, p: spec_fn(int) -> bool)
    requires
        k >= 0,
    ensures
        forall|v: int| #[trigger] filter_upto(k, p).contains(v) <==> (0 <= v < k && p(v)),
        filter_upto(k, p).no_duplicates(),
        in_range(filter_upto(k, p), k),
    decreases k,
{
    if k > 0 {
        lemma_filter_upto(k - 1, p);
        let prev = filter_upto(k - 1, p);
        let tail = if p(k - 1) {
            seq![k - 1]
        } else {
            Seq::<int>::empty()
        };
        assert(filter_upto(k, p) == prev + tail);
        assert forall|v: int| #[trigger] filter_upto(k, p).contains(v) <==> (0 <= v < k && p(v)) by {
            if filter_upto(k, p).contains(v) {
                let i = choose|i: int| 0 <= i < filter_upto(k, p).len() && filter_upto(k, p)[i] == v;
                if i < prev.len() {
                    assert(prev[i] == v);
                    assert(prev.contains(v));
                }
            }
            if 0 <= v < k && p(v) {
                if v < k - 1 {
                    assert(prev.contains(v));
                    let i = choose|i: int| 0 <= i < prev.len() && prev[i] == v;
                    assert(filter_upto(k, p)[i] == v);
                } else {
                    assert(filter_upto(k, p)[prev.len() as int] == v);
                }
            }
        }
        assert forall|i: int, j: int|
            0 <= i < tail.len() && 0 <= j < prev.len() implies tail[i] != prev[j] by {
            assert(0 <= prev[j] < k - 1);
        }
        vstd::seq_lib::lemma_no_dup_in_concat(prev, tail);
    }
}

/// `ready` only grows with the set of blocks that ran.
pub proof fn lemma_ready_mono(bs: Seq<FbdBlock>, x: int, a: Seq<int>, b: Seq<int>)
    requires
        ready(bs, x, a),
        forall|y: int| a.contains(y) ==> b.contains(y),
    ensures
        ready(bs, x, b),
{
    assert forall|k: int| 0 <= k < sources(bs, x).len() implies b.contains(
        #[trigger] sources(bs, x)[k],
    ) by {
        assert(a.contains(sources(bs, x)[k]));
    }
}

/// A ready reader of `u` has `u` among the blocks that ran.
pub proof fn lemma_ready_has_source(bs: Seq<FbdBlock>, x: int, u: int, done: Seq<int>)
    requires
        ready(bs, x, done),
        sources(bs, x).contains(u),
    ensures
        done.contains(u),
{
    let k = choose|k: int| 0 <= k < sources(bs, x).len() && sources(bs, x)[k] == u;
    assert(done.contains(sources(bs, x)[k]));
}

/// Distinct integers below `n` number at most `n`.
pub proof fn lemma_distinct_bound(s: Seq<int>, n: int)
    requires
        s.no_duplicates(),
        in_range(s, n),
        n >= 0,
    ensures
        s.len() <= n,
{
    s.unique_seq_to_set();
    lemma_int_range(0, n);
    assert(s.to_set().subset_of(set_int_range(0, n))) by {
        assert forall|v: int| s.to_set().contains(v) implies set_int_range(0, n).contains(v) by {
            let i = choose|i: int| 0 <= i < s.len() && s[i] == v;
            assert(0 <= s[i] < n);
        }
    }
    lemma_len_subset(s.to_set(), set_int_range(0, n));
}

pub proof fn lemma_kahn_init(bs: Seq<FbdBlock>)
    ensures
        kahn_inv(bs, initially_ready(bs), Seq::empty()),
{
    let n = bs.len() as int;
    let q = initially_ready(bs);
    let e = Seq::<int>::empty();
    lemma_filter_upto(n, ready_pred(bs, e));
    assert(e + q =~= q);
    assert forall|i: int| 0 <= i < q.len() implies ready(bs, #[trigger] q[i], e) by {
        assert(q.contains(q[i]));
        assert((ready_pred(bs, e))(q[i]));
    }
    assert forall|x: int| 0 <= x < n && ready(bs, x, e) implies (e + q).contains(x) by {
        assert((ready_pred(bs, e))(x));
        assert(q.contains(x));
    }
}

pub proof fn lemma_kahn_step(bs: Seq<FbdBlock>, queue: Seq<int>, order: Seq<int>)
    requires
        kahn_inv(bs, queue, order),
        queue.len() > 0,
    ensures
        kahn_inv(
            bs,
            queue.drop_first() + newly_ready(bs, queue[0], order.push(queue[0])),
            order.push(queue[0]),
        ),
        order.push(queue[0]) + (queue.drop_first() + newly_ready(
            bs,
            queue[0],
            order.push(queue[0]),
        )) == (order + queue) + newly_ready(bs, queue[0], order.push(queue[0])),
{
    let n = bs.len() as int;
    let u = queue[0];
    let done = order.push(u);
    let nr = newly_ready(bs, u, done);
    let q2 = queue.drop_first() + nr;
    let seen = order + queue;
    assert(done + q2 =~= seen + nr);
    lemma_filter_upto(n, released_pred(bs, u, done));
    assert(seen[order.len() as int] == u);
    assert(!order.contains(u)) by {
        if order.contains(u) {
            let p = choose|p: int| 0 <= p < order.len() && order[p] == u;
            assert(seen[p] == seen[order.len() as int]);
        }
    }
    // Nothing released was seen before: it reads from `u`, which had not run.
    assert forall|i: int, j: int| 0 <= i < seen.len() && 0 <= j < nr.len() implies seen[i]
        != nr[j] by {
        let v = nr[j];
        assert(nr.contains(v));
        assert((released_pred(bs, u, done))(v));
        if seen[i] == v {
            if i < order.len() {
                assert(ready(bs, order[i], order.take(i)));
                lemma_ready_has_source(bs, v, u, order.take(i));
                let p = choose|p: int| 0 <= p < order.take(i).len() && order.take(i)[p] == u;
                assert(order[p] == u);
            } else {
                let qi = i - order.len();
                assert(queue[qi] == v);
                assert(ready(bs, queue[qi], order));
                lemma_ready_has_source(bs, v, u, order);
            }
        }
    }
    vstd::seq_lib::lemma_no_dup_in_concat(seen, nr);
    assert(in_range(done + q2, n)) by {
        assert forall|i: int| 0 <= i < (done + q2).len() implies 0 <= #[trigger] (done + q2)[i]
            < n by {
            if i < seen.len() {
                assert((done + q2)[i] == seen[i]);
            } else {
                assert((done + q2)[i] == nr[i - seen.len()]);
            }
        }
    }
    assert forall|y: int| order.contains(y) implies done.contains(y) by {
        let p = choose|p: int| 0 <= p < order.len() && order[p] == y;
        assert(done[p] == y);
    }
    assert forall|i: int| 0 <= i < q2.len() implies ready(bs, #[trigger] q2[i], done) by {
        if i < queue.len() - 1 {
            assert(q2[i] == queue[i + 1]);
            assert(ready(bs, queue[i + 1], order));
            lemma_ready_mono(bs, queue[i + 1], order, done);
        } else {
            let v = nr[i - (queue.len() - 1)];
            assert(q2[i] == v);
            assert(nr.contains(v));
            assert((released_pred(bs, u, done))(v));
        }
    }
    assert forall|p: int| 0 <= p < done.len() implies ready(bs, #[trigger] done[p], done.take(p)) by {
        if p < order.len() {
            assert(done.take(p) =~= order.take(p));
            assert(ready(bs, order[p], order.take(p)));
        } else {
            assert(done.take(p) =~= order);
            assert(ready(bs, queue[0], order));
        }
    }
    assert forall|x: int| 0 <= x < n && ready(bs, x, done) implies (done + q2).contains(x) by {
        if ready(bs, x, order) {
            assert(seen.contains(x));
            let i = choose|i: int| 0 <= i < seen.len() && seen[i] == x;
            assert((done + q2)[i] == x);
        } else {
            let k = choose|k: int|
                0 <= k < sources(bs, x).len() && !order.contains(#[trigger] sources(bs, x)[k]);
            assert(done.contains(sources(bs, x)[k]));
            assert(sources(bs, x)[k] == u) by {
                let p = choose|p: int| 0 <= p < done.len() && done[p] == sources(bs, x)[k];
                if p < order.len() {
                    assert(order[p] == sources(bs, x)[k]);
                }
            }
            assert(sources(bs, x).contains(u));
            assert((released_pred(bs, u, done))(x));
            assert(nr.contains(x));
            let j = choose|j: int| 0 <= j < nr.len() && nr[j] == x;
            assert((done + q2)[seen.len() + j] == x);
        }
    }
}

/// Running the queue to the end keeps the invariant and empties the queue.
pub proof fn lemma_kahn_run(bs: Seq<FbdBlock>, queue: Seq<int>, order: Seq<int>, fuel: nat)
    requires
        kahn_inv(bs, queue, order),
        fuel == bs.len() - order.len(),
    ensures
        kahn_inv(bs, Seq::empty(), kahn(bs, queue, order, fuel)),
    decreases fuel,
{
    lemma_distinct_bound(order + queue, bs.len() as int);
    if queue.len() == 0 {
        assert(order + queue =~= order);
        assert(order + Seq::<int>::empty() =~= order);
    } else {
        let u = queue[0];
        lemma_kahn_step(bs, queue, order);
        lemma_kahn_run(
            bs,
            queue.drop_first() + newly_ready(bs, u, order.push(u)),
            order.push(u),
            (fuel - 1) as nat,
        );
    }
}

/// What the execution order satisfies when the queue runs dry.
pub proof fn lemma_topo_order_final(bs: Seq<FbdBlock>)
    ensures
        topo_order(bs).no_duplicates(),
        in_range(topo_order(bs), bs.len() as int),
        respects(bs, topo_order(bs)),
        forall|x: int|
            #![trigger ready(bs, x, topo_order(bs))]
            0 <= x < bs.len() && ready(bs, x, topo_order(bs)) ==> topo_order(bs).contains(x),
{
    lemma_kahn_init(bs);
    lemma_kahn_run(bs, initially_ready(bs), Seq::empty(), bs.len());
    let o = topo_order(bs);
    assert(o + Seq::<int>::empty() =~= o);
}

/// If every block ready after `order` ran is in `order`, a topological
/// listing never leaves `order`.
proof fn lemma_topological_within(bs: Seq<FbdBlock>, t: Seq<int>, order: Seq<int>, p: int)
    requires
        respects(bs, t),
        in_range(t, bs.len() as int),
        0 <= p <= t.len(),
        forall|x: int|
            #![trigger ready(bs, x, order)]
            0 <= x < bs.len() && ready(bs, x, order) ==> order.contains(x),
    ensures
        forall|i: int| 0 <= i < p ==> order.contains(#[trigger] t[i]),
    decreases p,
{
    if p > 0 {
        lemma_topological_within(bs, t, order, p - 1);
        let x = t[p - 1];
        assert(ready(bs, x, t.take(p - 1)));
        assert forall|y: int| t.take(p - 1).contains(y) implies order.contains(y) by {
            let tp = t.take(p - 1);
            let i = choose|i: int| 0 <= i < tp.len() && #[trigger] tp[i] == y;
            assert(t[i] == y);
        }
        lemma_ready_mono(bs, x, t.take(p - 1), order);
        assert(0 <= t[p - 1] < bs.len());
    }
}

/// The execution order lists distinct blocks, each after every block it
/// reads from; when it lists them all it is a topological order.
pub proof fn topo_order_is_topological(bs: Seq<FbdBlock>)
    ensures
        topo_order(bs).no_duplicates(),
        in_range(topo_order(bs), bs.len() as int),
        respects(bs, topo_order(bs)),
        topo_order(bs).len() == bs.len() ==> is_topological(bs, topo_order(bs)),
{
    lemma_topo_order_final(bs);
}

/// The execution order lists every block exactly when the wires admit
/// some topological order, that is, when they form no cycle.
pub proof fn topo_order_complete_iff_acyclic(bs: Seq<FbdBlock>)
    ensures
        topo_order(bs).len() == bs.len() <==> exists|t: Seq<int>| is_topological(bs, t),
{
    lemma_topo_order_final(bs);
    let o = topo_order(bs);
    if topo_order(bs).len() == bs.len() {
        assert(is_topological(bs, o));
    }
    if exists|t: Seq<int>| is_topological(bs, t) {
        let t = choose|t: Seq<int>| is_topological(bs, t);
        lemma_topological_within(bs, t, o, t.len() as int);
        lemma_distinct_bound(o, bs.len() as int);
        if o.len() < bs.len() {
            t.unique_seq_to_set();
            o.lemma_cardinality_of_set();
            assert(t.to_set().subset_of(o.to_set())) by {
                assert forall|v: int| t.to_set().contains(v) implies o.to_set().contains(v) by {
                    let i = choose|i: int| 0 <= i < t.len() && t[i] == v;
                    assert(o.contains(t[i]));
                }
            }
            lemma_len_subset(t.to_set(), o.to_set());
        }
    }
}


pub open spec fn usizes(s: Seq<usize>) -> Seq<int> {
    s.map_values(|u: usize| u as int)
}

/// Every source of a block is a block position.
pub proof fn lemma_sources_in_range(ids: Seq<Seq<char>>, ins: Seq<FbdInputBinding>)
    ensures
        in_range(sources_of(ids, ins), ids.len() as int),
    decreases ins.len(),
{
    if ins.len() > 0 {
        lemma_sources_in_range(ids, ins.drop_last());
        match ins.last().value {
            FbdInputSource::Block { block_id, pin } => lemma_first_index_bounds(ids, block_id@),
            _ => {},
        }
    }
}

fn contains_usize(v: &Vec<usize>, u: usize) -> (r: bool)
    ensures
        r == usizes(v@).contains(u as int),
{
    let mut i: usize = 0;
    while i < v.len()
        invariant
            i <= v.len(),
            forall|j: int| 0 <= j < i ==> v@[j] != u,
        decreases v.len() - i,
    {
        if v[i] == u {
            assert(usizes(v@)[i as int] == u as int);
            return true;
        }
        i = i + 1;
    }
    assert(!usizes(v@).contains(u as int)) by {
        if usizes(v@).contains(u as int) {
            let j = choose|j: int| 0 <= j < usizes(v@).len() && usizes(v@)[j] == u as int;
            assert(v@[j] == u);
        }
    }
    false
}

/// Whether every position listed in `v` is marked in `done`.
fn all_marked(v: &Vec<usize>, done: &Vec<bool>) -> (r: bool)
    requires
        forall|k: int| 0 <= k < v.len() ==> v@[k] < done.len(),
    ensures
        r == forall|k: int| 0 <= k < v.len() ==> done@[#[trigger] v@[k] as int],
{
    let mut i: usize = 0;
    while i < v.len()
        invariant
            i <= v.len(),
            forall|k: int| 0 <= k < v.len() ==> v@[k] < done.len(),
            forall|k: int| 0 <= k < i ==> done@[#[trigger] v@[k] as int],
        decreases v.len() - i,
    {
        if !done[v[i]] {
            return false;
        }
        i = i + 1;
    }
    true
}

/// The positions of the blocks the given pins read from.
fn input_sources(ids: &Vec<String>, ins: &Vec<FbdInputBinding>) -> (r: Vec<usize>)
    ensures
        usizes(r@) == sources_of(views(ids@), ins@),
{
    let mut r: Vec<usize> = Vec::new();
    let mut k: usize = 0;
    while k < ins.len()
        invariant
            k <= ins.len(),
            usizes(r@) == sources_of(views(ids@), ins@.take(k as int)),
        decreases ins.len() - k,
    {
        assert(ins@.take(k + 1).drop_last() =~= ins@.take(k as int));
        assert(ins@.take(k + 1).last() == ins@[k as int]);
        match &ins[k].value {
            FbdInputSource::Block { block_id, pin } => {
                let w = index_of_string(ids, block_id);
                match w {
                    Some(w) => {
                        r.push(w);
                        assert(usizes(r@) =~= usizes(r@.drop_last()).push(w as int));
                    },
                    None => {},
                }
            },
            _ => {},
        }
        k = k + 1;
    }
    assert(ins@.take(ins.len() as int) =~= ins@);
    r
}

pub open spec fn self_ref_check(bs: Seq<FbdBlock>, i: int) -> Option<Seq<char>> {
    if sources(bs, i).contains(i) {
        Some(
            "FBD block '"@ + bs[i].id@ + "' references itself \u{2014} self-feedback isn't supported"@,
        )
    } else {
        None
    }
}

/// The first block (in authoring order) wired to one of its own outputs.
pub open spec fn self_ref_problem(bs: Seq<FbdBlock>) -> Option<Seq<char>> {
    first_some(Seq::new(bs.len(), |i: int| self_ref_check(bs, i)))
}

/// The ids of the blocks that never ran, in authoring order.
pub open spec fn stuck_ids(bs: Seq<FbdBlock>, order: Seq<int>) -> Seq<Seq<char>> {
    filter_upto(bs.len() as int, not_in_pred(order)).map_values(|x: int| bs[x].id@)
}

pub open spec fn cycle_msg(bs: Seq<FbdBlock>) -> Seq<char> {
    "FBD has a wire cycle through blocks: "@ + join(stuck_ids(bs, topo_order(bs)), ", "@)
        + ". Feedback loops require CFC, not FBD."@
}

/// The blocks' execution order, or why there is none: a block wired to
/// itself, or a cycle of wires (naming the blocks that never ran).
pub fn topo_sort(blocks: &Vec<FbdBlock>, ids: &Vec<String>) -> (r: Result<Vec<usize>, BridgeError>)
    requires
        views(ids@) == block_ids(blocks@),
    ensures
        match r {
            Ok(order) => {
                &&& self_ref_problem(blocks@) is None
                &&& usizes(order@) == topo_order(blocks@)
                &&& order.len() == blocks.len()
                &&& forall|i: int| 0 <= i < order.len() ==> order@[i] < blocks.len()
            },
            Err(BridgeError::Parse(m)) => match self_ref_problem(blocks@) {
                Some(e) => m@ == e,
                None => topo_order(blocks@).len() < blocks.len() && m@ == cycle_msg(blocks@),
            },
            Err(_) => false,
        },
{
    let n = blocks.len();
    let ghost bs = blocks@;
    let mut srcs: Vec<Vec<usize>> = Vec::new();
    let mut i: usize = 0;
    while i < n
        invariant
            n == blocks.len(),
            bs == blocks@,
            views(ids@) == block_ids(bs),
            i <= n,
            srcs.len() == i,
            forall|x: int| 0 <= x < i ==> usizes(#[trigger] srcs@[x]@) == sources(bs, x),
        decreases n - i,
    {
        let s = input_sources(ids, &blocks[i].inputs);
        srcs.push(s);
        i = i + 1;
    }
    assert forall|x: int, k: int| 0 <= x < n && 0 <= k < srcs@[x].len() implies #[trigger] srcs@[x]@[k]
        < n by {
        lemma_sources_in_range(block_ids(bs), bs[x].inputs@);
        assert(usizes(srcs@[x]@)[k] == sources(bs, x)[k]);
    }
    let ghost checks = Seq::new(bs.len(), |i: int| self_ref_check(bs, i));
    let mut i: usize = 0;
    while i < n
        invariant
            n == blocks.len(),
            bs == blocks@,
            i <= n,
            srcs.len() == n,
            forall|x: int| 0 <= x < n ==> usizes(#[trigger] srcs@[x]@) == sources(bs, x),
            checks == Seq::new(bs.len(), |i: int| self_ref_check(bs, i)),
            first_some(checks.take(i as int)) is None,
        decreases n - i,
    {
        if contains_usize(&srcs[i], i) {
            let mut m = String::from_str("FBD block '");
            m.append(blocks[i].id.as_str());
            m.append("' references itself \u{2014} self-feedback isn't supported");
            proof {
                lemma_first_some_at(checks, i as int);
            }
            return Err(BridgeError::Parse(m));
        }
        proof {
            lemma_first_some_step(checks, i as int);
        }
        i = i + 1;
    }
    proof {
        lemma_first_some_none(checks);
    }
    let ghost empty = Seq::<int>::empty();
    let mut popped: Vec<bool> = Vec::new();
    let mut queue: VecDeque<usize> = VecDeque::new();
    let mut v: usize = 0;
    while v < n
        invariant
            n == blocks.len(),
            bs == blocks@,
            v <= n,
            srcs.len() == n,
            forall|x: int| 0 <= x < n ==> usizes(#[trigger] srcs@[x]@) == sources(bs, x),
            popped.len() == v,
            empty == Seq::<int>::empty(),
            forall|x: int| 0 <= x < v ==> !popped@[x],
            usizes(queue@) == filter_upto(v as int, ready_pred(bs, empty)),
        decreases n - v,
    {
        popped.push(false);
        let ghost before = queue@;
        if srcs[v].len() == 0 {
            queue.push_back(v);
            assert(usizes(queue@) =~= usizes(before).push(v as int));
        }
        assert(ready(bs, v as int, empty) <==> sources(bs, v as int).len() == 0) by {
            if sources(bs, v as int).len() > 0 {
                assert(!empty.contains(sources(bs, v as int)[0]));
            }
        }
        assert((ready_pred(bs, empty))(v as int) == ready(bs, v as int, empty));
        v = v + 1;
    }
    let mut order: Vec<usize> = Vec::new();
    proof {
        lemma_kahn_init(bs);
        assert(usizes(order@) =~= empty);
    }
    while queue.len() > 0
        invariant
            n == blocks.len(),
            bs == blocks@,
            srcs.len() == n,
            forall|x: int| 0 <= x < n ==> usizes(#[trigger] srcs@[x]@) == sources(bs, x),
            forall|x: int, k: int|
                0 <= x < n && 0 <= k < srcs@[x].len() ==> #[trigger] srcs@[x]@[k] < n,
            popped.len() == n,
            forall|x: int| 0 <= x < n ==> popped@[x] == usizes(order@).contains(x),
            kahn_inv(bs, usizes(queue@), usizes(order@)),
            topo_order(bs) == kahn(bs, usizes(queue@), usizes(order@), (n - order.len()) as nat),
            order.len() <= n,
        decreases n - order.len(),
    {
        proof {
            assert(usizes(order@) + usizes(queue@) =~= usizes(order@ + queue@));
            lemma_distinct_bound(usizes(order@) + usizes(queue@), n as int);
        }
        let ghost q0 = usizes(queue@);
        let ghost o0 = usizes(order@);
        let u = queue.pop_front().unwrap();
        assert(u as int == q0[0]);
        assert(u < n) by {
            assert((o0 + q0)[o0.len() as int] == q0[0]);
        }
        order.push(u);
        popped.set(u, true);
        let ghost done = usizes(order@);
        assert(done =~= o0.push(u as int));
        assert(usizes(queue@) =~= q0.drop_first());
        assert forall|x: int| 0 <= x < n implies popped@[x] == done.contains(x) by {
            if x == u {
                assert(done[o0.len() as int] == u);
            } else if o0.contains(x) {
                let p = choose|p: int| 0 <= p < o0.len() && o0[p] == x;
                assert(done[p] == x);
            } else if done.contains(x) {
                let p = choose|p: int| 0 <= p < done.len() && done[p] == x;
                assert(o0[p] == x);
            }
        }
        let ghost released = released_pred(bs, u as int, done);
        let ghost q1 = usizes(queue@);
        let mut v: usize = 0;
        while v < n
            invariant
                n == blocks.len(),
                bs == blocks@,
                v <= n,
                srcs.len() == n,
                forall|x: int| 0 <= x < n ==> usizes(#[trigger] srcs@[x]@) == sources(bs, x),
                forall|x: int, k: int|
                    0 <= x < n && 0 <= k < srcs@[x].len() ==> #[trigger] srcs@[x]@[k] < n,
                popped.len() == n,
                forall|x: int| 0 <= x < n ==> popped@[x] == done.contains(x),
                released == released_pred(bs, u as int, done),
                usizes(queue@) == q1 + filter_upto(v as int, released),
            decreases n - v,
        {
            let ghost before = queue@;
            let reads_u = contains_usize(&srcs[v], u);
            let all_done = all_marked(&srcs[v], &popped);
            assert(all_done == ready(bs, v as int, done)) by {
                let sv = sources(bs, v as int);
                assert(usizes(srcs@[v as int]@) == sv);
                if all_done {
                    assert forall|k: int| 0 <= k < sv.len() implies done.contains(#[trigger] sv[k]) by {
                        assert(popped@[srcs@[v as int]@[k] as int]);
                    }
                } else {
                    let k = choose|k: int|
                        0 <= k < srcs@[v as int].len() && !popped@[#[trigger] srcs@[v as int]@[k] as int];
                    assert(!done.contains(sv[k]));
                }
            }
            assert(released(v as int) == (reads_u && all_done));
            if reads_u && all_done {
                queue.push_back(v);
                assert(usizes(queue@) =~= usizes(before).push(v as int));
            }
            v = v + 1;
        }
        proof {
            lemma_kahn_step(bs, q0, o0);
            assert(usizes(queue@) =~= q0.drop_first() + newly_ready(bs, q0[0], o0.push(q0[0])));
        }
    }
    proof {
        assert(usizes(queue@) =~= Seq::<int>::empty());
        let o = usizes(order@);
        assert(o + usizes(queue@) =~= o);
        assert(topo_order(bs) == o);
        assert forall|i: int| 0 <= i < order.len() implies order@[i] < n by {
            assert(o[i] == order@[i] as int);
        }
    }
    if order.len() == n {
        return Ok(order);
    }
    let ghost o = usizes(order@);
    let ghost stuck_pred = not_in_pred(o);
    let mut stuck: Vec<String> = Vec::new();
    let mut x: usize = 0;
    while x < n
        invariant
            n == blocks.len(),
            bs == blocks@,
            x <= n,
            popped.len() == n,
            forall|y: int| 0 <= y < n ==> popped@[y] == o.contains(y),
            stuck_pred == not_in_pred(o),
            views(stuck@) == filter_upto(x as int, stuck_pred).map_values(|y: int| bs[y].id@),
        decreases n - x,
    {
        let ghost before = stuck@;
        assert(stuck_pred(x as int) == !popped@[x as int]);
        assert(filter_upto(x + 1, stuck_pred) == filter_upto(x as int, stuck_pred) + if stuck_pred(
            x as int,
        ) {
            seq![x as int]
        } else {
            Seq::<int>::empty()
        });
        if !popped[x] {
            stuck.push(blocks[x].id.clone());
            assert(views(stuck@) =~= views(before).push(bs[x as int].id@));
        }
        assert(views(stuck@) =~= filter_upto(x + 1, stuck_pred).map_values(|y: int| bs[y].id@));
        x = x + 1;
    }
    let joined = join_strings(&stuck, ", ");
    let mut m = String::from_str("FBD has a wire cycle through blocks: ");
    m.append(joined.as_str());
    m.append(". Feedback loops require CFC, not FBD.");
    Err(BridgeError::Parse(m))
}

} // verus!
