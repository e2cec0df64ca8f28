//! The table of forced variables: each name pinned to one value, applied
//! every scan after the inputs are read, listed by name.
use vstd::prelude::*;

use crate::runtime::{resolve, resolve_var, RuntimeWriteError};
use crate::text::{lemma_seq_lt_irreflexive, lemma_seq_lt_total, lemma_seq_lt_transitive, seq_lt, str_lt};

verus! {

/// The table's entries as plain values, ascending by name.
pub type ForceView = Seq<(Seq<char>, i32)>;

/// Names strictly ascending, hence each once.
pub open spec fn ascending(s: ForceView) -> bool {
    forall|i: int, j: int| 0 <= i < j < s.len() ==> seq_lt(#[trigger] s[i].0, #[trigger] s[j].0)
}

/// The value `name` is pinned to.
pub open spec fn pinned(s: ForceView, name: Seq<char>) -> Option<i32>
    decreases s.len(),
{
    if s.len() == 0 {
        None
    } else if s[0].0 == name {
        Some(s[0].1)
    } else {
        pinned(s.drop_first(), name)
    }
}

/// The table with `name` pinned to `value`, in its place by name.
pub open spec fn with_force(s: ForceView, name: Seq<char>, value: i32) -> ForceView
    decreases s.len(),
{
    if s.len() == 0 {
        seq![(name, value)]
    } else if s[0].0 == name {
        s.update(0, (name, value))
    } else if seq_lt(name, s[0].0) {
        seq![(name, value)] + s
    } else {
        seq![s[0]] + with_force(s.drop_first(), name, value)
    }
}

/// The table without `name`.
pub open spec fn without_force(s: ForceView, name: Seq<char>) -> ForceView {
    s.filter(|e: (Seq<char>, i32)| e.0 != name)
}

pub struct ForceTable {
    entries: Vec<(String, i32)>,
}

pub open spec fn entry_view(e: (String, i32)) -> (Seq<char>, i32) {
    (e.0@, e.1)
}

impl ForceTable {
    pub closed spec fn view(&self) -> ForceView {
        self.entries@.map_values(|e: (String, i32)| entry_view(e))
    }

    pub closed spec fn wf(&self) -> bool {
        ascending(self.view())
    }

    pub fn new() -> (t: ForceTable)
        ensures
            t.wf(),
            t.view() == Seq::<(Seq<char>, i32)>::empty(),
    {
        let t = ForceTable { entries: Vec::new() };
        assert(t.view() =~= Seq::<(Seq<char>, i32)>::empty());
        t
    }

    /// Pins `name` to `value`, replacing an earlier pin of it.
    pub fn force(&mut self, name: String, value: i32)
        requires
            old(self).wf(),
        ensures
            final(self).wf(),
            final(self).view() == with_force(old(self).view(), name@, value),
    {
        let ghost s = self.view();
        let mut i: usize = 0;
        proof {
            lemma_with_force_ascending(s, name@, value);
            assert(s.skip(0) =~= s);
            assert(s.take(0) + with_force(s.skip(0), name@, value) =~= with_force(s, name@, value));
        }
        while i < self.entries.len()
            invariant
                i <= self.entries@.len(),
                s == self.view(),
                self.entries@ == old(self).entries@,
                ascending(s),
                ascending(with_force(s, name@, value)),
                forall|j: int| 0 <= j < i ==> seq_lt(#[trigger] s[j].0, name@),
                with_force(s, name@, value) == s.take(i as int) + with_force(s.skip(i as int), name@, value),
            decreases self.entries@.len() - i,
        {
            let ghost rest = s.skip(i as int);
            assert(rest[0] == s[i as int]);
            assert(s[i as int] == entry_view(self.entries@[i as int]));
            if self.entries[i].0 == name {
                let ghost before = self.entries@;
                self.entries.set(i, (name, value));
                proof {
                    assert(self.view() =~= s.take(i as int) + rest.update(0, (name@, value)));
                }
                return;
            }
            if str_lt(name.as_str(), self.entries[i].0.as_str()) {
                self.entries.insert(i, (name, value));
                proof {
                    assert(self.view() =~= s.take(i as int) + (seq![(name@, value)] + rest));
                }
                return;
            }
            proof {
                lemma_seq_lt_total(name@, s[i as int].0);
                assert(rest.drop_first() =~= s.skip(i + 1));
                assert(s.take(i as int) + (seq![rest[0]] + with_force(rest.drop_first(), name@, value)) =~= s.take(
                    i + 1,
                ) + with_force(s.skip(i + 1), name@, value));
            }
            i = i + 1;
        }
        self.entries.push((name, value));
        proof {
            assert(s.skip(i as int) =~= Seq::<(Seq<char>, i32)>::empty());
            assert(self.view() =~= s.take(i as int) + seq![(name@, value)]);
        }
    }

    /// Releases `name`; nothing happens when it is not pinned.
    pub fn unforce(&mut self, name: &String)
        requires
            old(self).wf(),
        ensures
            final(self).wf(),
            final(self).view() == without_force(old(self).view(), name@),
    {
        let ghost s = self.view();
        let mut i: usize = 0;
        while i < self.entries.len() && !(self.entries[i].0 == *name)
            invariant
                i <= self.entries@.len(),
                s == self.view(),
                self.entries@ == old(self).entries@,
                forall|j: int| 0 <= j < i ==> s[j].0 != name@,
            decreases self.entries@.len() - i,
        {
            assert(s[i as int] == entry_view(self.entries@[i as int]));
            i = i + 1;
        }
        if i < self.entries.len() {
            assert(s[i as int] == entry_view(self.entries@[i as int]));
            let _gone = self.entries.remove(i);
            proof {
                assert(self.view() =~= s.remove(i as int));
                lemma_without_at(s, name@, i as int);
                lemma_ascending_remove(s, i as int);
            }
        } else {
            proof {
                lemma_without_absent(s, name@);
            }
        }
    }

    /// The value `name` is pinned to, if any.
    pub fn get(&self, name: &String) -> (r: Option<i32>)
        ensures
            r == pinned(self.view(), name@),
    {
        let ghost s = self.view();
        let mut i: usize = 0;
        assert(s.skip(0) =~= s);
        while i < self.entries.len()
            invariant
                i <= self.entries@.len(),
                s == self.view(),
                pinned(s, name@) == pinned(s.skip(i as int), name@),
            decreases self.entries@.len() - i,
        {
            assert(s[i as int] == entry_view(self.entries@[i as int]));
            assert(s.skip(i as int)[0] == s[i as int]);
            if self.entries[i].0 == *name {
                return Some(self.entries[i].1);
            }
            assert(s.skip(i as int).drop_first() =~= s.skip(i + 1));
            i = i + 1;
        }
        assert(s.skip(i as int) =~= Seq::<(Seq<char>, i32)>::empty());
        None
    }

    /// Every pin, ascending by name.
    pub fn listing(&self) -> (r: Vec<(String, i32)>)
        ensures
            r@.map_values(|e: (String, i32)| entry_view(e)) == self.view(),
    {
        let mut out: Vec<(String, i32)> = Vec::new();
        let mut i: usize = 0;
        while i < self.entries.len()
            invariant
                i <= self.entries@.len(),
                out@.map_values(|e: (String, i32)| entry_view(e)) == self.view().take(i as int),
            decreases self.entries@.len() - i,
        {
            let e = (self.entries[i].0.clone(), self.entries[i].1);
            let ghost before = out@;
            out.push(e);
            proof {
                assert(self.view()[i as int] == entry_view(self.entries@[i as int]));
                assert(entry_view(e) == self.view()[i as int]);
                assert(out@.map_values(|e: (String, i32)| entry_view(e)) =~= before.map_values(
                    |e: (String, i32)| entry_view(e),
                ).push(entry_view(e)));
                assert(out@.map_values(|e: (String, i32)| entry_view(e)) =~= self.view().take(i + 1));
            }
            i = i + 1;
        }
        assert(self.view().take(self.entries@.len() as int) =~= self.view());
        out
    }
}

proof fn lemma_with_force_ascending(s: ForceView, name: Seq<char>, value: i32)
    requires
        ascending(s),
    ensures
        ascending(with_force(s, name, value)),
    decreases s.len(),
{
    let r = with_force(s, name, value);
    if s.len() == 0 {
    } else if s[0].0 == name {
        assert forall|i: int, j: int| 0 <= i < j < r.len() implies seq_lt(#[trigger] r[i].0, #[trigger] r[j].0) by {
            assert(s[i].0 == r[i].0);
            assert(s[j].0 == r[j].0);
        }
    } else if seq_lt(name, s[0].0) {
        assert forall|i: int, j: int| 0 <= i < j < r.len() implies seq_lt(#[trigger] r[i].0, #[trigger] r[j].0) by {
            if i == 0 {
                assert(r[j] == s[j - 1]);
                if j - 1 > 0 {
                    lemma_seq_lt_transitive(name, s[0].0, s[j - 1].0);
                }
            } else {
                assert(r[i] == s[i - 1] && r[j] == s[j - 1]);
            }
        }
    } else {
        let rest = s.drop_first();
        assert(ascending(rest)) by {
            assert forall|i: int, j: int| 0 <= i < j < rest.len() implies seq_lt(#[trigger] rest[i].0, #[trigger] rest[j].0) by {
                assert(rest[i] == s[i + 1] && rest[j] == s[j + 1]);
            }
        }
        lemma_with_force_ascending(rest, name, value);
        lemma_seq_lt_total(name, s[0].0);
        lemma_with_force_keys(rest, name, value);
        let tail = with_force(rest, name, value);
        assert forall|i: int, j: int| 0 <= i < j < r.len() implies seq_lt(#[trigger] r[i].0, #[trigger] r[j].0) by {
            if i == 0 {
                assert(r[0] == s[0]);
                assert(r[j] == tail[j - 1]);
                let k = tail[j - 1].0;
                if k == name {
                } else {
                    let m = choose|m: int| 0 <= m < rest.len() && rest[m].0 == k;
                    assert(rest[m] == s[m + 1]);
                }
            } else {
                assert(r[i] == tail[i - 1] && r[j] == tail[j - 1]);
            }
        }
    }
}

/// Every name in the table after a force is the forced one or was there.
proof fn lemma_with_force_keys(s: ForceView, name: Seq<char>, value: i32)
    ensures
        forall|j: int|
            0 <= j < with_force(s, name, value).len() ==> (#[trigger] with_force(s, name, value)[j]).0 == name
                || exists|m: int| 0 <= m < s.len() && s[m].0 == with_force(s, name, value)[j].0,
    decreases s.len(),
{
    let r = with_force(s, name, value);
    if s.len() == 0 {
    } else if s[0].0 == name {
        assert forall|j: int| 0 <= j < r.len() implies (#[trigger] r[j]).0 == name || exists|m: int|
            0 <= m < s.len() && s[m].0 == r[j].0 by {
            if j > 0 {
                assert(s[j].0 == r[j].0);
            }
        }
    } else if seq_lt(name, s[0].0) {
        assert forall|j: int| 0 <= j < r.len() implies (#[trigger] r[j]).0 == name || exists|m: int|
            0 <= m < s.len() && s[m].0 == r[j].0 by {
            if j > 0 {
                assert(s[j - 1].0 == r[j].0);
            }
        }
    } else {
        let rest = s.drop_first();
        lemma_with_force_keys(rest, name, value);
        let tail = with_force(rest, name, value);
        assert forall|j: int| 0 <= j < r.len() implies (#[trigger] r[j]).0 == name || exists|m: int|
            0 <= m < s.len() && s[m].0 == r[j].0 by {
            if j == 0 {
                assert(s[0].0 == r[0].0);
            } else {
                assert(r[j] == tail[j - 1]);
                if tail[j - 1].0 != name {
                    let m = choose|m: int| 0 <= m < rest.len() && rest[m].0 == tail[j - 1].0;
                    assert(rest[m] == s[m + 1]);
                }
            }
        }
    }
}

proof fn lemma_ascending_remove(s: ForceView, k: int)
    requires
        ascending(s),
        0 <= k < s.len(),
    ensures
        ascending(s.remove(k)),
{
    let r = s.remove(k);
    assert forall|i: int, j: int| 0 <= i < j < r.len() implies seq_lt(#[trigger] r[i].0, #[trigger] r[j].0) by {
        let a = if i < k { i } else { i + 1 };
        let b = if j < k { j } else { j + 1 };
        assert(r[i] == s[a] && r[j] == s[b]);
    }
}

proof fn lemma_without_absent(s: ForceView, name: Seq<char>)
    requires
        forall|j: int| 0 <= j < s.len() ==> s[j].0 != name,
    ensures
        without_force(s, name) == s,
    decreases s.len(),
{
    reveal(Seq::filter);
    if s.len() > 0 {
        lemma_without_absent(s.drop_last(), name);
        assert(s.drop_last().push(s.last()) =~= s);
    } else {
        assert(without_force(s, name) =~= s);
    }
}

proof fn lemma_without_at(s: ForceView, name: Seq<char>, k: int)
    requires
        ascending(s),
        0 <= k < s.len(),
        s[k].0 == name,
    ensures
        without_force(s, name) == s.remove(k),
{
    assert forall|j: int| 0 <= j < s.len() && j != k implies s[j].0 != name by {
        if j < k {
            assert(seq_lt(s[j].0, s[k].0));
            lemma_seq_lt_irreflexive(s[k].0);
        } else {
            assert(seq_lt(s[k].0, s[j].0));
            lemma_seq_lt_irreflexive(s[k].0);
        }
    }
    lemma_filter_skips_one(s, name, k);
}

proof fn lemma_filter_skips_one(s: ForceView, name: Seq<char>, k: int)
    requires
        0 <= k < s.len(),
        s[k].0 == name,
        forall|j: int| 0 <= j < s.len() && j != k ==> s[j].0 != name,
    ensures
        without_force(s, name) == s.remove(k),
    decreases s.len(),
{
    reveal(Seq::filter);
    let p = |e: (Seq<char>, i32)| e.0 != name;
    if k == s.len() - 1 {
        lemma_without_absent(s.drop_last(), name);
        assert(s.remove(k) =~= s.drop_last());
    } else {
        lemma_filter_skips_one(s.drop_last(), name, k);
        assert(s.drop_last().remove(k).push(s.last()) =~= s.remove(k));
    }
}

// ----- Laws -----

/// After a force, reading the name gives the forced value, and every other
/// name reads as before.
pub proof fn force_then_read(s: ForceView, name: Seq<char>, value: i32, other: Seq<char>)
    requires
        ascending(s),
    ensures
        pinned(with_force(s, name, value), name) == Some(value),
        other != name ==> pinned(with_force(s, name, value), other) == pinned(s, other),
    decreases s.len(),
{
    let r = with_force(s, name, value);
    if s.len() == 0 {
        assert(r.drop_first() =~= Seq::<(Seq<char>, i32)>::empty());
    } else if s[0].0 == name {
        assert(r.drop_first() =~= s.drop_first());
    } else if seq_lt(name, s[0].0) {
        assert(r.drop_first() =~= s);
    } else {
        let rest = s.drop_first();
        assert(ascending(rest)) by {
            assert forall|i: int, j: int| 0 <= i < j < rest.len() implies seq_lt(#[trigger] rest[i].0, #[trigger] rest[j].0) by {
                assert(rest[i] == s[i + 1] && rest[j] == s[j + 1]);
            }
        }
        force_then_read(rest, name, value, other);
        assert(r == seq![s[0]] + with_force(rest, name, value));
        assert(r[0] == s[0]);
        assert(r.drop_first() =~= with_force(rest, name, value));
        if other != name && s[0].0 != other {
            assert(pinned(r, other) == pinned(r.drop_first(), other));
            assert(pinned(s, other) == pinned(rest, other));
        }
    }
}

/// Releasing a name that was not pinned before it was forced gives back
/// the table as it was.
pub proof fn unforce_undoes_force(s: ForceView, name: Seq<char>, value: i32)
    requires
        ascending(s),
        forall|j: int| 0 <= j < s.len() ==> s[j].0 != name,
    ensures
        without_force(with_force(s, name, value), name) == s,
    decreases s.len(),
{
    let r = with_force(s, name, value);
    lemma_with_force_ascending(s, name, value);
    let k = lemma_forced_index(s, name, value);
    lemma_without_at(r, name, k);
}

proof fn lemma_forced_index(s: ForceView, name: Seq<char>, value: i32) -> (k: int)
    requires
        forall|j: int| 0 <= j < s.len() ==> s[j].0 != name,
    ensures
        0 <= k < with_force(s, name, value).len(),
        with_force(s, name, value)[k] == (name, value),
        with_force(s, name, value).remove(k) == s,
    decreases s.len(),
{
    let r = with_force(s, name, value);
    if s.len() == 0 {
        assert(r.remove(0) =~= s);
        0
    } else if seq_lt(name, s[0].0) {
        assert(r.remove(0) =~= s);
        0
    } else {
        let rest = s.drop_first();
        assert forall|j: int| 0 <= j < rest.len() implies rest[j].0 != name by {
            assert(rest[j] == s[j + 1]);
        }
        let k = lemma_forced_index(rest, name, value);
        assert(r.remove(k + 1) =~= seq![s[0]] + with_force(rest, name, value).remove(k));
        assert(seq![s[0]] + rest =~= s);
        k + 1
    }
}


// ----- Commands and the force phase -----

/// A force request: names no unit declares are refused, the others pinned.
pub fn force_command(
    table: &mut ForceTable,
    name: String,
    value: i32,
    instances: &Vec<String>,
    maps: &Vec<Vec<(String, u16)>>,
) -> (r: Result<i32, RuntimeWriteError>)
    requires
        old(table).wf(),
        instances@.len() == maps@.len(),
    ensures
        final(table).wf(),
        resolve(name@, crate::text::views(instances@), maps@) is Some ==> r == Ok::<i32, RuntimeWriteError>(value)
            && final(table).view() == with_force(old(table).view(), name@, value),
        resolve(name@, crate::text::views(instances@), maps@) is None ==> (r matches Err(
            RuntimeWriteError::UnknownVariable(n),
        ) && n@ == name@) && final(table).view() == old(table).view(),
{
    match resolve_var(name.as_str(), instances, maps) {
        Some(_) => {
            table.force(name, value);
            Ok(value)
        },
        None => Err(RuntimeWriteError::UnknownVariable(name)),
    }
}

/// The writes the force phase makes into unit `unit`: for each pin in the
/// table's order whose name resolves into that unit, its slot and value.
pub open spec fn unit_force_writes(
    pins: ForceView,
    unit: int,
    instances: Seq<Seq<char>>,
    maps: Seq<Vec<(String, u16)>>,
) -> Seq<(u16, i32)>
    decreases pins.len(),
{
    if pins.len() == 0 {
        Seq::empty()
    } else {
        let rest = unit_force_writes(pins.drop_last(), unit, instances, maps);
        match resolve(pins.last().0, instances, maps) {
            Some((u, idx)) => if u == unit {
                rest.push((idx, pins.last().1))
            } else {
                rest
            },
            None => rest,
        }
    }
}

impl ForceTable {
    /// The force phase of one unit: what to write into which of its slots.
    pub fn writes_for_unit(&self, unit: usize, instances: &Vec<String>, maps: &Vec<Vec<(String, u16)>>) -> (r:
        Vec<(u16, i32)>)
        requires
            instances@.len() == maps@.len(),
        ensures
            r@ == unit_force_writes(self.view(), unit as int, crate::text::views(instances@), maps@),
    {
        let ghost pins = self.view();
        let mut out: Vec<(u16, i32)> = Vec::new();
        let mut i: usize = 0;
        assert(pins.take(0) =~= Seq::<(Seq<char>, i32)>::empty());
        while i < self.entries.len()
            invariant
                i <= self.entries@.len(),
                pins == self.view(),
                instances@.len() == maps@.len(),
                out@ == unit_force_writes(pins.take(i as int), unit as int, crate::text::views(instances@), maps@),
            decreases self.entries@.len() - i,
        {
            let (name, value) = (&self.entries[i].0, self.entries[i].1);
            proof {
                assert(pins[i as int] == entry_view(self.entries@[i as int]));
                assert(pins.take(i + 1).drop_last() =~= pins.take(i as int));
                assert(pins.take(i + 1).last() == pins[i as int]);
            }
            match resolve_var(name.as_str(), instances, maps) {
                Some((u, idx)) => {
                    if u == unit {
                        out.push((idx, value));
                    }
                },
                None => {},
            }
            i = i + 1;
        }
        assert(pins.take(self.entries@.len() as int) =~= pins);
        out
    }
}

} // verus!
