//! The RETAIN state file's record and its schema rules. Values are raw
//! 64-bit VM slots; files of the older schema held `i32` values, which
//! widen by sign extension.
use vstd::prelude::*;

use std::collections::HashMap;

use crate::chars::find_from;
use crate::text::{chars_of, first_index, string_of};

verus! {

/// Schema of the files this build writes.
pub const SCHEMA: u32 = 2;

#[derive(Debug)]
pub struct RetainState {
    pub schema: u32,
    /// Microseconds since program start at the last flush.
    pub saved_at_us: u64,
    /// Scan count at the last flush.
    pub scan_count: u64,
    /// Variable name to raw VM slot.
    pub vars: HashMap<String, u64>,
}

/// A state record of the current schema.
pub fn build(vars: HashMap<String, u64>, saved_at_us: u64, scan_count: u64) -> (r: RetainState)
    ensures
        r.schema == SCHEMA,
        r.vars == vars,
        r.saved_at_us == saved_at_us,
        r.scan_count == scan_count,
{
    RetainState { schema: SCHEMA, saved_at_us, scan_count, vars }
}

/// How a state file is read, by the schema it declares.
#[derive(Debug, Clone, Copy, PartialEq, Eq, Structural)]
pub enum SchemaHandling {
    /// Written by a newer build: ignored, no state restored.
    Ignore,
    /// Schema 0 or 1: `i32` values, widened on load.
    Widen,
    /// The current schema: read as is.
    Current,
}

pub fn schema_handling(schema: u32) -> (h: SchemaHandling)
    ensures
        h == (if schema > SCHEMA {
            SchemaHandling::Ignore
        } else if schema <= 1 {
            SchemaHandling::Widen
        } else {
            SchemaHandling::Current
        }),
{
    if schema > SCHEMA {
        SchemaHandling::Ignore
    } else if schema <= 1 {
        SchemaHandling::Widen
    } else {
        SchemaHandling::Current
    }
}

/// The slot an old `i32` value restores to: sign-extended to 64 bits.
pub fn widen_legacy_value(v: i32) -> (r: u64)
    ensures
        r == (v as i64) as u64,
        v >= 0 ==> r == v,
        v < 0 ==> r == 0x1_0000_0000_0000_0000 + v,
{
    let w: i64 = v as i64;
    let r: u64 = w as u64;
    assert(v < 0 ==> r == 0x1_0000_0000_0000_0000 + v) by (bit_vector)
        requires
            w == v as i64,
            r == w as u64,
    ;
    r
}


// ----- Keys in the state file -----

/// The key a RETAIN variable is saved under: `instance.variable` when
/// several units run, the bare name otherwise.
pub open spec fn retain_key_of(multi: bool, instance: Seq<char>, name: Seq<char>) -> Seq<char> {
    if multi {
        instance + seq!['.'] + name
    } else {
        name
    }
}

pub fn retain_key(n_units: usize, instance: &str, name: &str) -> (k: String)
    ensures
        k@ == retain_key_of(n_units > 1, instance@, name@),
{
    if n_units > 1 {
        let mut k = instance.to_string();
        k.append(".");
        k.append(name);
        proof {
            reveal_strlit(".");
        }
        k
    } else {
        name.to_string()
    }
}

/// The name a key had before its project ran several units: what follows
/// its first dot.
pub open spec fn legacy_name_of(key: Seq<char>) -> Option<Seq<char>> {
    match find_from(key, seq!['.'], 0) {
        Some(d) => Some(key.skip(d + 1)),
        None => None,
    }
}

pub fn legacy_name(key: &str) -> (r: Option<String>)
    ensures
        r matches Some(b) ==> legacy_name_of(key@) == Some(b@),
        r is None ==> legacy_name_of(key@) is None,
{
    let v = chars_of(key);
    let dot_pat: Vec<char> = vec!['.'];
    assert(dot_pat@ =~= seq!['.']);
    let d = match crate::chars::find_chars(&v, &dot_pat, 0) {
        Some(d) => d,
        None => {
            return None;
        },
    };
    proof {
        crate::chars::lemma_find_from_bounds(v@, dot_pat@, 0);
    }
    assert(find_from(v@, dot_pat@, 0) == Some(d as int));
    let n = v.len();
    assert(d + 1 <= n);
    let rest = crate::chars::sub_chars(&v, d + 1, n);
    assert(v@.subrange(d + 1, v.len() as int) =~= v@.skip(d + 1));
    Some(string_of(&rest))
}

/// The value saved under `key` (its first entry).
pub open spec fn saved_value(saved: Seq<(String, u64)>, key: Seq<char>) -> Option<u64> {
    match first_index(saved.map_values(|e: (String, u64)| e.0@), key) {
        Some(k) => Some(saved[k].1),
        None => None,
    }
}

/// The value a RETAIN variable restores to: the one under its key, or,
/// for a file written before the project ran several units, the one
/// under its bare name.
pub open spec fn restored_value(saved: Seq<(String, u64)>, key: Seq<char>) -> Option<u64> {
    match saved_value(saved, key) {
        Some(v) => Some(v),
        None => match legacy_name_of(key) {
            Some(bare) => saved_value(saved, bare),
            None => None,
        },
    }
}

fn saved_lookup(saved: &Vec<(String, u64)>, key: &String) -> (r: Option<u64>)
    ensures
        r == saved_value(saved@, key@),
{
    let ghost keys = saved@.map_values(|e: (String, u64)| e.0@);
    let mut i: usize = 0;
    while i < saved.len()
        invariant
            i <= saved.len(),
            keys == saved@.map_values(|e: (String, u64)| e.0@),
            forall|j: int| 0 <= j < i ==> keys[j] != key@,
        decreases saved.len() - i,
    {
        if saved[i].0 == *key {
            proof {
                crate::text::lemma_first_index_at(keys, key@, i as int);
            }
            return Some(saved[i].1);
        }
        i = i + 1;
    }
    proof {
        crate::text::lemma_first_index_none(keys, key@);
    }
    None
}

pub fn restore_value(saved: &Vec<(String, u64)>, key: &String) -> (r: Option<u64>)
    ensures
        r == restored_value(saved@, key@),
{
    match saved_lookup(saved, key) {
        Some(v) => Some(v),
        None => match legacy_name(key.as_str()) {
            Some(bare) => saved_lookup(saved, &bare),
            None => None,
        },
    }
}

/// A key of a multi-unit run whose instance name has no dot leads back
/// to the variable's bare name, so a file written while the project had
/// one unit still restores.
pub proof fn legacy_name_of_key(instance: Seq<char>, name: Seq<char>)
    requires
        !instance.contains('.'),
    ensures
        legacy_name_of(retain_key_of(true, instance, name)) == Some(name),
{
    let key = retain_key_of(true, instance, name);
    let n = instance.len() as int;
    assert forall|i: int| 0 <= i < n implies !matches_at_dot(key, i) by {
        if matches_at_dot(key, i) {
            assert(key.subrange(i, i + 1)[0] == key[i]);
            assert(key[i] == instance[i]);
            assert(instance[i] == '.');
        }
    }
    assert(key[n] == '.');
    lemma_find_first_dot(key, 0, n);
    assert(key.skip(n + 1) =~= name);
}

spec fn matches_at_dot(s: Seq<char>, i: int) -> bool {
    crate::chars::matches_at(s, seq!['.'], i)
}

proof fn lemma_find_first_dot(s: Seq<char>, i: int, n: int)
    requires
        0 <= i <= n < s.len(),
        s[n] == '.',
        forall|j: int| i <= j < n ==> !matches_at_dot(s, j),
    ensures
        find_from(s, seq!['.'], i) == Some(n),
    decreases n - i,
{
    let pat = seq!['.'];
    assert(pat.len() == 1);
    if i < n {
        lemma_find_first_dot(s, i + 1, n);
        assert(!matches_at_dot(s, i));
    } else {
        assert(s.subrange(n, n + 1) =~= pat);
        assert(crate::chars::matches_at(s, pat, n));
    }
}

} // verus!
