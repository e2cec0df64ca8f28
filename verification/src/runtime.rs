//! The scan runtime's reporting types and the decisions it makes between
//! scans: the execution mode, name resolution for variable writes, the
//! merged scan counter and the rendering of STRING slots.
use vstd::prelude::*;

use crate::chars::{find_from, lower_seq};
use crate::text::{chars_of, contains_string, first_index, index_of_string, push_char, string_of, views};

verus! {

/// One variable in a monitor snapshot.
#[derive(Debug, Clone)]
pub struct VarValue {
    pub name: String,
    pub iec_type: String,
    /// Display text: `12.5`, `16#1637`, `TRUE`, `'text'`.
    pub value: String,
    /// The raw 64-bit VM slot the text was formatted from.
    pub bits: u64,
}

#[derive(Debug, Clone)]
pub struct VarSnapshot {
    pub timestamp_us: u64,
    pub scan_count: u64,
    pub vars: Vec<VarValue>,
}

/// One EtherCAT subdevice found on the bus.
#[derive(Debug, Clone)]
pub struct DiscoveredSlave {
    pub index: u16,
    pub name: String,
    pub vendor_id: u32,
    pub product_id: u32,
    pub input_bytes: u16,
    pub output_bytes: u16,
}

/// Outcome of connecting one device, with the bus topology for EtherCAT.
#[derive(Debug, Clone)]
pub struct DeviceReport {
    pub name: String,
    pub protocol: String,
    pub connected: bool,
    /// First line of the connect error when not connected.
    pub error: Option<String>,
    pub slaves: Vec<DiscoveredSlave>,
}

/// Live transport health of one device.
#[derive(Debug, Clone)]
pub struct DeviceHealth {
    pub name: String,
    pub healthy: bool,
}

/// Why a variable write cannot be honoured.
#[derive(Debug, Clone)]
pub enum RuntimeWriteError {
    UnknownVariable(String),
    Disconnected,
    Vm(String),
    /// The variable name followed by the reason in parentheses.
    GovernanceDenied(String),
}

pub open spec fn write_error_text(e: RuntimeWriteError) -> Seq<char> {
    match e {
        RuntimeWriteError::UnknownVariable(n) => "unknown variable '"@ + n@
            + "' \u{2014} not in the program's debug map"@,
        RuntimeWriteError::Disconnected => "scan loop has stopped \u{2014} no writes will reach the VM"@,
        RuntimeWriteError::Vm(m) => "vm trap during write: "@ + m@,
        RuntimeWriteError::GovernanceDenied(n) => "write to '"@ + n@
            + "' rejected by project governance"@,
    }
}

impl RuntimeWriteError {
    /// The error's message.
    pub fn message(&self) -> (r: String)
        ensures
            r@ == write_error_text(*self),
    {
        match self {
            RuntimeWriteError::UnknownVariable(n) => {
                let mut s = String::from_str("unknown variable '");
                s.append(n.as_str());
                s.append("' \u{2014} not in the program's debug map");
                s
            },
            RuntimeWriteError::Disconnected => String::from_str(
                "scan loop has stopped \u{2014} no writes will reach the VM",
            ),
            RuntimeWriteError::Vm(m) => {
                let mut s = String::from_str("vm trap during write: ");
                s.append(m.as_str());
                s
            },
            RuntimeWriteError::GovernanceDenied(n) => {
                let mut s = String::from_str("write to '");
                s.append(n.as_str());
                s.append("' rejected by project governance");
                s
            },
        }
    }
}

/// How the scan loop runs.
#[derive(Debug, Clone, Copy, PartialEq, Eq, Structural)]
pub enum RuntimeMode {
    /// Scan continuously.
    Running,
    /// Skip every scan: no inputs read, no program step, no outputs.
    Paused,
    /// Run `remaining` more ticks, then pause.
    Step { remaining: u32 },
}

impl RuntimeMode {
    /// The mode a `step(cycles)` request sets: pause for zero cycles.
    pub fn stepping(cycles: u32) -> (m: RuntimeMode)
        ensures
            m == (if cycles == 0 {
                RuntimeMode::Paused
            } else {
                RuntimeMode::Step { remaining: cycles }
            }),
    {
        if cycles == 0 {
            RuntimeMode::Paused
        } else {
            RuntimeMode::Step { remaining: cycles }
        }
    }

    /// Whether units run in this tick.
    pub fn runs_scans(self) -> (r: bool)
        ensures
            r == !(self is Paused),
    {
        !matches!(self, RuntimeMode::Paused)
    }

    /// The mode after a tick: a step counts down once per tick in which a
    /// unit ran and turns into a pause at its last tick.
    pub fn after_tick(self, ran_any: bool) -> (m: RuntimeMode)
        ensures
            m == next_mode(self, ran_any),
    {
        if ran_any {
            match self {
                RuntimeMode::Step { remaining } => {
                    if remaining <= 1 {
                        RuntimeMode::Paused
                    } else {
                        RuntimeMode::Step { remaining: remaining - 1 }
                    }
                },
                _ => self,
            }
        } else {
            self
        }
    }
}

pub open spec fn next_mode(m: RuntimeMode, ran_any: bool) -> RuntimeMode {
    match m {
        RuntimeMode::Step { remaining } => if !ran_any {
            m
        } else if remaining <= 1 {
            RuntimeMode::Paused
        } else {
            RuntimeMode::Step { remaining: (remaining - 1) as u32 }
        },
        _ => m,
    }
}

/// The mode after `k` ticks in each of which a unit ran.
pub open spec fn after_ticks(m: RuntimeMode, k: nat) -> RuntimeMode
    decreases k,
{
    if k == 0 {
        m
    } else {
        next_mode(after_ticks(m, (k - 1) as nat), true)
    }
}

/// `step(n)` runs exactly `n` ticks: after `k < n` ticks `n - k` remain,
/// after `n` ticks the loop is paused, and it stays paused.
pub proof fn step_runs_exactly(n: u32, k: nat)
    requires
        n > 0,
    ensures
        k < n ==> after_ticks(RuntimeMode::Step { remaining: n }, k) == (RuntimeMode::Step {
            remaining: (n - k) as u32,
        }),
        k >= n ==> after_ticks(RuntimeMode::Step { remaining: n }, k) == RuntimeMode::Paused,
    decreases k,
{
    if k > 0 {
        step_runs_exactly(n, (k - 1) as nat);
    }
}

/// The merged snapshot's scan count: the largest count of any unit, 0
/// with no unit.
pub fn max_scan_count(counts: &[u64]) -> (r: u64)
    ensures
        counts@.len() == 0 ==> r == 0,
        counts@.len() > 0 ==> counts@.contains(r),
        forall|i: int| 0 <= i < counts@.len() ==> counts@[i] <= r,
{
    let mut best: u64 = 0;
    let mut i: usize = 0;
    while i < counts.len()
        invariant
            i <= counts@.len(),
            forall|j: int| 0 <= j < i ==> counts@[j] <= best,
            i == 0 ==> best == 0,
            i > 0 ==> counts@.take(i as int).contains(best),
        decreases counts@.len() - i,
    {
        if counts[i] >= best {
            best = counts[i];
            assert(counts@.take(i + 1)[i as int] == best);
        } else {
            let ghost k = choose|k: int| 0 <= k < counts@.take(i as int).len() && counts@.take(i as int)[k] == best;
            assert(counts@.take(i + 1)[k] == best);
        }
        i = i + 1;
    }
    assert(counts@.take(counts@.len() as int) =~= counts@);
    best
}

// ----- STRING slots -----

pub open spec fn hex_digit(n: int) -> char {
    if n < 10 {
        (48 + n) as char
    } else {
        (55 + n) as char
    }
}

/// One byte of an IEC string literal: `$`-escapes for `$`, `'`, tab,
/// line feed, form feed and carriage return, printable ASCII as itself,
/// anything else as `$` and two upper-case hex digits.
pub open spec fn iec_byte(b: u8) -> Seq<char> {
    if b == 0x24 {
        "$$"@
    } else if b == 0x27 {
        "$'"@
    } else if b == 0x09 {
        "$T"@
    } else if b == 0x0A {
        "$L"@
    } else if b == 0x0C {
        "$P"@
    } else if b == 0x0D {
        "$R"@
    } else if 0x20 <= b <= 0x7E {
        seq![b as char]
    } else {
        seq!['$', hex_digit(b as int / 16), hex_digit(b as int % 16)]
    }
}

pub open spec fn iec_bytes(bs: Seq<u8>) -> Seq<char>
    decreases bs.len(),
{
    if bs.len() == 0 {
        Seq::empty()
    } else {
        iec_bytes(bs.drop_last()) + iec_byte(bs.last())
    }
}

/// The bytes of a STRING as a single-quoted IEC literal.
pub open spec fn iec_string_literal(bs: Seq<u8>) -> Seq<char> {
    seq!['\''] + iec_bytes(bs) + seq!['\'']
}

fn hex_char(n: u8) -> (c: char)
    requires
        n < 16,
    ensures
        c == hex_digit(n as int),
{
    if n < 10 {
        (48u8 + n) as char
    } else {
        (55u8 + n) as char
    }
}

pub fn format_iec_string_literal(bytes: &[u8]) -> (s: String)
    ensures
        s@ == iec_string_literal(bytes@),
{
    let mut out = String::new();
    push_char(&mut out, '\'');
    let ghost head = out@;
    let mut i: usize = 0;
    while i < bytes.len()
        invariant
            i <= bytes@.len(),
            head == seq!['\''],
            out@ == head + iec_bytes(bytes@.take(i as int)),
        decreases bytes@.len() - i,
    {
        let b = bytes[i];
        let ghost before = out@;
        assert(bytes@.take(i + 1).drop_last() =~= bytes@.take(i as int));
        assert(bytes@.take(i + 1).last() == b);
        if b == 0x24 {
            out.append("$$");
        } else if b == 0x27 {
            out.append("$'");
        } else if b == 0x09 {
            out.append("$T");
        } else if b == 0x0A {
            out.append("$L");
        } else if b == 0x0C {
            out.append("$P");
        } else if b == 0x0D {
            out.append("$R");
        } else if 0x20 <= b && b <= 0x7E {
            push_char(&mut out, b as char);
        } else {
            push_char(&mut out, '$');
            push_char(&mut out, hex_char(b / 16));
            push_char(&mut out, hex_char(b % 16));
            assert(out@ =~= before + seq!['$', hex_digit(b as int / 16), hex_digit(b as int % 16)]);
        }
        assert(out@ =~= before + iec_byte(b));
        i = i + 1;
    }
    assert(bytes@.take(bytes@.len() as int) =~= bytes@);
    push_char(&mut out, '\'');
    out
}

/// Size of a STRING slot's header: `[max_len: u16][cur_len: u16]`.
pub const STRING_HEADER_BYTES: usize = 4;

/// The literal of the STRING whose slot starts at `data_offset`: a
/// little-endian `cur_len` at offset 2 and `cur_len` bytes after the
/// header. `None` when the header or the text would run past the region.
pub open spec fn string_value(region: Seq<u8>, data_offset: u32) -> Option<Seq<char>> {
    let off = data_offset as int;
    if off + 4 > region.len() {
        None
    } else {
        let cur_len = region[off + 2] as int + 256 * region[off + 3] as int;
        let start = off + 4;
        if start + cur_len > region.len() {
            None
        } else {
            Some(iec_string_literal(region.subrange(start, start + cur_len)))
        }
    }
}

pub fn read_string_value(data_region: &[u8], data_offset: u32) -> (r: Option<String>)
    ensures
        match r {
            Some(s) => string_value(data_region@, data_offset) == Some(s@),
            None => string_value(data_region@, data_offset) is None,
        },
{
    let len = data_region.len();
    let off = data_offset as usize;
    if len < STRING_HEADER_BYTES || off > len - STRING_HEADER_BYTES {
        return None;
    }
    let cur_len: usize = data_region[off + 2] as usize + 256 * (data_region[off + 3] as usize);
    let start = off + STRING_HEADER_BYTES;
    if cur_len > len - start {
        return None;
    }
    let end = start + cur_len;
    let mut text: Vec<u8> = Vec::new();
    let mut i: usize = start;
    while i < end
        invariant
            start <= i <= end <= data_region@.len(),
            text@ == data_region@.subrange(start as int, i as int),
        decreases end - i,
    {
        text.push(data_region[i]);
        assert(data_region@.subrange(start as int, i + 1) =~= data_region@.subrange(
            start as int,
            i as int,
        ).push(data_region@[i as int]));
        i = i + 1;
    }
    Some(format_iec_string_literal(text.as_slice()))
}

// ----- Variable names -----

/// The index a unit's debug map gives a variable name (its first entry).
pub open spec fn index_in(m: Seq<(String, u16)>, name: Seq<char>) -> Option<u16> {
    match first_index(m.map_values(|e: (String, u16)| e.0@), name) {
        Some(k) => Some(m[k].1),
        None => None,
    }
}

/// The first unit, with the index, whose map has `name`.
pub open spec fn bare_lookup(maps: Seq<Vec<(String, u16)>>, name: Seq<char>, k: int) -> Option<
    (int, u16),
>
    decreases k,
{
    if k <= 0 {
        None
    } else {
        match bare_lookup(maps, name, k - 1) {
            Some(r) => Some(r),
            None => match index_in(maps[k - 1]@, name) {
                Some(idx) => Some((k - 1, idx)),
                None => None,
            },
        }
    }
}

/// Resolves a variable name to (unit, index): a bare name in the first
/// unit that declares it; otherwise `instance.variable`, with the
/// instance matched ignoring ASCII case.
pub open spec fn resolve(
    name: Seq<char>,
    instances: Seq<Seq<char>>,
    maps: Seq<Vec<(String, u16)>>,
) -> Option<(int, u16)> {
    match bare_lookup(maps, name, maps.len() as int) {
        Some(r) => Some(r),
        None => match find_from(name, seq!['.'], 0) {
            None => None,
            Some(dot) => match first_index(
                instances.map_values(|i: Seq<char>| lower_seq(i)),
                lower_seq(name.take(dot)),
            ) {
                None => None,
                Some(i) => match index_in(maps[i]@, name.skip(dot + 1)) {
                    Some(idx) => Some((i, idx)),
                    None => None,
                },
            },
        },
    }
}

fn index_in_map(m: &Vec<(String, u16)>, name: &String) -> (r: Option<u16>)
    ensures
        r == index_in(m@, name@),
{
    let ghost keys = m@.map_values(|e: (String, u16)| e.0@);
    let mut i: usize = 0;
    while i < m.len()
        invariant
            i <= m.len(),
            keys == m@.map_values(|e: (String, u16)| e.0@),
            forall|j: int| 0 <= j < i ==> keys[j] != name@,
        decreases m.len() - i,
    {
        if m[i].0 == *name {
            proof {
                crate::text::lemma_first_index_at(keys, name@, i as int);
            }
            return Some(m[i].1);
        }
        i = i + 1;
    }
    proof {
        crate::text::lemma_first_index_none(keys, name@);
    }
    None
}

pub fn resolve_var(name: &str, instances: &Vec<String>, var_index_by_name: &Vec<Vec<(String, u16)>>) -> (r: Option<(usize, u16)>)
    requires
        instances@.len() == var_index_by_name@.len(),
    ensures
        match r {
            Some((i, idx)) => resolve(name@, views(instances@), var_index_by_name@) == Some(
                (i as int, idx),
            ),
            None => resolve(name@, views(instances@), var_index_by_name@) is None,
        },
{
    let ghost maps = var_index_by_name@;
    let key = name.to_string();
    let mut i: usize = 0;
    while i < var_index_by_name.len()
        invariant
            i <= var_index_by_name.len(),
            maps == var_index_by_name@,
            key@ == name@,
            bare_lookup(maps, name@, i as int) is None,
        decreases var_index_by_name.len() - i,
    {
        match index_in_map(&var_index_by_name[i], &key) {
            Some(idx) => {
                assert(bare_lookup(maps, name@, i + 1) == Some((i as int, idx)));
                proof {
                    lemma_bare_lookup_settled(maps, name@, i + 1, maps.len() as int);
                }
                return Some((i, idx));
            },
            None => {},
        }
        i = i + 1;
    }
    let v = chars_of(name);
    let dot_pat: Vec<char> = vec!['.'];
    assert(dot_pat@ =~= seq!['.']);
    let dot = match crate::chars::find_chars(&v, &dot_pat, 0) {
        Some(d) => d,
        None => {
            return None;
        },
    };
    proof {
        crate::chars::lemma_find_from_bounds(v@, dot_pat@, 0);
    }
    let prefix_chars = crate::chars::lower_chars(&crate::chars::sub_chars(&v, 0, dot));
    let prefix = string_of(&prefix_chars);
    assert(v@.subrange(0, dot as int) =~= v@.take(dot as int));
    assert(prefix@ == lower_seq(name@.take(dot as int)));
    let rest = string_of(&crate::chars::sub_chars(&v, dot + 1, v.len()));
    assert(v@.subrange(dot + 1, v.len() as int) =~= v@.skip(dot + 1));
    let ghost lowered = views(instances@).map_values(|i: Seq<char>| lower_seq(i));
    let mut k: usize = 0;
    while k < instances.len()
        invariant
            k <= instances.len(),
            lowered == views(instances@).map_values(|i: Seq<char>| lower_seq(i)),
            forall|j: int| 0 <= j < k ==> lowered[j] != prefix@,
            instances@.len() == var_index_by_name@.len(),
            maps == var_index_by_name@,
            bare_lookup(maps, name@, maps.len() as int) is None,
            find_from(name@, seq!['.'], 0) == Some(dot as int),
            prefix@ == lower_seq(name@.take(dot as int)),
            rest@ == name@.skip(dot + 1),
        decreases instances.len() - k,
    {
        let lk = string_of(&crate::chars::lower_chars(&chars_of(instances[k].as_str())));
        assert(lowered[k as int] == lk@);
        if lk == prefix {
            proof {
                crate::text::lemma_first_index_at(lowered, prefix@, k as int);
            }
            return match index_in_map(&var_index_by_name[k], &rest) {
                Some(idx) => Some((k, idx)),
                None => None,
            };
        }
        k = k + 1;
    }
    proof {
        crate::text::lemma_first_index_none(lowered, prefix@);
    }
    None
}

proof fn lemma_bare_lookup_settled(maps: Seq<Vec<(String, u16)>>, name: Seq<char>, k: int, n: int)
    requires
        0 <= k <= n,
        bare_lookup(maps, name, k) is Some,
    ensures
        bare_lookup(maps, name, n) == bare_lookup(maps, name, k),
    decreases n - k,
{
    if k < n {
        lemma_bare_lookup_settled(maps, name, k, n - 1);
    }
}


// ----- Names across units -----

/// Whether unit `u` declares `name`.
pub open spec fn declares(maps: Seq<Vec<(String, u16)>>, u: int, name: Seq<char>) -> bool {
    index_in(maps[u]@, name) is Some
}

/// Whether more than one unit declares `name`; such names are shown as
/// `instance.variable` in snapshots.
pub open spec fn is_shared(maps: Seq<Vec<(String, u16)>>, name: Seq<char>) -> bool {
    exists|a: int, b: int|
        0 <= a < b < maps.len() && #[trigger] declares(maps, a, name) && #[trigger] declares(
            maps,
            b,
            name,
        )
}

fn declared_after(maps: &Vec<Vec<(String, u16)>>, a: usize, name: &String) -> (r: bool)
    requires
        a < maps@.len(),
    ensures
        r == exists|b: int| a < b < maps@.len() && #[trigger] declares(maps@, b, name@),
{
    let n = maps.len();
    let mut b: usize = a + 1;
    while b < n
        invariant
            a < b <= maps@.len(),
            n == maps@.len(),
            forall|c: int| a < c < b ==> !#[trigger] declares(maps@, c, name@),
        decreases maps@.len() - b,
    {
        if index_in_map(&maps[b], name).is_some() {
            assert(declares(maps@, b as int, name@));
            return true;
        }
        b = b + 1;
    }
    false
}

/// The names that more than one unit declares, each once.
pub fn shared_names(maps: &Vec<Vec<(String, u16)>>) -> (r: Vec<String>)
    ensures
        forall|n: Seq<char>| #[trigger] views(r@).contains(n) <==> is_shared(maps@, n),
        views(r@).no_duplicates(),
{
    let mut r: Vec<String> = Vec::new();
    let mut a: usize = 0;
    while a < maps.len()
        invariant
            a <= maps@.len(),
            views(r@).no_duplicates(),
            forall|n: Seq<char>| #[trigger] views(r@).contains(n) ==> is_shared(maps@, n),
            forall|n: Seq<char>, x: int, y: int|
                #![trigger declares(maps@, x, n), declares(maps@, y, n)]
                0 <= x < y < maps@.len() && x < a && declares(maps@, x, n) && declares(maps@, y, n)
                    ==> views(r@).contains(n),
        decreases maps@.len() - a,
    {
        let entries = &maps[a];
        let ghost keys = entries@.map_values(|e: (String, u16)| e.0@);
        let mut k: usize = 0;
        while k < entries.len()
            invariant
                a < maps@.len(),
                entries == maps@[a as int],
                keys == entries@.map_values(|e: (String, u16)| e.0@),
                k <= entries@.len(),
                views(r@).no_duplicates(),
                forall|n: Seq<char>| #[trigger] views(r@).contains(n) ==> is_shared(maps@, n),
                forall|n: Seq<char>, x: int, y: int|
                    #![trigger declares(maps@, x, n), declares(maps@, y, n)]
                    0 <= x < y < maps@.len() && x < a && declares(maps@, x, n) && declares(maps@, y, n)
                        ==> views(r@).contains(n),
                forall|j: int, y: int|
                    #![trigger declares(maps@, y, keys[j])]
                    0 <= j < k && a < y < maps@.len() && declares(maps@, y, keys[j])
                        ==> views(r@).contains(keys[j]),
            decreases entries@.len() - k,
        {
            let name = &entries[k].0;
            assert(keys[k as int] == name@);
            if declared_after(maps, a, name) && !contains_string(&r, name) {
                proof {
                    let y = choose|y: int| a < y < maps@.len() && #[trigger] declares(maps@, y, name@);
                    assert(index_in(maps@[a as int]@, name@) is Some) by {
                        crate::text::lemma_first_index_bounds(keys, name@);
                        if first_index(keys, name@) is None {
                            assert(keys.contains(name@));
                            lemma_first_index_found(keys, name@, k as int);
                        }
                    }
                    assert(declares(maps@, a as int, name@));
                    assert(is_shared(maps@, name@));
                }
                let ghost old_r = r@;
                r.push(name.clone());
                proof {
                    crate::text::lemma_views_push(old_r, r@.last());
                    assert(views(r@) == views(old_r).push(name@));
                    assert forall|m: Seq<char>| #[trigger] views(r@).contains(m) implies is_shared(
                        maps@,
                        m,
                    ) by {
                        if m != name@ {
                            let j = choose|j: int| 0 <= j < views(r@).len() && views(r@)[j] == m;
                            assert(views(old_r)[j] == m);
                            assert(views(old_r).contains(m));
                        }
                    }
                    assert forall|m: Seq<char>| #[trigger] views(old_r).contains(m) implies views(
                        r@,
                    ).contains(m) by {
                        let j = choose|j: int| 0 <= j < views(old_r).len() && views(old_r)[j] == m;
                        assert(views(r@)[j] == m);
                    }
                    assert(views(r@)[views(old_r).len() as int] == name@);
                }
            }
            k = k + 1;
        }
        proof {
            assert forall|n: Seq<char>, x: int, y: int|
                #![trigger declares(maps@, x, n), declares(maps@, y, n)]
                0 <= x < y < maps@.len() && x < a + 1 && declares(maps@, x, n) && declares(maps@, y, n)
                    implies views(r@).contains(n) by {
                if x == a {
                    crate::text::lemma_first_index_bounds(keys, n);
                    let j = first_index(keys, n)->0;
                    assert(keys[j] == n);
                }
            }
        }
        a = a + 1;
    }
    r
}

proof fn lemma_first_index_found(s: Seq<Seq<char>>, x: Seq<char>, k: int)
    requires
        0 <= k < s.len(),
        s[k] == x,
    ensures
        first_index(s, x) is Some,
    decreases k,
{
    if s[0] != x {
        lemma_first_index_found(s.drop_first(), x, k - 1);
    }
}

/// The name a variable has in a merged snapshot.
pub open spec fn snapshot_name_of(shared: bool, instance: Seq<char>, name: Seq<char>) -> Seq<char> {
    if shared {
        instance + seq!['.'] + name
    } else {
        name
    }
}

pub fn snapshot_name(shared: &Vec<String>, instance: &str, name: &String) -> (r: String)
    ensures
        r@ == snapshot_name_of(views(shared@).contains(name@), instance@, name@),
{
    if contains_string(shared, name) {
        let mut r = instance.to_string();
        r.append(".");
        r.append(name.as_str());
        proof {
            reveal_strlit(".");
        }
        r
    } else {
        name.clone()
    }
}


/// The unit an iomap mapping is routed to, with the variable's index:
/// the instance its application names (ignoring ASCII case), which must
/// declare the variable; with no such instance, the first unit that
/// declares the variable.
pub open spec fn route(
    application: Seq<char>,
    variable: Seq<char>,
    instances: Seq<Seq<char>>,
    maps: Seq<Vec<(String, u16)>>,
) -> Option<(int, u16)> {
    match first_index(instances.map_values(|i: Seq<char>| lower_seq(i)), lower_seq(application)) {
        Some(i) => match index_in(maps[i]@, variable) {
            Some(idx) => Some((i, idx)),
            None => None,
        },
        None => bare_lookup(maps, variable, maps.len() as int),
    }
}

pub fn route_mapping(
    application: &str,
    variable: &String,
    instances: &Vec<String>,
    var_index_by_name: &Vec<Vec<(String, u16)>>,
) -> (r: Option<(usize, u16)>)
    requires
        instances@.len() == var_index_by_name@.len(),
    ensures
        match r {
            Some((i, idx)) => route(application@, variable@, views(instances@), var_index_by_name@)
                == Some((i as int, idx)),
            None => route(application@, variable@, views(instances@), var_index_by_name@) is None,
        },
{
    let ghost maps = var_index_by_name@;
    let app = string_of(&crate::chars::lower_chars(&chars_of(application)));
    let ghost lowered = views(instances@).map_values(|i: Seq<char>| lower_seq(i));
    let mut k: usize = 0;
    while k < instances.len()
        invariant
            k <= instances.len(),
            lowered == views(instances@).map_values(|i: Seq<char>| lower_seq(i)),
            forall|j: int| 0 <= j < k ==> lowered[j] != app@,
            app@ == lower_seq(application@),
            instances@.len() == var_index_by_name@.len(),
        decreases instances.len() - k,
    {
        let lk = string_of(&crate::chars::lower_chars(&chars_of(instances[k].as_str())));
        assert(lowered[k as int] == lk@);
        if lk == app {
            proof {
                crate::text::lemma_first_index_at(lowered, app@, k as int);
            }
            return match index_in_map(&var_index_by_name[k], variable) {
                Some(idx) => Some((k, idx)),
                None => None,
            };
        }
        k = k + 1;
    }
    proof {
        crate::text::lemma_first_index_none(lowered, app@);
    }
    let mut i: usize = 0;
    while i < var_index_by_name.len()
        invariant
            i <= var_index_by_name.len(),
            maps == var_index_by_name@,
            bare_lookup(maps, variable@, i as int) is None,
            first_index(
                views(instances@).map_values(|i: Seq<char>| lower_seq(i)),
                lower_seq(application@),
            ) is None,
        decreases var_index_by_name.len() - i,
    {
        match index_in_map(&var_index_by_name[i], variable) {
            Some(idx) => {
                assert(bare_lookup(maps, variable@, i + 1) == Some((i as int, idx)));
                proof {
                    lemma_bare_lookup_settled(maps, variable@, i + 1, maps.len() as int);
                }
                return Some((i, idx));
            },
            None => {},
        }
        i = i + 1;
    }
    None
}


// ----- Merged snapshots -----

/// A snapshot row as plain values: name, type, display text, raw slot.
pub type Row = (Seq<char>, Seq<char>, Seq<char>, u64);

pub open spec fn row_of(v: VarValue) -> Row {
    (v.name@, v.iec_type@, v.value@, v.bits)
}

pub open spec fn rows(vs: Seq<VarValue>) -> Seq<Row> {
    vs.map_values(|v: VarValue| row_of(v))
}

pub open spec fn var_names(vs: Seq<VarValue>) -> Seq<Seq<char>> {
    vs.map_values(|v: VarValue| v.name@)
}

/// A unit's variables with later entries of an already seen name left
/// out: when two POUs of one unit declare the same name, the first slot
/// is shown.
pub open spec fn first_seen(vs: Seq<VarValue>) -> Seq<VarValue>
    decreases vs.len(),
{
    if vs.len() == 0 {
        seq![]
    } else {
        let rest = first_seen(vs.drop_last());
        if var_names(vs.drop_last()).contains(vs.last().name@) {
            rest
        } else {
            rest.push(vs.last())
        }
    }
}

/// One unit's rows in a merged snapshot: first-seen names, prefixed with
/// the instance where the name is shared between units.
pub open spec fn unit_rows(vs: Seq<VarValue>, shared: Seq<Seq<char>>, instance: Seq<char>) -> Seq<Row> {
    first_seen(vs).map_values(
        |v: VarValue| (snapshot_name_of(shared.contains(v.name@), instance, v.name@), v.iec_type@, v.value@, v.bits),
    )
}

/// All units' rows, unit by unit.
pub open spec fn merged_rows(
    per_unit: Seq<Vec<VarValue>>,
    instances: Seq<Seq<char>>,
    shared: Seq<Seq<char>>,
) -> Seq<Row>
    decreases per_unit.len(),
{
    if per_unit.len() == 0 {
        seq![]
    } else {
        merged_rows(per_unit.drop_last(), instances, shared) + unit_rows(
            per_unit.last()@,
            shared,
            instances[per_unit.len() - 1],
        )
    }
}

/// Merges every unit's variables into one snapshot, stamped with the
/// time and the largest scan count of any unit.
pub fn merge_snapshot(
    per_unit: &Vec<Vec<VarValue>>,
    instances: &Vec<String>,
    shared: &Vec<String>,
    timestamp_us: u64,
    scan_counts: &[u64],
) -> (snap: VarSnapshot)
    requires
        instances@.len() == per_unit@.len(),
    ensures
        rows(snap.vars@) == merged_rows(per_unit@, views(instances@), views(shared@)),
        snap.timestamp_us == timestamp_us,
        scan_counts@.len() == 0 ==> snap.scan_count == 0,
        scan_counts@.len() > 0 ==> scan_counts@.contains(snap.scan_count),
        forall|i: int| 0 <= i < scan_counts@.len() ==> scan_counts@[i] <= snap.scan_count,
{
    let mut out: Vec<VarValue> = Vec::new();
    let mut u: usize = 0;
    while u < per_unit.len()
        invariant
            u <= per_unit@.len(),
            instances@.len() == per_unit@.len(),
            rows(out@) == merged_rows(per_unit@.take(u as int), views(instances@), views(shared@)),
        decreases per_unit@.len() - u,
    {
        let entries = &per_unit[u];
        let ghost base = rows(out@);
        let mut seen: Vec<String> = Vec::new();
        let mut k: usize = 0;
        while k < entries.len()
            invariant
                u < per_unit@.len(),
                instances@.len() == per_unit@.len(),
                entries == per_unit@[u as int],
                k <= entries@.len(),
                forall|n: Seq<char>| #[trigger] views(seen@).contains(n) <==> var_names(
                    entries@.take(k as int),
                ).contains(n),
                rows(out@) == base + unit_rows(
                    entries@.take(k as int),
                    views(shared@),
                    views(instances@)[u as int],
                ),
            decreases entries@.len() - k,
        {
            let v = &entries[k];
            let ghost pre = entries@.take(k as int);
            assert(entries@.take(k + 1).drop_last() =~= pre);
            assert(entries@.take(k + 1).last() == *v);
            if !contains_string(&seen, &v.name) {
                let ghost old_seen = seen@;
                seen.push(v.name.clone());
                let name = snapshot_name(shared, instances[u].as_str(), &v.name);
                let row = VarValue {
                    name,
                    iec_type: v.iec_type.clone(),
                    value: v.value.clone(),
                    bits: v.bits,
                };
                let ghost old_out = out@;
                out.push(row);
                proof {
                    crate::text::lemma_views_push(old_seen, seen@.last());
                    assert(var_names(entries@.take(k + 1)) =~= var_names(pre).push(v.name@));
                    assert forall|n: Seq<char>| #[trigger] views(seen@).contains(n) <==> var_names(
                        entries@.take(k + 1),
                    ).contains(n) by {
                        lemma_push_contains(views(old_seen), v.name@, n);
                        lemma_push_contains(var_names(pre), v.name@, n);
                    }
                    assert(rows(out@) =~= rows(old_out).push(row_of(row)));
                    assert(first_seen(entries@.take(k + 1)) == first_seen(pre).push(*v));
                    assert(unit_rows(entries@.take(k + 1), views(shared@), views(instances@)[u as int])
                        =~= unit_rows(pre, views(shared@), views(instances@)[u as int]).push(row_of(row)));
                }
            } else {
                proof {
                    assert(var_names(entries@.take(k + 1)) =~= var_names(pre).push(v.name@));
                    assert forall|n: Seq<char>| #[trigger] views(seen@).contains(n) <==> var_names(
                        entries@.take(k + 1),
                    ).contains(n) by {
                        lemma_push_contains(var_names(pre), v.name@, n);
                    }
                    assert(first_seen(entries@.take(k + 1)) == first_seen(pre));
                }
            }
            k = k + 1;
        }
        proof {
            assert(entries@.take(entries@.len() as int) =~= entries@);
            assert(per_unit@.take(u + 1).drop_last() =~= per_unit@.take(u as int));
            assert(per_unit@.take(u + 1).last() == per_unit@[u as int]);
        }
        u = u + 1;
    }
    assert(per_unit@.take(per_unit@.len() as int) =~= per_unit@);
    VarSnapshot { timestamp_us, scan_count: max_scan_count(scan_counts), vars: out }
}

proof fn lemma_push_contains(s: Seq<Seq<char>>, x: Seq<char>, n: Seq<char>)
    ensures
        s.push(x).contains(n) <==> (s.contains(n) || n == x),
{
    if s.contains(n) {
        let j = choose|j: int| 0 <= j < s.len() && s[j] == n;
        assert(s.push(x)[j] == n);
    }
    if n == x {
        assert(s.push(x)[s.len() as int] == x);
    }
    if s.push(x).contains(n) && n != x {
        let j = choose|j: int| 0 <= j < s.push(x).len() && s.push(x)[j] == n;
        assert(s[j] == n);
    }
}

} // verus!
