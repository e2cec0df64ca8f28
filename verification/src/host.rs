//! The edge host's inventory as the runtime reports it: its network
//! interfaces, sorted by name, and its serial ports, sorted and each once.
//! The files and directory entries are read by the caller.
use vstd::prelude::*;

use crate::chars::{starts_with, trim};
use crate::store::{insert_by_key, sort_by_key};
use crate::text::{chars_of, insert_sorted_string, sort_dedup, str_lt, string_of, views};

verus! {

/// One network interface.
#[derive(Debug, Clone)]
pub struct Nic {
    pub name: String,
    pub mac: String,
    /// Operational state: `up`, `down`, `unknown`, ...
    pub operstate: String,
    /// Whether media is connected.
    pub carrier: bool,
}

#[derive(Debug, Clone)]
pub struct SystemInfo {
    pub arch: String,
    pub os: String,
    pub nics: Vec<Nic>,
    pub serial_ports: Vec<String>,
}

pub open spec fn nic_view(n: Nic) -> (Seq<char>, Seq<char>, Seq<char>, bool) {
    (n.name@, n.mac@, n.operstate@, n.carrier)
}

pub open spec fn nic_views(s: Seq<Nic>) -> Seq<(Seq<char>, Seq<char>, Seq<char>, bool)> {
    s.map_values(|n: Nic| nic_view(n))
}

pub open spec fn nic_key() -> spec_fn((Seq<char>, Seq<char>, Seq<char>, bool)) -> Seq<char> {
    |n: (Seq<char>, Seq<char>, Seq<char>, bool)| n.0
}

fn trimmed(s: &str) -> (r: String)
    ensures
        r@ == trim(s@),
{
    string_of(&crate::chars::trim_chars(&chars_of(s)))
}

/// An interface from the contents of its `address`, `operstate` and
/// `carrier` files: each trimmed, and connected when the carrier reads 1.
pub fn nic_from_files(name: String, address: &str, operstate: &str, carrier: &str) -> (n: Nic)
    ensures
        n.name@ == name@,
        n.mac@ == trim(address@),
        n.operstate@ == trim(operstate@),
        n.carrier == (trim(carrier@) == "1"@),
{
    let c = trimmed(carrier);
    Nic {
        name,
        mac: trimmed(address),
        operstate: trimmed(operstate),
        carrier: c == String::from_str("1"),
    }
}

/// Whether a `/dev` entry is a serial port worth offering: a USB serial
/// adapter or a macOS call-out device.
pub open spec fn is_serial_port(name: Seq<char>) -> bool {
    starts_with(name, "ttyUSB"@) || starts_with(name, "ttyACM"@) || starts_with(name, "cu."@)
}

fn has_prefix(name: &String, p: &str) -> (r: bool)
    ensures
        r == starts_with(name@, p@),
{
    crate::chars::starts_with_chars(&chars_of(name.as_str()), &chars_of(p))
}

/// The serial ports among the entries of `/dev`, as `/dev/<name>`.
pub open spec fn serial_paths(entries: Seq<Seq<char>>) -> Seq<Seq<char>>
    decreases entries.len(),
{
    if entries.len() == 0 {
        Seq::empty()
    } else {
        let rest = serial_paths(entries.drop_last());
        if is_serial_port(entries.last()) {
            rest.push("/dev/"@ + entries.last())
        } else {
            rest
        }
    }
}

fn insert_nic(v: &mut Vec<Nic>, a: Nic)
    ensures
        nic_views(final(v)@) == insert_by_key(nic_views(old(v)@), nic_view(a), nic_key()),
{
    let ghost old_views = nic_views(v@);
    let ghost av = nic_view(a);
    let mut i: usize = 0;
    assert(old_views.skip(0) =~= old_views);
    assert(old_views.take(0) + insert_by_key(old_views, av, nic_key()) =~= insert_by_key(
        old_views,
        av,
        nic_key(),
    ));
    while i < v.len()
        invariant
            i <= v.len(),
            v@ == old(v)@,
            old_views == nic_views(v@),
            av == nic_view(a),
            insert_by_key(old_views, av, nic_key()) == old_views.take(i as int) + insert_by_key(
                old_views.skip(i as int),
                av,
                nic_key(),
            ),
        decreases v.len() - i,
    {
        let ghost rest = old_views.skip(i as int);
        assert(rest[0] == nic_view(v@[i as int]));
        if str_lt(a.name.as_str(), v[i].name.as_str()) {
            v.insert(i, a);
            proof {
                assert(nic_views(v@) =~= old_views.take(i as int) + (seq![av] + rest));
            }
            return;
        }
        assert(rest.drop_first() =~= old_views.skip(i + 1));
        assert(old_views.take(i as int) + (seq![rest[0]] + insert_by_key(
            rest.drop_first(),
            av,
            nic_key(),
        )) =~= old_views.take(i + 1) + insert_by_key(old_views.skip(i + 1), av, nic_key()));
        i = i + 1;
    }
    v.push(a);
    proof {
        assert(old_views.skip(i as int) =~= Seq::<(Seq<char>, Seq<char>, Seq<char>, bool)>::empty());
        assert(nic_views(v@) =~= old_views.take(i as int) + seq![av]);
    }
}

/// The inventory: interfaces stably sorted by name, and the serial ports
/// among the `/dev` entries, sorted and each once.
pub fn system_info(arch: String, os: String, nics: Vec<Nic>, dev_entries: &Vec<String>) -> (s: SystemInfo)
    ensures
        s.arch == arch,
        s.os == os,
        nic_views(s.nics@) == sort_by_key(nic_views(nics@), nic_key()),
        views(s.serial_ports@) == sort_dedup(serial_paths(views(dev_entries@))),
{
    let mut sorted: Vec<Nic> = Vec::new();
    let mut i: usize = 0;
    assert(nic_views(sorted@) =~= sort_by_key(nic_views(nics@).take(0), nic_key()));
    while i < nics.len()
        invariant
            i <= nics.len(),
            nic_views(sorted@) == sort_by_key(nic_views(nics@).take(i as int), nic_key()),
        decreases nics.len() - i,
    {
        assert(nic_views(nics@).take(i + 1).drop_last() =~= nic_views(nics@).take(i as int));
        assert(nic_views(nics@).take(i + 1).last() == nic_view(nics@[i as int]));
        let n = &nics[i];
        let copy = Nic {
            name: n.name.clone(),
            mac: n.mac.clone(),
            operstate: n.operstate.clone(),
            carrier: n.carrier,
        };
        insert_nic(&mut sorted, copy);
        i = i + 1;
    }
    assert(nic_views(nics@).take(nics.len() as int) =~= nic_views(nics@));
    let mut ports: Vec<String> = Vec::new();
    let ghost entries = views(dev_entries@);
    let mut k: usize = 0;
    assert(views(ports@) =~= sort_dedup(serial_paths(entries.take(0))));
    while k < dev_entries.len()
        invariant
            k <= dev_entries.len(),
            entries == views(dev_entries@),
            views(ports@) == sort_dedup(serial_paths(entries.take(k as int))),
        decreases dev_entries.len() - k,
    {
        let n = &dev_entries[k];
        assert(entries.take(k + 1).drop_last() =~= entries.take(k as int));
        assert(entries.take(k + 1).last() == n@);
        if has_prefix(n, "ttyUSB") || has_prefix(n, "ttyACM") || has_prefix(n, "cu.") {
            let mut path = String::from_str("/dev/");
            path.append(n.as_str());
            let ghost before = serial_paths(entries.take(k as int));
            proof {
                crate::text::lemma_sort_dedup_push(before, path@);
            }
            insert_sorted_string(&mut ports, path);
        }
        k = k + 1;
    }
    assert(entries.take(dev_entries.len() as int) =~= entries);
    SystemInfo { arch, os, nics: sorted, serial_ports: ports }
}

} // verus!
