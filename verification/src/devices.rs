//! What the runtime decides about its field devices around the connect
//! calls: the report of each connect, the retry and reconnect schedule,
//! the health it shows for each configured device, and which parked
//! mappings a device that joins late takes over.
use vstd::prelude::*;

use crate::chars::{strip_cr, until_either};
use crate::runtime::{DeviceHealth, DeviceReport, DiscoveredSlave};
use crate::types::Protocol;

verus! {

/// EtherCAT bring-ups tried before a connect counts as failed.
pub const ETHERCAT_CONNECT_ATTEMPTS: u32 = 3;

/// Pause between two EtherCAT bring-up attempts.
pub const ETHERCAT_RETRY_PAUSE_MS: u64 = 800;

/// First wait of the background reconnect loop.
pub const RECONNECT_BACKOFF_START_MS: u64 = 1_000;

/// Longest wait of the background reconnect loop.
pub const RECONNECT_BACKOFF_CAP_MS: u64 = 30_000;

/// The name a protocol is reported under.
pub open spec fn protocol_label(p: Protocol) -> Seq<char> {
    match p {
        Protocol::Modbus => "modbus"@,
        Protocol::Ethercat => "ethercat"@,
        Protocol::Opcua => "opcua"@,
        Protocol::Canopen => "canopen"@,
    }
}

pub fn protocol_name(p: Protocol) -> (s: String)
    ensures
        s@ == protocol_label(p),
{
    match p {
        Protocol::Modbus => String::from_str("modbus"),
        Protocol::Ethercat => String::from_str("ethercat"),
        Protocol::Opcua => String::from_str("opcua"),
        Protocol::Canopen => String::from_str("canopen"),
    }
}

/// The first line of a message, without a trailing carriage return.
pub open spec fn first_line(s: Seq<char>) -> Seq<char> {
    strip_cr(until_either(s, '\n', '\n'))
}

/// The report of one connect: the bus topology when an EtherCAT bring-up
/// succeeded (other protocols have no slaves to report), the first line of
/// the error when it failed.
pub fn connect_report(name: &String, protocol: Protocol, outcome: Result<Vec<DiscoveredSlave>, String>) -> (r:
    DeviceReport)
    ensures
        r.name@ == name@,
        r.protocol@ == protocol_label(protocol),
        r.connected == outcome is Ok,
        outcome is Ok ==> r.error is None && (if protocol == Protocol::Ethercat {
            r.slaves == outcome->Ok_0
        } else {
            r.slaves@.len() == 0
        }),
        outcome matches Err(e) ==> (r.error matches Some(m) && m@ == first_line(e@)) && r.slaves@.len()
            == 0,
{
    match outcome {
        Ok(slaves) => DeviceReport {
            name: name.clone(),
            protocol: protocol_name(protocol),
            connected: true,
            error: None,
            slaves: if protocol == Protocol::Ethercat {
                slaves
            } else {
                Vec::new()
            },
        },
        Err(e) => {
            let v = crate::text::chars_of(e.as_str());
            let line = crate::chars::until_either_chars(&v, '\n', '\n');
            let mut cut = line.len();
            if cut > 0 && line[cut - 1] == '\r' {
                cut = cut - 1;
            }
            let first = crate::chars::sub_chars(&line, 0, cut);
            assert(first@ =~= strip_cr(line@));
            DeviceReport {
                name: name.clone(),
                protocol: protocol_name(protocol),
                connected: false,
                error: Some(crate::text::string_of(&first)),
                slaves: Vec::new(),
            }
        },
    }
}

/// Whether a failed EtherCAT bring-up is tried again: attempts are
/// counted from 1.
pub fn retry_ethercat(attempt: u32) -> (r: bool)
    ensures
        r == (attempt < ETHERCAT_CONNECT_ATTEMPTS),
{
    attempt < ETHERCAT_CONNECT_ATTEMPTS
}

/// The wait after a reconnect round: doubled, up to the cap.
pub open spec fn next_backoff(ms: u64) -> u64 {
    if 2 * ms < RECONNECT_BACKOFF_CAP_MS {
        (2 * ms) as u64
    } else {
        RECONNECT_BACKOFF_CAP_MS
    }
}

pub fn next_backoff_ms(ms: u64) -> (r: u64)
    ensures
        r == next_backoff(ms),
{
    if ms < RECONNECT_BACKOFF_CAP_MS / 2 {
        ms * 2
    } else {
        RECONNECT_BACKOFF_CAP_MS
    }
}

/// The wait before reconnect round `k` (rounds counted from 0).
pub open spec fn backoff_at(k: nat) -> u64
    decreases k,
{
    if k == 0 {
        RECONNECT_BACKOFF_START_MS
    } else {
        next_backoff(backoff_at((k - 1) as nat))
    }
}

/// The reconnect waits never shrink and never pass the cap, and from the
/// sixth round on they stay at the cap.
pub proof fn backoff_grows_to_cap(k: nat)
    ensures
        RECONNECT_BACKOFF_START_MS <= backoff_at(k) <= RECONNECT_BACKOFF_CAP_MS,
        backoff_at(k) <= backoff_at(k + 1),
        k >= 5 ==> backoff_at(k) == RECONNECT_BACKOFF_CAP_MS,
    decreases k,
{
    if k > 0 {
        backoff_grows_to_cap((k - 1) as nat);
    }
    if k <= 5 {
        reveal_with_fuel(backoff_at, 7);
    }
}

/// A device's health when the run starts: connected and reported healthy
/// by its adapter. `live` holds the adapters' names and health flags.
pub open spec fn seeded_health(r: DeviceReport, live: Seq<(String, bool)>) -> bool {
    r.connected && match first_named(live, r.name@) {
        Some(k) => live[k].1,
        None => false,
    }
}

/// The first entry of `live` with the given name.
pub open spec fn first_named(live: Seq<(String, bool)>, name: Seq<char>) -> Option<int> {
    crate::text::first_index(live.map_values(|e: (String, bool)| e.0@), name)
}

fn find_named(live: &Vec<(String, bool)>, name: &String) -> (r: Option<usize>)
    ensures
        match r {
            Some(k) => first_named(live@, name@) == Some(k as int) && k < live@.len(),
            None => first_named(live@, name@) is None,
        },
{
    let ghost keys = live@.map_values(|e: (String, bool)| e.0@);
    let mut i: usize = 0;
    while i < live.len()
        invariant
            i <= live.len(),
            keys == live@.map_values(|e: (String, bool)| e.0@),
            forall|j: int| 0 <= j < i ==> keys[j] != name@,
        decreases live.len() - i,
    {
        if live[i].0 == *name {
            proof {
                crate::text::lemma_first_index_at(keys, name@, i as int);
            }
            return Some(i);
        }
        i = i + 1;
    }
    proof {
        crate::text::lemma_first_index_none(keys, name@);
    }
    None
}

/// The health shown for every configured device at the start of a run,
/// in report order.
pub fn initial_health(reports: &Vec<DeviceReport>, live: &Vec<(String, bool)>) -> (r: Vec<DeviceHealth>)
    ensures
        r@.len() == reports@.len(),
        forall|i: int|
            0 <= i < reports@.len() ==> r@[i].name@ == reports@[i].name@ && r@[i].healthy
                == seeded_health(#[trigger] reports@[i], live@),
{
    let mut out: Vec<DeviceHealth> = Vec::new();
    let mut i: usize = 0;
    while i < reports.len()
        invariant
            i <= reports@.len(),
            out@.len() == i,
            forall|j: int|
                0 <= j < i ==> out@[j].name@ == reports@[j].name@ && out@[j].healthy == seeded_health(
                    #[trigger] reports@[j],
                    live@,
                ),
        decreases reports@.len() - i,
    {
        let r = &reports[i];
        let healthy = r.connected && match find_named(live, &r.name) {
            Some(k) => live[k].1,
            None => false,
        };
        out.push(DeviceHealth { name: r.name.clone(), healthy });
        i = i + 1;
    }
    out
}

/// The health after a round: each entry whose device is live takes that
/// device's flag; the others keep theirs.
pub fn refresh_health(health: &mut Vec<DeviceHealth>, live: &Vec<(String, bool)>)
    ensures
        final(health)@.len() == old(health)@.len(),
        forall|i: int|
            0 <= i < old(health)@.len() ==> (#[trigger] final(health)@[i]).name@ == old(health)@[i].name@
                && final(health)@[i].healthy == match first_named(live@, old(health)@[i].name@) {
                Some(k) => live@[k].1,
                None => old(health)@[i].healthy,
            },
{
    let mut i: usize = 0;
    while i < health.len()
        invariant
            i <= health@.len(),
            health@.len() == old(health)@.len(),
            forall|j: int|
                0 <= j < i ==> (#[trigger] health@[j]).name@ == old(health)@[j].name@ && health@[j].healthy
                    == match first_named(live@, old(health)@[j].name@) {
                    Some(k) => live@[k].1,
                    None => old(health)@[j].healthy,
                },
            forall|j: int| i <= j < health@.len() ==> health@[j] == old(health)@[j],
        decreases health@.len() - i,
    {
        match find_named(live, &health[i].name) {
            Some(k) => {
                let entry = DeviceHealth { name: health[i].name.clone(), healthy: live[k].1 };
                health.set(i, entry);
            },
            None => {},
        }
        i = i + 1;
    }
}

/// Records a successful reconnect: the first report with the device's
/// name becomes the new one; the others stay.
pub fn replace_report(reports: &mut Vec<DeviceReport>, report: DeviceReport)
    ensures
        final(reports)@.len() == old(reports)@.len(),
        match crate::text::first_index(
            old(reports)@.map_values(|r: DeviceReport| r.name@),
            report.name@,
        ) {
            Some(k) => final(reports)@ == old(reports)@.update(k, report),
            None => final(reports)@ == old(reports)@,
        },
{
    let ghost keys = reports@.map_values(|r: DeviceReport| r.name@);
    let mut i: usize = 0;
    while i < reports.len()
        invariant
            i <= reports@.len(),
            reports@ == old(reports)@,
            keys == old(reports)@.map_values(|r: DeviceReport| r.name@),
            forall|j: int| 0 <= j < i ==> keys[j] != report.name@,
        decreases reports@.len() - i,
    {
        if reports[i].name == report.name {
            proof {
                crate::text::lemma_first_index_at(keys, report.name@, i as int);
            }
            reports.set(i, report);
            return;
        }
        i = i + 1;
    }
    proof {
        crate::text::lemma_first_index_none(keys, report.name@);
    }
}

} // verus!
