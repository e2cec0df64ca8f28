//! Static validation of the IO map against the project's devices.
//!
//! Per mapping: the device exists, the channel exists on it, and the
//! mapping's direction is possible for that channel. On an EtherCAT device
//! a channel is a PDO entry or one of the routes of its gear axes, whose
//! names must be unambiguous. Across mappings: two
//! different variables driving one output is an error; one variable driving
//! several outputs is a warning.
use vstd::prelude::*;

use crate::gear_channels::{
    first_gear_problem, spec_all_gear_names, spec_gear_routes, spec_parameter,
    validate_gear_channel_names, GearReadback,
};
use crate::text::{
    contains_string, decimal, first_index, index_of_string, insert_sorted_string, join, join_strings,
    lemma_first_index_at, lemma_first_index_bounds, lemma_first_index_none, lemma_sort_dedup_push,
    push_decimal, sort_dedup, views,
};
use crate::types::{
    Device, Direction, EthercatConfig, EthercatGear, EthercatPdoDirection, IoMap, Mapping, ModbusChannelKind, OpcuaAccess,
    CanopenAccess, ProtocolConfig, spec_channel_names,
};

verus! {

#[derive(Debug, Clone, Copy, PartialEq, Eq, Structural)]
pub enum IomapIssueSeverity {
    Error,
    Warning,
}

/// One finding; `mapping_index` is the row of `IoMap::mappings` it is about.
#[derive(Debug, Clone)]
pub struct IomapIssue {
    pub severity: IomapIssueSeverity,
    pub mapping_index: usize,
    pub message: String,
}

pub open spec fn issue_view(x: IomapIssue) -> (IomapIssueSeverity, int, Seq<char>) {
    (x.severity, x.mapping_index as int, x.message@)
}

pub fn error(mapping_index: usize, message: String) -> (r: IomapIssue)
    ensures
        r.severity == IomapIssueSeverity::Error,
        r.mapping_index == mapping_index,
        r.message == message,
{
    IomapIssue { severity: IomapIssueSeverity::Error, mapping_index, message }
}

pub fn warning(mapping_index: usize, message: String) -> (r: IomapIssue)
    ensures
        r.severity == IomapIssueSeverity::Warning,
        r.mapping_index == mapping_index,
        r.message == message,
{
    IomapIssue { severity: IomapIssueSeverity::Warning, mapping_index, message }
}

pub open spec fn device_names(ds: Seq<Device>) -> Seq<Seq<char>> {
    ds.map_values(|d: Device| d.name@)
}

pub open spec fn mapping_prefix(m: Mapping) -> Seq<char> {
    "mapping '"@ + m.application@ + "."@ + m.variable@ + "': "@
}

pub open spec fn modbus_kind_name(k: ModbusChannelKind) -> Seq<char> {
    match k {
        ModbusChannelKind::Coil => "Coil"@,
        ModbusChannelKind::DiscreteInput => "DiscreteInput"@,
        ModbusChannelKind::HoldingRegister => "HoldingRegister"@,
        ModbusChannelKind::InputRegister => "InputRegister"@,
    }
}

/// The error, if any, that rules 2 and 3 find for `m` among the channels
/// listed in the configuration `cfg` (PDO entries for EtherCAT).
pub open spec fn spec_listed_channel_issue(m: Mapping, cfg: ProtocolConfig) -> Option<Seq<char>> {
    match first_index(spec_channel_names(cfg), m.channel@) {
        None => Some(
            mapping_prefix(m) + "device '"@ + m.device@ + "' has no channel '"@ + m.channel@
                + "'"@,
        ),
        Some(k) => match cfg {
            ProtocolConfig::Modbus(c) => {
                let kind = c.channels@[k].kind;
                if m.direction == Direction::Output && kind != ModbusChannelKind::Coil && kind
                    != ModbusChannelKind::HoldingRegister {
                    Some(
                        mapping_prefix(m) + "channel '"@ + m.channel@ + "' on Modbus device '"@
                            + m.device@ + "' is a read-only "@ + modbus_kind_name(kind)
                            + "; Output mappings need a Coil or HoldingRegister"@,
                    )
                } else {
                    None
                }
            },
            ProtocolConfig::Ethercat(c) => {
                let d = c.channels@[k].direction;
                if m.direction == Direction::Input && d == EthercatPdoDirection::RxPdo {
                    Some(
                        mapping_prefix(m) + "channel '"@ + m.channel@ + "' on EtherCAT device '"@
                            + m.device@
                            + "' is an RxPDO (controller→device output); Input mappings need a TxPDO channel"@,
                    )
                } else if m.direction == Direction::Output && d == EthercatPdoDirection::TxPdo {
                    Some(
                        mapping_prefix(m) + "channel '"@ + m.channel@ + "' on EtherCAT device '"@
                            + m.device@
                            + "' is a TxPDO (device→controller input); Output mappings need an RxPDO channel"@,
                    )
                } else {
                    None
                }
            },
            ProtocolConfig::Opcua(c) => {
                if m.direction == Direction::Output && c.channels@[k].access != OpcuaAccess::Write {
                    Some(
                        mapping_prefix(m) + "channel '"@ + m.channel@ + "' on OPC UA device '"@
                            + m.device@ + "' has access=read; Output mappings need access=write"@,
                    )
                } else {
                    None
                }
            },
            ProtocolConfig::Canopen(c) => {
                if m.direction == Direction::Output && c.channels@[k].access != CanopenAccess::Write {
                    Some(
                        mapping_prefix(m) + "channel '"@ + m.channel@ + "' on CANopen device '"@
                            + m.device@ + "' has access=read; Output mappings need access=write"@,
                    )
                } else {
                    None
                }
            },
        },
    }
}


/// Every route of the gear axes, axis by axis, each axis's nine routes in
/// their order.
pub open spec fn spec_all_gear_routes(gears: Seq<EthercatGear>) -> Seq<(Seq<char>, GearReadback)>
    decreases gears.len(),
{
    if gears.len() == 0 {
        Seq::empty()
    } else {
        spec_all_gear_routes(gears.drop_last()) + spec_gear_routes(gears.last())
    }
}

/// What the first route named `name` reads back.
pub open spec fn route_kind(routes: Seq<(Seq<char>, GearReadback)>, name: Seq<char>) -> Option<
    GearReadback,
>
    decreases routes.len(),
{
    if routes.len() == 0 {
        None
    } else if routes[0].0 == name {
        Some(routes[0].1)
    } else {
        route_kind(routes.drop_first(), name)
    }
}

/// Rules 2 and 3 on an EtherCAT device. Its gear channel names must be
/// unambiguous first: a device whose names clash fails every row that
/// reaches it. A channel is then a PDO entry, checked for direction as
/// listed, or a gear route: a parameter may be written or its echo read,
/// feedback may only be read.
pub open spec fn spec_ethercat_issue(m: Mapping, cfg: ProtocolConfig, c: EthercatConfig) -> Option<
    Seq<char>,
> {
    let names = spec_all_gear_names(c.gear@);
    match first_gear_problem(names, spec_channel_names(cfg), names.len() as int) {
        Some(e) => Some(
            mapping_prefix(m) + "EtherCAT device '"@ + m.device@ + "' has ambiguous gear channels: "@
                + e,
        ),
        None => if spec_channel_names(cfg).contains(m.channel@) {
            spec_listed_channel_issue(m, cfg)
        } else {
            match route_kind(spec_all_gear_routes(c.gear@), m.channel@) {
                None => spec_listed_channel_issue(m, cfg),
                Some(k) => if m.direction == Direction::Output && spec_parameter(k) is None {
                    Some(
                        mapping_prefix(m) + "channel '"@ + m.channel@ + "' on EtherCAT device '"@
                            + m.device@
                            + "' is read-only gear feedback; Output mappings need a gear parameter"@,
                    )
                } else {
                    None
                },
            }
        },
    }
}

/// The error, if any, that rules 2 and 3 find for `m` on a device with
/// configuration `cfg`.
pub open spec fn spec_channel_issue(m: Mapping, cfg: ProtocolConfig) -> Option<Seq<char>> {
    match cfg {
        ProtocolConfig::Ethercat(c) => spec_ethercat_issue(m, cfg, c),
        _ => spec_listed_channel_issue(m, cfg),
    }
}

/// Rules 1 to 3 for one mapping.
pub open spec fn spec_row_issue(m: Mapping, devices: Seq<Device>) -> Option<Seq<char>> {
    match first_index(device_names(devices), m.device@) {
        None => Some(mapping_prefix(m) + "unknown device '"@ + m.device@ + "'"@),
        Some(d) => spec_channel_issue(m, devices[d].config),
    }
}

/// `application.variable` of every Output mapping to (`dev`, `ch`), in row order.
pub open spec fn writer_keys(ms: Seq<Mapping>, dev: Seq<char>, ch: Seq<char>) -> Seq<Seq<char>>
    decreases ms.len(),
{
    if ms.len() == 0 {
        Seq::empty()
    } else {
        let m = ms.last();
        writer_keys(ms.drop_last(), dev, ch) + if m.direction == Direction::Output && m.device@
            == dev && m.channel@ == ch {
            seq![m.application@ + "."@ + m.variable@]
        } else {
            Seq::empty()
        }
    }
}

/// `device/channel` of every Output mapping of (`app`, `var`), in row order.
pub open spec fn fanout_keys(ms: Seq<Mapping>, app: Seq<char>, var: Seq<char>) -> Seq<Seq<char>>
    decreases ms.len(),
{
    if ms.len() == 0 {
        Seq::empty()
    } else {
        let m = ms.last();
        fanout_keys(ms.drop_last(), app, var) + if m.direction == Direction::Output
            && m.application@ == app && m.variable@ == var {
            seq![m.device@ + "/"@ + m.channel@]
        } else {
            Seq::empty()
        }
    }
}

/// Rule 4 for row `i`: an Output row whose channel is driven by more than
/// one distinct variable.
pub open spec fn spec_writer_issue(ms: Seq<Mapping>, i: int) -> Option<Seq<char>> {
    let m = ms[i];
    if m.direction == Direction::Output {
        let vars = sort_dedup(writer_keys(ms, m.device@, m.channel@));
        if vars.len() > 1 {
            Some(
                "conflicting writers: "@ + join(vars, ", "@) + " all output to channel '"@
                    + m.channel@ + "' on device '"@ + m.device@
                    + "' — only one variable may drive an output"@,
            )
        } else {
            None
        }
    } else {
        None
    }
}

/// Rule 5 for row `i`: an Output row whose variable drives more than one
/// distinct channel.
pub open spec fn spec_fanout_issue(ms: Seq<Mapping>, i: int) -> Option<Seq<char>> {
    let m = ms[i];
    if m.direction == Direction::Output {
        let targets = sort_dedup(fanout_keys(ms, m.application@, m.variable@));
        if targets.len() > 1 {
            Some(
                "variable '"@ + m.application@ + "."@ + m.variable@ + "' is bound as Output to "@
                    + decimal(targets.len()) + " channels ("@ + join(targets, ", "@)
                    + ") — fan-out is legal but make sure it is intended"@,
            )
        } else {
            None
        }
    } else {
        None
    }
}

pub open spec fn opt_issue(o: Option<Seq<char>>, sev: IomapIssueSeverity, i: int) -> Seq<
    (IomapIssueSeverity, int, Seq<char>),
> {
    match o {
        Some(msg) => seq![(sev, i, msg)],
        None => Seq::empty(),
    }
}

/// The findings for row `i`: its own error, then a conflicting-writers
/// error, then a fan-out warning.
pub open spec fn spec_issues_at(ms: Seq<Mapping>, devices: Seq<Device>, i: int) -> Seq<
    (IomapIssueSeverity, int, Seq<char>),
> {
    opt_issue(spec_row_issue(ms[i], devices), IomapIssueSeverity::Error, i) + opt_issue(
        spec_writer_issue(ms, i),
        IomapIssueSeverity::Error,
        i,
    ) + opt_issue(spec_fanout_issue(ms, i), IomapIssueSeverity::Warning, i)
}

/// The findings of rows `0..k`, row by row.
pub open spec fn spec_issues_upto(ms: Seq<Mapping>, devices: Seq<Device>, k: int) -> Seq<
    (IomapIssueSeverity, int, Seq<char>),
>
    decreases k,
{
    if k <= 0 {
        Seq::empty()
    } else {
        spec_issues_upto(ms, devices, k - 1) + spec_issues_at(ms, devices, k - 1)
    }
}

pub open spec fn spec_validate_iomap(ms: Seq<Mapping>, devices: Seq<Device>) -> Seq<
    (IomapIssueSeverity, int, Seq<char>),
> {
    spec_issues_upto(ms, devices, ms.len() as int)
}

fn device_index(devices: &[Device], name: &String) -> (r: Option<usize>)
    ensures
        r matches Some(k) ==> first_index(device_names(devices@), name@) == Some(k as int),
        r is None ==> first_index(device_names(devices@), name@) is None,
{
    let mut i: usize = 0;
    while i < devices.len()
        invariant
            i <= devices.len(),
            forall|j: int| 0 <= j < i ==> device_names(devices@)[j] != name@,
        decreases devices.len() - i,
    {
        if devices[i].name == *name {
            proof {
                lemma_first_index_at(device_names(devices@), name@, i as int);
            }
            return Some(i);
        }
        i = i + 1;
    }
    proof {
        lemma_first_index_none(device_names(devices@), name@);
    }
    None
}

fn mapping_prefix_string(m: &Mapping) -> (s: String)
    ensures
        s@ == mapping_prefix(*m),
{
    let mut s = String::from_str("mapping '");
    s.append(m.application.as_str());
    s.append(".");
    s.append(m.variable.as_str());
    s.append("': ");
    s
}

fn listed_channel_issue(m: &Mapping, cfg: &ProtocolConfig) -> (r: Option<String>)
    ensures
        r matches Some(s) ==> spec_listed_channel_issue(*m, *cfg) == Some(s@),
        r is None ==> spec_listed_channel_issue(*m, *cfg) is None,
{
    let names = cfg.channel_names();
    let k = index_of_string(&names, &m.channel);
    let mut s = mapping_prefix_string(m);
    match k {
        None => {
            s.append("device '");
            s.append(m.device.as_str());
            s.append("' has no channel '");
            s.append(m.channel.as_str());
            s.append("'");
            Some(s)
        },
        Some(k) => {
            proof {
                lemma_first_index_bounds(spec_channel_names(*cfg), m.channel@);
            }
            match cfg {
                ProtocolConfig::Modbus(c) => {
                    let kind = c.channels[k].kind;
                    if m.direction == Direction::Output && kind != ModbusChannelKind::Coil && kind
                        != ModbusChannelKind::HoldingRegister {
                        s.append("channel '");
                        s.append(m.channel.as_str());
                        s.append("' on Modbus device '");
                        s.append(m.device.as_str());
                        s.append("' is a read-only ");
                        match kind {
                            ModbusChannelKind::Coil => s.append("Coil"),
                            ModbusChannelKind::DiscreteInput => s.append("DiscreteInput"),
                            ModbusChannelKind::HoldingRegister => s.append("HoldingRegister"),
                            ModbusChannelKind::InputRegister => s.append("InputRegister"),
                        }
                        s.append("; Output mappings need a Coil or HoldingRegister");
                        Some(s)
                    } else {
                        None
                    }
                },
                ProtocolConfig::Ethercat(c) => {
                    let d = c.channels[k].direction;
                    if m.direction == Direction::Input && d == EthercatPdoDirection::RxPdo {
                        s.append("channel '");
                        s.append(m.channel.as_str());
                        s.append("' on EtherCAT device '");
                        s.append(m.device.as_str());
                        s.append(
                            "' is an RxPDO (controller→device output); Input mappings need a TxPDO channel",
                        );
                        Some(s)
                    } else if m.direction == Direction::Output && d == EthercatPdoDirection::TxPdo {
                        s.append("channel '");
                        s.append(m.channel.as_str());
                        s.append("' on EtherCAT device '");
                        s.append(m.device.as_str());
                        s.append(
                            "' is a TxPDO (device→controller input); Output mappings need an RxPDO channel",
                        );
                        Some(s)
                    } else {
                        None
                    }
                },
                ProtocolConfig::Opcua(c) => {
                    if m.direction == Direction::Output && c.channels[k].access
                        != OpcuaAccess::Write {
                        s.append("channel '");
                        s.append(m.channel.as_str());
                        s.append("' on OPC UA device '");
                        s.append(m.device.as_str());
                        s.append("' has access=read; Output mappings need access=write");
                        Some(s)
                    } else {
                        None
                    }
                },
                ProtocolConfig::Canopen(c) => {
                    if m.direction == Direction::Output && c.channels[k].access
                        != CanopenAccess::Write {
                        s.append("channel '");
                        s.append(m.channel.as_str());
                        s.append("' on CANopen device '");
                        s.append(m.device.as_str());
                        s.append("' has access=read; Output mappings need access=write");
                        Some(s)
                    } else {
                        None
                    }
                },
            }
        },
    }
}


/// The gear routes of all axes, flattened.
fn all_gear_routes(gears: &Vec<EthercatGear>) -> (r: Vec<(String, GearReadback)>)
    ensures
        r@.map_values(|p: (String, GearReadback)| (p.0@, p.1)) == spec_all_gear_routes(gears@),
{
    let mut out: Vec<(String, GearReadback)> = Vec::new();
    let mut gi: usize = 0;
    while gi < gears.len()
        invariant
            gi <= gears.len(),
            out@.map_values(|p: (String, GearReadback)| (p.0@, p.1)) == spec_all_gear_routes(
                gears@.take(gi as int),
            ),
        decreases gears.len() - gi,
    {
        let g = &gears[gi];
        let routes = g.routed_channels();
        let ghost start = out@.map_values(|p: (String, GearReadback)| (p.0@, p.1));
        let mut k: usize = 0;
        while k < 9
            invariant
                k <= 9,
                routes@.map_values(|p: (&str, GearReadback)| (p.0@, p.1)) == spec_gear_routes(*g),
                out@.map_values(|p: (String, GearReadback)| (p.0@, p.1)) == start + spec_gear_routes(
                    *g,
                ).take(k as int),
            decreases 9 - k,
        {
            let name = String::from_str(routes[k].0);
            assert(routes@.map_values(|p: (&str, GearReadback)| (p.0@, p.1))[k as int] == (
            routes@[k as int].0@, routes@[k as int].1));
            let ghost before = out@;
            out.push((name, routes[k].1));
            assert(out@.map_values(|p: (String, GearReadback)| (p.0@, p.1)) =~= before.map_values(
                |p: (String, GearReadback)| (p.0@, p.1),
            ).push(spec_gear_routes(*g)[k as int]));
            assert(start + spec_gear_routes(*g).take(k + 1) =~= (start + spec_gear_routes(*g).take(
                k as int,
            )).push(spec_gear_routes(*g)[k as int]));
            k = k + 1;
        }
        assert(spec_gear_routes(*g).take(9) =~= spec_gear_routes(*g));
        assert(gears@.take(gi + 1).drop_last() =~= gears@.take(gi as int));
        assert(gears@.take(gi + 1).last() == gears@[gi as int]);
        gi = gi + 1;
    }
    assert(gears@.take(gears.len() as int) =~= gears@);
    out
}

/// What the first route named `name` reads back.
fn find_route(routes: &Vec<(String, GearReadback)>, name: &String) -> (r: Option<GearReadback>)
    ensures
        r == route_kind(routes@.map_values(|p: (String, GearReadback)| (p.0@, p.1)), name@),
{
    let ghost rv = routes@.map_values(|p: (String, GearReadback)| (p.0@, p.1));
    let mut i: usize = 0;
    assert(rv.skip(0) =~= rv);
    while i < routes.len()
        invariant
            i <= routes.len(),
            rv == routes@.map_values(|p: (String, GearReadback)| (p.0@, p.1)),
            route_kind(rv, name@) == route_kind(rv.skip(i as int), name@),
        decreases routes.len() - i,
    {
        assert(rv.skip(i as int)[0] == rv[i as int]);
        assert(rv.skip(i as int).drop_first() =~= rv.skip(i + 1));
        if routes[i].0 == *name {
            return Some(routes[i].1);
        }
        i = i + 1;
    }
    assert(rv.skip(i as int).len() == 0);
    None
}

fn ethercat_issue(m: &Mapping, cfg: &ProtocolConfig, c: &EthercatConfig) -> (r: Option<String>)
    requires
        *cfg == ProtocolConfig::Ethercat(*c),
    ensures
        r matches Some(s) ==> spec_ethercat_issue(*m, *cfg, *c) == Some(s@),
        r is None ==> spec_ethercat_issue(*m, *cfg, *c) is None,
{
    let pdo = cfg.channel_names();
    proof {
        assert(views(pdo@) == spec_channel_names(*cfg));
    }
    match validate_gear_channel_names(&c.gear, &pdo) {
        Err(e) => {
            let mut s = mapping_prefix_string(m);
            s.append("EtherCAT device '");
            s.append(m.device.as_str());
            s.append("' has ambiguous gear channels: ");
            s.append(e.as_str());
            return Some(s);
        },
        Ok(()) => {},
    }
    if contains_string(&pdo, &m.channel) {
        return listed_channel_issue(m, cfg);
    }
    let routes = all_gear_routes(&c.gear);
    match find_route(&routes, &m.channel) {
        None => listed_channel_issue(m, cfg),
        Some(k) => {
            if m.direction == Direction::Output && k.parameter().is_none() {
                let mut s = mapping_prefix_string(m);
                s.append("channel '");
                s.append(m.channel.as_str());
                s.append("' on EtherCAT device '");
                s.append(m.device.as_str());
                s.append("' is read-only gear feedback; Output mappings need a gear parameter");
                Some(s)
            } else {
                None
            }
        },
    }
}

fn channel_issue(m: &Mapping, cfg: &ProtocolConfig) -> (r: Option<String>)
    ensures
        r matches Some(s) ==> spec_channel_issue(*m, *cfg) == Some(s@),
        r is None ==> spec_channel_issue(*m, *cfg) is None,
{
    match cfg {
        ProtocolConfig::Ethercat(c) => ethercat_issue(m, cfg, c),
        _ => listed_channel_issue(m, cfg),
    }
}

/// Rules 1 to 3 for one mapping.
fn check_channel(m: &Mapping, devices: &[Device]) -> (r: Option<String>)
    ensures
        r matches Some(s) ==> spec_row_issue(*m, devices@) == Some(s@),
        r is None ==> spec_row_issue(*m, devices@) is None,
{
    match device_index(devices, &m.device) {
        None => {
            let mut s = mapping_prefix_string(m);
            s.append("unknown device '");
            s.append(m.device.as_str());
            s.append("'");
            Some(s)
        },
        Some(d) => {
            proof {
                lemma_first_index_bounds(device_names(devices@), m.device@);
            }
            channel_issue(m, &devices[d].config)
        },
    }
}

/// The sorted distinct `application.variable` keys of the writers of (`dev`, `ch`).
fn writer_set(ms: &Vec<Mapping>, dev: &String, ch: &String) -> (v: Vec<String>)
    ensures
        views(v@) == sort_dedup(writer_keys(ms@, dev@, ch@)),
{
    let mut v: Vec<String> = Vec::new();
    let mut j: usize = 0;
    while j < ms.len()
        invariant
            j <= ms.len(),
            views(v@) == sort_dedup(writer_keys(ms@.take(j as int), dev@, ch@)),
        decreases ms.len() - j,
    {
        let m = &ms[j];
        assert(ms@.take(j + 1).drop_last() =~= ms@.take(j as int));
        assert(ms@.take(j + 1).last() == ms@[j as int]);
        if m.direction == Direction::Output && m.device == *dev && m.channel == *ch {
            let mut key = m.application.clone();
            key.append(".");
            key.append(m.variable.as_str());
            proof {
                lemma_sort_dedup_push(writer_keys(ms@.take(j as int), dev@, ch@), key@);
                assert(writer_keys(ms@.take(j + 1), dev@, ch@) =~= writer_keys(
                    ms@.take(j as int),
                    dev@,
                    ch@,
                ).push(key@));
            }
            insert_sorted_string(&mut v, key);
        } else {
            assert(writer_keys(ms@.take(j + 1), dev@, ch@) =~= writer_keys(
                ms@.take(j as int),
                dev@,
                ch@,
            ));
        }
        j = j + 1;
    }
    assert(ms@.take(ms.len() as int) =~= ms@);
    v
}

/// The sorted distinct `device/channel` keys of the outputs of (`app`, `var`).
fn fanout_set(ms: &Vec<Mapping>, app: &String, var: &String) -> (v: Vec<String>)
    ensures
        views(v@) == sort_dedup(fanout_keys(ms@, app@, var@)),
{
    let mut v: Vec<String> = Vec::new();
    let mut j: usize = 0;
    while j < ms.len()
        invariant
            j <= ms.len(),
            views(v@) == sort_dedup(fanout_keys(ms@.take(j as int), app@, var@)),
        decreases ms.len() - j,
    {
        let m = &ms[j];
        assert(ms@.take(j + 1).drop_last() =~= ms@.take(j as int));
        assert(ms@.take(j + 1).last() == ms@[j as int]);
        if m.direction == Direction::Output && m.application == *app && m.variable == *var {
            let mut key = m.device.clone();
            key.append("/");
            key.append(m.channel.as_str());
            proof {
                lemma_sort_dedup_push(fanout_keys(ms@.take(j as int), app@, var@), key@);
                assert(fanout_keys(ms@.take(j + 1), app@, var@) =~= fanout_keys(
                    ms@.take(j as int),
                    app@,
                    var@,
                ).push(key@));
            }
            insert_sorted_string(&mut v, key);
        } else {
            assert(fanout_keys(ms@.take(j + 1), app@, var@) =~= fanout_keys(
                ms@.take(j as int),
                app@,
                var@,
            ));
        }
        j = j + 1;
    }
    assert(ms@.take(ms.len() as int) =~= ms@);
    v
}

/// Rule 4 for row `i`.
fn check_duplicate_writers(ms: &Vec<Mapping>, i: usize) -> (r: Option<String>)
    requires
        i < ms.len(),
    ensures
        r matches Some(s) ==> spec_writer_issue(ms@, i as int) == Some(s@),
        r is None ==> spec_writer_issue(ms@, i as int) is None,
{
    let m = &ms[i];
    if m.direction != Direction::Output {
        return None;
    }
    let vars = writer_set(ms, &m.device, &m.channel);
    if vars.len() <= 1 {
        return None;
    }
    let list = join_strings(&vars, ", ");
    let mut s = String::from_str("conflicting writers: ");
    s.append(list.as_str());
    s.append(" all output to channel '");
    s.append(m.channel.as_str());
    s.append("' on device '");
    s.append(m.device.as_str());
    s.append("' — only one variable may drive an output");
    Some(s)
}

/// Rule 5 for row `i`.
fn check_output_fanout(ms: &Vec<Mapping>, i: usize) -> (r: Option<String>)
    requires
        i < ms.len(),
    ensures
        r matches Some(s) ==> spec_fanout_issue(ms@, i as int) == Some(s@),
        r is None ==> spec_fanout_issue(ms@, i as int) is None,
{
    let m = &ms[i];
    if m.direction != Direction::Output {
        return None;
    }
    let targets = fanout_set(ms, &m.application, &m.variable);
    if targets.len() <= 1 {
        return None;
    }
    let list = join_strings(&targets, ", ");
    let mut s = String::from_str("variable '");
    s.append(m.application.as_str());
    s.append(".");
    s.append(m.variable.as_str());
    s.append("' is bound as Output to ");
    push_decimal(&mut s, targets.len() as u64);
    s.append(" channels (");
    s.append(list.as_str());
    s.append(") — fan-out is legal but make sure it is intended");
    Some(s)
}

/// Validates every mapping of `iomap` against `devices`. Findings come
/// back ordered by `mapping_index`; within one row, its own error comes
/// first, then a conflicting-writers error, then a fan-out warning. An
/// empty result means the map is clean.
pub fn validate_iomap(iomap: &IoMap, devices: &[Device]) -> (issues: Vec<IomapIssue>)
    ensures
        issues@.map_values(|x: IomapIssue| issue_view(x)) == spec_validate_iomap(
            iomap.mappings@,
            devices@,
        ),
{
    let ms = &iomap.mappings;
    let mut issues: Vec<IomapIssue> = Vec::new();
    let mut i: usize = 0;
    while i < ms.len()
        invariant
            i <= ms.len(),
            issues@.map_values(|x: IomapIssue| issue_view(x)) == spec_issues_upto(
                ms@,
                devices@,
                i as int,
            ),
        decreases ms.len() - i,
    {
        let ghost before = issues@.map_values(|x: IomapIssue| issue_view(x));
        let row = check_channel(&ms[i], devices);
        match row {
            Some(msg) => issues.push(error(i, msg)),
            None => {},
        }
        let dup = check_duplicate_writers(ms, i);
        match dup {
            Some(msg) => issues.push(error(i, msg)),
            None => {},
        }
        let fan = check_output_fanout(ms, i);
        match fan {
            Some(msg) => issues.push(warning(i, msg)),
            None => {},
        }
        assert(issues@.map_values(|x: IomapIssue| issue_view(x)) =~= before + spec_issues_at(
            ms@,
            devices@,
            i as int,
        ));
        i = i + 1;
    }
    issues
}

proof fn lemma_issues_at_row(ms: Seq<Mapping>, devices: Seq<Device>, i: int)
    ensures
        forall|a: int|
            0 <= a < spec_issues_at(ms, devices, i).len() ==> #[trigger] spec_issues_at(
                ms,
                devices,
                i,
            )[a].1 == i,
{
    let x = opt_issue(spec_row_issue(ms[i], devices), IomapIssueSeverity::Error, i);
    let y = opt_issue(spec_writer_issue(ms, i), IomapIssueSeverity::Error, i);
    let z = opt_issue(spec_fanout_issue(ms, i), IomapIssueSeverity::Warning, i);
    assert(forall|a: int| 0 <= a < x.len() ==> #[trigger] x[a].1 == i);
    assert(forall|a: int| 0 <= a < y.len() ==> #[trigger] y[a].1 == i);
    assert(forall|a: int| 0 <= a < z.len() ==> #[trigger] z[a].1 == i);
    assert forall|a: int| 0 <= a < (x + y + z).len() implies #[trigger] (x + y + z)[a].1 == i by {
        if a < x.len() {
            assert((x + y + z)[a] == x[a]);
        } else if a < x.len() + y.len() {
            assert((x + y + z)[a] == y[a - x.len()]);
        } else {
            assert((x + y + z)[a] == z[a - x.len() - y.len()]);
        }
    }
}

proof fn lemma_issues_upto_rows(ms: Seq<Mapping>, devices: Seq<Device>, k: int)
    requires
        0 <= k,
    ensures
        forall|a: int|
            0 <= a < spec_issues_upto(ms, devices, k).len() ==> 0 <= #[trigger] spec_issues_upto(
                ms,
                devices,
                k,
            )[a].1 < k,
        forall|a: int, b: int|
            0 <= a <= b < spec_issues_upto(ms, devices, k).len() ==> #[trigger] spec_issues_upto(
                ms,
                devices,
                k,
            )[a].1 <= #[trigger] spec_issues_upto(ms, devices, k)[b].1,
    decreases k,
{
    if k > 0 {
        lemma_issues_upto_rows(ms, devices, k - 1);
        lemma_issues_at_row(ms, devices, k - 1);
        let p = spec_issues_upto(ms, devices, k - 1);
        let q = spec_issues_at(ms, devices, k - 1);
        assert(spec_issues_upto(ms, devices, k) == p + q);
        assert forall|a: int| 0 <= a < (p + q).len() implies 0 <= #[trigger] (p + q)[a].1 < k by {
            if a < p.len() {
                assert((p + q)[a] == p[a]);
            } else {
                assert((p + q)[a] == q[a - p.len()]);
            }
        }
        assert forall|a: int, b: int| 0 <= a <= b < (p + q).len() implies #[trigger] (p + q)[a].1
            <= #[trigger] (p + q)[b].1 by {
            if b < p.len() {
                assert((p + q)[a] == p[a] && (p + q)[b] == p[b]);
            } else if a < p.len() {
                assert((p + q)[a] == p[a] && (p + q)[b] == q[b - p.len()]);
            } else {
                assert((p + q)[a] == q[a - p.len()] && (p + q)[b] == q[b - p.len()]);
            }
        }
    }
}

/// The findings of a map come back ordered by row: each names a row of
/// the map, rows never go backwards, and an empty map has no finding
/// whatever the devices are.
pub proof fn issues_are_ordered_by_row(ms: Seq<Mapping>, devices: Seq<Device>)
    ensures
        forall|a: int|
            0 <= a < spec_validate_iomap(ms, devices).len() ==> 0 <= #[trigger] spec_validate_iomap(
                ms,
                devices,
            )[a].1 < ms.len(),
        forall|a: int, b: int|
            0 <= a <= b < spec_validate_iomap(ms, devices).len() ==> #[trigger] spec_validate_iomap(
                ms,
                devices,
            )[a].1 <= #[trigger] spec_validate_iomap(ms, devices)[b].1,
        ms.len() == 0 ==> spec_validate_iomap(ms, devices).len() == 0,
{
    lemma_issues_upto_rows(ms, devices, ms.len() as int);
}

} // verus!
