//! The channel names through which an EtherCAT gear axis is reached.
//! These address the gear engine's parameter mailbox, not PDO bytes.
use vstd::prelude::*;

use crate::text::{contains_string, lemma_views_push, views};
use crate::types::EthercatGear;

verus! {

/// Writable engine parameters.
#[derive(Debug, Clone, Copy, PartialEq, Eq, Structural)]
pub enum GearParam {
    Engage,
    RatioApply,
    RatioNum,
    RatioDen,
    RatioStep,
    PhaseOfs,
    MasterVel,
    MaxTravel,
}

/// Parameter echoes and read-only engine feedback.
#[derive(Debug, Clone, Copy, PartialEq, Eq, Structural)]
pub enum GearReadback {
    Engage,
    RatioApply,
    RatioAck,
    RatioNum,
    RatioDen,
    RatioStep,
    PhaseOfs,
    MasterVel,
    MaxTravel,
    Engaged,
    Trip,
}

pub open spec fn spec_parameter(r: GearReadback) -> Option<GearParam> {
    match r {
        GearReadback::Engage => Some(GearParam::Engage),
        GearReadback::RatioApply => Some(GearParam::RatioApply),
        GearReadback::RatioNum => Some(GearParam::RatioNum),
        GearReadback::RatioDen => Some(GearParam::RatioDen),
        GearReadback::RatioStep => Some(GearParam::RatioStep),
        GearReadback::PhaseOfs => Some(GearParam::PhaseOfs),
        GearReadback::MasterVel => Some(GearParam::MasterVel),
        GearReadback::MaxTravel => Some(GearParam::MaxTravel),
        GearReadback::RatioAck | GearReadback::Engaged | GearReadback::Trip => None,
    }
}

impl GearReadback {
    /// The parameter a readback echoes; feedback channels echo none.
    pub fn parameter(self) -> (p: Option<GearParam>)
        ensures
            p == spec_parameter(self),
    {
        match self {
            GearReadback::Engage => Some(GearParam::Engage),
            GearReadback::RatioApply => Some(GearParam::RatioApply),
            GearReadback::RatioNum => Some(GearParam::RatioNum),
            GearReadback::RatioDen => Some(GearParam::RatioDen),
            GearReadback::RatioStep => Some(GearParam::RatioStep),
            GearReadback::PhaseOfs => Some(GearParam::PhaseOfs),
            GearReadback::MasterVel => Some(GearParam::MasterVel),
            GearReadback::MaxTravel => Some(GearParam::MaxTravel),
            GearReadback::RatioAck | GearReadback::Engaged | GearReadback::Trip => None,
        }
    }

    /// Whether the channel carries a boolean.
    pub fn is_bool(self) -> (b: bool)
        ensures
            b == (self == GearReadback::Engage || self == GearReadback::RatioApply || self
                == GearReadback::Engaged || self == GearReadback::Trip),
    {
        match self {
            GearReadback::Engage | GearReadback::RatioApply | GearReadback::Engaged
            | GearReadback::Trip => true,
            _ => false,
        }
    }
}

/// The nine routes a gear axis exposes, in this order, named by the
/// axis's configuration.
pub open spec fn spec_gear_routes(g: EthercatGear) -> Seq<(Seq<char>, GearReadback)> {
    seq![
        (g.engage_channel@, GearReadback::Engage),
        (g.ratio_num_channel@, GearReadback::RatioNum),
        (g.ratio_den_channel@, GearReadback::RatioDen),
        (g.ratio_step_channel@, GearReadback::RatioStep),
        (g.phase_channel@, GearReadback::PhaseOfs),
        (g.master_vel_channel@, GearReadback::MasterVel),
        (g.max_travel_channel@, GearReadback::MaxTravel),
        (g.engaged_channel@, GearReadback::Engaged),
        (g.trip_channel@, GearReadback::Trip),
    ]
}

impl EthercatGear {
    /// The routes exposed by real and simulated devices. Ratio-apply and
    /// ratio-ack are part of the schema but are not routed.
    pub fn routed_channels(&self) -> (r: [(&str, GearReadback); 9])
        ensures
            r@.map_values(|p: (&str, GearReadback)| (p.0@, p.1)) == spec_gear_routes(*self),
    {
        let r = [
            (self.engage_channel.as_str(), GearReadback::Engage),
            (self.ratio_num_channel.as_str(), GearReadback::RatioNum),
            (self.ratio_den_channel.as_str(), GearReadback::RatioDen),
            (self.ratio_step_channel.as_str(), GearReadback::RatioStep),
            (self.phase_channel.as_str(), GearReadback::PhaseOfs),
            (self.master_vel_channel.as_str(), GearReadback::MasterVel),
            (self.max_travel_channel.as_str(), GearReadback::MaxTravel),
            (self.engaged_channel.as_str(), GearReadback::Engaged),
            (self.trip_channel.as_str(), GearReadback::Trip),
        ];
        assert(r@.map_values(|p: (&str, GearReadback)| (p.0@, p.1)) =~= spec_gear_routes(*self));
        r
    }
}

/// Every name one gear axis reserves: its nine routes, then ratio-apply
/// and ratio-ack.
pub open spec fn spec_gear_names(g: EthercatGear) -> Seq<Seq<char>> {
    spec_gear_routes(g).map_values(|p: (Seq<char>, GearReadback)| p.0) + seq![
        g.ratio_apply_channel@,
        g.ratio_ack_channel@,
    ]
}

/// The reserved names of all axes, axis by axis.
pub open spec fn spec_all_gear_names(gears: Seq<EthercatGear>) -> Seq<Seq<char>>
    decreases gears.len(),
{
    if gears.len() == 0 {
        Seq::empty()
    } else {
        spec_all_gear_names(gears.drop_last()) + spec_gear_names(gears.last())
    }
}

/// What is wrong with the `i`-th reserved name, if anything: it is a PDO
/// name, or an earlier reserved name repeats it.
pub open spec fn gear_name_problem(names: Seq<Seq<char>>, pdo: Seq<Seq<char>>, i: int) -> Option<
    Seq<char>,
> {
    if pdo.contains(names[i]) {
        Some("gear channel '"@ + names[i] + "' collides with a PDO channel name"@)
    } else if names.take(i).contains(names[i]) {
        Some("gear channel '"@ + names[i] + "' is used by more than one gear axis or parameter"@)
    } else {
        None
    }
}

/// The problem of the first of the first `n` names that has one.
pub open spec fn first_gear_problem(names: Seq<Seq<char>>, pdo: Seq<Seq<char>>, n: int) -> Option<
    Seq<char>,
>
    decreases n,
{
    if n <= 0 {
        None
    } else {
        match first_gear_problem(names, pdo, n - 1) {
            Some(m) => Some(m),
            None => gear_name_problem(names, pdo, n - 1),
        }
    }
}

fn push_gear_names(flat: &mut Vec<String>, g: &EthercatGear)
    ensures
        views(final(flat)@) == views(old(flat)@) + spec_gear_names(*g),
{
    let routes = g.routed_channels();
    let ghost start = views(flat@);
    let mut k: usize = 0;
    while k < 9
        invariant
            k <= 9,
            routes@.map_values(|p: (&str, GearReadback)| (p.0@, p.1)) == spec_gear_routes(*g),
            views(flat@) == start + spec_gear_names(*g).take(k as int),
        decreases 9 - k,
    {
        let name = String::from_str(routes[k].0);
        assert(routes@.map_values(|p: (&str, GearReadback)| (p.0@, p.1))[k as int].0 == routes@[k as int].0@);
        proof {
            lemma_views_push(flat@, name);
        }
        flat.push(name);
        assert(spec_gear_names(*g)[k as int] == spec_gear_routes(*g)[k as int].0);
        assert(views(flat@) =~= start + spec_gear_names(*g).take(k + 1));
        k = k + 1;
    }
    let a = g.ratio_apply_channel.clone();
    proof {
        lemma_views_push(flat@, a);
    }
    flat.push(a);
    let b = g.ratio_ack_channel.clone();
    proof {
        lemma_views_push(flat@, b);
    }
    flat.push(b);
    assert(views(flat@) =~= start + spec_gear_names(*g));
}

/// Rejects gear channel names that would be ambiguous: one that equals a
/// PDO channel name, or one reserved twice (across or within axes,
/// ratio-apply and ratio-ack included). The first offending name, in axis
/// order, is reported.
pub fn validate_gear_channel_names(gears: &Vec<EthercatGear>, pdo_names: &Vec<String>) -> (r:
    Result<(), String>)
    ensures
        match r {
            Ok(()) => first_gear_problem(
                spec_all_gear_names(gears@),
                views(pdo_names@),
                spec_all_gear_names(gears@).len() as int,
            ) is None,
            Err(m) => first_gear_problem(
                spec_all_gear_names(gears@),
                views(pdo_names@),
                spec_all_gear_names(gears@).len() as int,
            ) == Some(m@),
        },
{
    let mut flat: Vec<String> = Vec::new();
    let mut gi: usize = 0;
    while gi < gears.len()
        invariant
            gi <= gears.len(),
            views(flat@) == spec_all_gear_names(gears@.take(gi as int)),
        decreases gears.len() - gi,
    {
        push_gear_names(&mut flat, &gears[gi]);
        assert(gears@.take(gi + 1).drop_last() =~= gears@.take(gi as int));
        gi = gi + 1;
    }
    assert(gears@.take(gears.len() as int) =~= gears@);
    let ghost names = views(flat@);
    let ghost pdo = views(pdo_names@);
    let mut seen: Vec<String> = Vec::new();
    let mut i: usize = 0;
    while i < flat.len()
        invariant
            i <= flat.len(),
            names == views(flat@),
            names == spec_all_gear_names(gears@),
            pdo == views(pdo_names@),
            views(seen@) == names.take(i as int),
            first_gear_problem(names, pdo, i as int) is None,
        decreases flat.len() - i,
    {
        let name = &flat[i];
        assert(names[i as int] == name@);
        if contains_string(pdo_names, name) {
            let mut m = String::from_str("gear channel '");
            m.append(name.as_str());
            m.append("' collides with a PDO channel name");
            proof {
                assert(gear_name_problem(names, pdo, i as int) == Some(m@));
                lemma_first_problem_stays(names, pdo, i as int + 1, names.len() as int);
            }
            return Err(m);
        }
        if contains_string(&seen, name) {
            let mut m = String::from_str("gear channel '");
            m.append(name.as_str());
            m.append("' is used by more than one gear axis or parameter");
            proof {
                assert(gear_name_problem(names, pdo, i as int) == Some(m@));
                lemma_first_problem_stays(names, pdo, i as int + 1, names.len() as int);
            }
            return Err(m);
        }
        let c = name.clone();
        proof {
            lemma_views_push(seen@, c);
        }
        seen.push(c);
        assert(views(seen@) =~= names.take(i + 1));
        i = i + 1;
    }
    Ok(())
}

/// Once a prefix has a problem, every longer prefix reports the same one.
proof fn lemma_first_problem_stays(names: Seq<Seq<char>>, pdo: Seq<Seq<char>>, k: int, n: int)
    requires
        0 <= k <= n,
        first_gear_problem(names, pdo, k) is Some,
    ensures
        first_gear_problem(names, pdo, n) == first_gear_problem(names, pdo, k),
    decreases n - k,
{
    if k < n {
        lemma_first_problem_stays(names, pdo, k, n - 1);
    }
}

proof fn lemma_first_problem_none(names: Seq<Seq<char>>, pdo: Seq<Seq<char>>, n: int)
    requires
        0 <= n <= names.len(),
    ensures
        first_gear_problem(names, pdo, n) is None <==> forall|i: int|
            0 <= i < n ==> #[trigger] gear_name_problem(names, pdo, i) is None,
    decreases n,
{
    if n > 0 {
        lemma_first_problem_none(names, pdo, n - 1);
    }
}

/// The names a device's gear axes reserve are accepted exactly when none
/// of them is a PDO channel name and no two of them are equal.
pub proof fn gear_names_accepted_iff_distinct(gears: Seq<EthercatGear>, pdo: Seq<Seq<char>>)
    ensures
        ({
            let names = spec_all_gear_names(gears);
            first_gear_problem(names, pdo, names.len() as int) is None <==> (forall|i: int|
                0 <= i < names.len() ==> !pdo.contains(#[trigger] names[i])) && (forall|i: int, j: int|
                0 <= i < j < names.len() ==> #[trigger] names[i] != #[trigger] names[j])
        }),
{
    let names = spec_all_gear_names(gears);
    lemma_first_problem_none(names, pdo, names.len() as int);
    if first_gear_problem(names, pdo, names.len() as int) is None {
        assert forall|i: int, j: int| 0 <= i < j < names.len() implies #[trigger] names[i]
            != #[trigger] names[j] by {
            assert(gear_name_problem(names, pdo, j) is None);
            assert(names.take(j)[i] == names[i]);
        }
        assert forall|i: int| 0 <= i < names.len() implies !pdo.contains(#[trigger] names[i]) by {
            assert(gear_name_problem(names, pdo, i) is None);
        }
    } else {
        let i = choose|i: int| 0 <= i < names.len() && !(#[trigger] gear_name_problem(names, pdo, i) is None);
        if !pdo.contains(names[i]) {
            assert(names.take(i).contains(names[i]));
            let j = choose|j: int| 0 <= j < names.take(i).len() && names.take(i)[j] == names[i];
            assert(names[j] == names[i]);
        }
    }
}

} // verus!
