//! The northbound MQTT link's settings as the publisher uses them: the
//! client id, the topic prefix and its topics, the publish period and the
//! delivery guarantee.
use vstd::prelude::*;

use crate::chars::{lower_seq, trim_end_char};
use crate::runtime::{VarSnapshot, VarValue};
use crate::types::MqttNorthbound;

verus! {

/// The link as it is opened.
#[derive(Debug, Clone)]
pub struct NorthboundPlan {
    pub client_id: String,
    /// Topic prefix, without a trailing `/`.
    pub prefix: String,
    /// Publish period, at least 100 ms.
    pub publish_interval_ms: u32,
    /// At-least-once delivery; at-most-once for QoS 0.
    pub at_least_once: bool,
}

/// The client id: the configured one, else `ia2-<project>`.
pub open spec fn client_id_of(configured: Seq<char>, project: Seq<char>) -> Seq<char> {
    if configured.len() == 0 {
        "ia2-"@ + project
    } else {
        configured
    }
}

/// The topic prefix: the configured one without trailing slashes, else
/// `ia2/<project>`.
pub open spec fn prefix_of(configured: Seq<char>, project: Seq<char>) -> Seq<char> {
    if configured.len() == 0 {
        "ia2/"@ + project
    } else {
        trim_end_char(configured, '/')
    }
}

pub fn northbound_plan(cfg: &MqttNorthbound, project_name: &str) -> (p: NorthboundPlan)
    ensures
        p.client_id@ == client_id_of(cfg.client_id@, project_name@),
        p.prefix@ == prefix_of(cfg.topic_prefix@, project_name@),
        p.publish_interval_ms == (if cfg.publish_interval_ms < 100 {
            100
        } else {
            cfg.publish_interval_ms
        }),
        p.at_least_once == (cfg.qos != 0),
{
    let client_id = if cfg.client_id.as_str().is_empty() {
        let mut s = String::from_str("ia2-");
        s.append(project_name);
        s
    } else {
        cfg.client_id.clone()
    };
    let prefix = if cfg.topic_prefix.as_str().is_empty() {
        let mut s = String::from_str("ia2/");
        s.append(project_name);
        s
    } else {
        let v = crate::text::chars_of(cfg.topic_prefix.as_str());
        crate::text::string_of(&crate::chars::trim_end_char_chars(&v, '/'))
    };
    NorthboundPlan {
        client_id,
        prefix,
        publish_interval_ms: if cfg.publish_interval_ms < 100 {
            100
        } else {
            cfg.publish_interval_ms
        },
        at_least_once: cfg.qos != 0,
    }
}

/// A topic under the prefix: `<prefix>/<leaf>`.
pub fn topic(prefix: &str, leaf: &str) -> (t: String)
    ensures
        t@ == prefix@ + "/"@ + leaf@,
{
    let mut t = prefix.to_string();
    t.append("/");
    t.append(leaf);
    t
}

/// Whether an incoming publish is a variable write to act on: writes are
/// enabled and it came on `<prefix>/write`.
pub fn is_write_request(allow_write: bool, incoming: &String, prefix: &str) -> (r: bool)
    ensures
        r == (allow_write && incoming@ == prefix@ + "/"@ + "write"@),
{
    allow_write && *incoming == topic(prefix, "write")
}

/// The `value` of a write request on `<prefix>/write`, as the JSON
/// payload gave it.
#[derive(Debug, Clone)]
pub enum RequestValue {
    Bool(bool),
    /// A JSON number: the `i64` it is, where it is one, and the bits of
    /// the number narrowed to an IEEE-754 single.
    Number { int: Option<i64>, f32_bits: u32 },
    /// A string, an array, an object or `null`.
    Other,
}

/// Why a northbound write request is dropped before it reaches the VM.
#[derive(Debug, Clone, PartialEq, Eq, Structural)]
pub enum WriteRejection {
    /// The latest snapshot holds no variable of that name (or there is no
    /// snapshot yet).
    UnknownVariable,
    /// The variable is a REAL and the value is not a number.
    RealNeedsNumber,
    /// The variable is not a REAL and the value is neither an integer nor
    /// a boolean.
    ExpectedIntOrBool,
}

/// The IEC type of the first variable of the snapshot named `name`.
pub open spec fn type_in(vars: Seq<VarValue>, name: Seq<char>) -> Option<Seq<char>>
    decreases vars.len(),
{
    if vars.len() == 0 {
        None
    } else if vars[0].name@ == name {
        Some(vars[0].iec_type@)
    } else {
        type_in(vars.drop_first(), name)
    }
}

/// The 32-bit slot written for `value` into a variable that is a REAL or
/// not: a REAL takes the bits of the single, anything else `1`/`0` for a
/// boolean or the integer narrowed to 32 bits.
pub open spec fn slot_of(is_real: bool, value: RequestValue) -> Result<i32, WriteRejection> {
    if is_real {
        match value {
            RequestValue::Number { f32_bits, .. } => Ok(f32_bits as i32),
            _ => Err(WriteRejection::RealNeedsNumber),
        }
    } else {
        match value {
            RequestValue::Bool(b) => Ok(if b { 1i32 } else { 0i32 }),
            RequestValue::Number { int: Some(i), .. } => Ok(i as i32),
            _ => Err(WriteRejection::ExpectedIntOrBool),
        }
    }
}

/// What a northbound write request writes, given the latest snapshot:
/// the variable's type decides how the value is encoded.
pub open spec fn write_slot(latest: Option<VarSnapshot>, name: Seq<char>, value: RequestValue) -> Result<
    i32,
    WriteRejection,
> {
    match latest {
        None => Err(WriteRejection::UnknownVariable),
        Some(s) => match type_in(s.vars@, name) {
            None => Err(WriteRejection::UnknownVariable),
            Some(t) => slot_of(lower_seq(t) == "real"@, value),
        },
    }
}

fn find_type(vars: &Vec<VarValue>, name: &str) -> (r: Option<String>)
    ensures
        match r {
            Some(t) => type_in(vars@, name@) == Some(t@),
            None => type_in(vars@, name@) is None,
        },
{
    let wanted = name.to_string();
    let mut i: usize = 0;
    assert(vars@.skip(0) =~= vars@);
    while i < vars.len()
        invariant
            i <= vars.len(),
            wanted@ == name@,
            type_in(vars@, name@) == type_in(vars@.skip(i as int), name@),
        decreases vars.len() - i,
    {
        let ghost rest = vars@.skip(i as int);
        assert(rest[0] == vars@[i as int]);
        assert(rest.drop_first() =~= vars@.skip(i + 1));
        if vars[i].name == wanted {
            let t = vars[i].iec_type.clone();
            assert(t@ == vars@[i as int].iec_type@);
            return Some(t);
        }
        i += 1;
    }
    assert(vars@.skip(i as int).len() == 0);
    None
}

/// The slot value a northbound write request writes, or why it is
/// dropped: the variable must be in the latest snapshot; a REAL takes a
/// number's single-precision bits, any other type a boolean (as `1`/`0`)
/// or an integer (narrowed to 32 bits).
pub fn northbound_write_slot(latest: &Option<VarSnapshot>, name: &str, value: &RequestValue) -> (r: Result<
    i32,
    WriteRejection,
>)
    ensures
        r == write_slot(*latest, name@, *value),
{
    let t = match latest {
        None => return Err(WriteRejection::UnknownVariable),
        Some(s) => match find_type(&s.vars, name) {
            None => return Err(WriteRejection::UnknownVariable),
            Some(t) => t,
        },
    };
    let lower = crate::text::string_of(&crate::chars::lower_chars(&crate::text::chars_of(t.as_str())));
    let real_name = String::from_str("real");
    proof {
        reveal_strlit("real");
    }
    let is_real = lower == real_name;
    if is_real {
        match value {
            RequestValue::Number { f32_bits, .. } => Ok(*f32_bits as i32),
            _ => Err(WriteRejection::RealNeedsNumber),
        }
    } else {
        match value {
            RequestValue::Bool(b) => Ok(if *b { 1i32 } else { 0i32 }),
            RequestValue::Number { int: Some(i), .. } => Ok(*i as i32),
            _ => Err(WriteRejection::ExpectedIntOrBool),
        }
    }
}

} // verus!
