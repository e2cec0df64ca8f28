//! Write governance: which external variable writes an allow-list lets
//! through. In open mode every write passes; under the allow-list a write
//! needs a rule naming the variable, by its bare name or as
//! `instance.variable`, compared lower-cased. A rule with bounds leaves
//! the value to be clamped into them.
use vstd::prelude::*;

use crate::bridge::{to_lowercase as lowercase, unicode_lowercase};

verus! {

/// What governance makes of one write.
#[derive(Debug, Clone, PartialEq, Eq)]
pub enum GovernanceVerdict {
    /// The value is written as sent.
    Pass,
    /// Rule `rule` allows the write and bounds the value.
    Bounded { rule: usize },
    /// The write is refused, with this reason.
    Denied(String),
}

/// A verdict with its reason as plain text.
pub enum VerdictView {
    Pass,
    Bounded(int),
    Denied(Seq<char>),
}

pub open spec fn verdict_view(v: GovernanceVerdict) -> VerdictView {
    match v {
        GovernanceVerdict::Pass => VerdictView::Pass,
        GovernanceVerdict::Bounded { rule } => VerdictView::Bounded(rule as int),
        GovernanceVerdict::Denied(m) => VerdictView::Denied(m@),
    }
}

/// Whether a rule keyed `key` covers the variable `bare` of `instance`.
pub open spec fn rule_covers(key: Seq<char>, instance: Seq<char>, bare: Seq<char>) -> bool {
    let k = unicode_lowercase(key);
    let b = unicode_lowercase(bare);
    k == b || k == unicode_lowercase(instance) + "."@ + b
}

/// The first rule, from `i` on, that covers the variable.
pub open spec fn first_rule_from(keys: Seq<Seq<char>>, instance: Seq<char>, bare: Seq<char>, i: int) -> Option<
    int,
>
    decreases keys.len() - i,
{
    if i < 0 || i >= keys.len() {
        None
    } else if rule_covers(keys[i], instance, bare) {
        Some(i)
    } else {
        first_rule_from(keys, instance, bare, i + 1)
    }
}

pub open spec fn denial_text(name: Seq<char>) -> Seq<char> {
    name + " (write_mode = allowlist, no rule allows it)"@
}

/// The verdict on a write of variable `bare` of program `instance`
/// (reported as `name`), given the mode and the rules' keys and whether
/// each rule has a bound.
pub open spec fn spec_governance(
    open: bool,
    keys: Seq<Seq<char>>,
    bounded: Seq<bool>,
    name: Seq<char>,
    instance: Seq<char>,
    bare: Seq<char>,
) -> VerdictView {
    if open {
        VerdictView::Pass
    } else {
        match first_rule_from(keys, instance, bare, 0) {
            None => VerdictView::Denied(denial_text(name)),
            Some(k) => if bounded[k] {
                VerdictView::Bounded(k)
            } else {
                VerdictView::Pass
            },
        }
    }
}

/// Decides one external write under write governance: open mode passes
/// it; under the allow-list the first rule whose key, lower-cased, is the
/// variable's bare name or `instance.variable` (both lower-cased) decides
/// it: passed when the rule has no bound, to be clamped when it has one.
/// Without such a rule the write is denied.
pub fn governance_decision(
    open: bool,
    rule_keys: &Vec<String>,
    bounded: &Vec<bool>,
    name: &str,
    instance: &str,
    bare: &str,
) -> (r: GovernanceVerdict)
    requires
        bounded@.len() == rule_keys@.len(),
    ensures
        verdict_view(r) == spec_governance(
            open,
            crate::text::views(rule_keys@),
            bounded@,
            name@,
            instance@,
            bare@,
        ),
{
    if open {
        return GovernanceVerdict::Pass;
    }
    let ghost keys = crate::text::views(rule_keys@);
    let b = lowercase(bare);
    let mut q = lowercase(instance);
    q.append(".");
    q.append(b.as_str());
    let mut i: usize = 0;
    while i < rule_keys.len()
        invariant
            i <= rule_keys.len(),
            !open,
            bounded@.len() == rule_keys@.len(),
            keys == crate::text::views(rule_keys@),
            b@ == unicode_lowercase(bare@),
            q@ == unicode_lowercase(instance@) + "."@ + unicode_lowercase(bare@),
            first_rule_from(keys, instance@, bare@, 0) == first_rule_from(keys, instance@, bare@, i as int),
        decreases rule_keys.len() - i,
    {
        let k = lowercase(rule_keys[i].as_str());
        assert(keys[i as int] == rule_keys@[i as int]@);
        if k == b || k == q {
            if bounded[i] {
                return GovernanceVerdict::Bounded { rule: i };
            }
            return GovernanceVerdict::Pass;
        }
        i += 1;
    }
    let mut m = name.to_string();
    m.append(" (write_mode = allowlist, no rule allows it)");
    assert(keys.len() == rule_keys@.len());
    GovernanceVerdict::Denied(m)
}

proof fn lemma_first_rule_same(
    keys1: Seq<Seq<char>>,
    keys2: Seq<Seq<char>>,
    instance: Seq<char>,
    bare: Seq<char>,
    i: int,
)
    requires
        keys1.len() == keys2.len(),
        forall|k: int| 0 <= k < keys1.len() ==> unicode_lowercase(#[trigger] keys1[k]) == unicode_lowercase(
            keys2[k],
        ),
    ensures
        first_rule_from(keys1, instance, bare, i) == first_rule_from(keys2, instance, bare, i),
    decreases keys1.len() - i,
{
    if 0 <= i < keys1.len() {
        assert(unicode_lowercase(keys1[i]) == unicode_lowercase(keys2[i]));
        lemma_first_rule_same(keys1, keys2, instance, bare, i + 1);
    }
}

/// Rule keys are compared without regard to letter case: two rule lists
/// whose keys lower-case alike give every write the same verdict.
pub proof fn verdict_ignores_rule_key_case(
    open: bool,
    keys1: Seq<Seq<char>>,
    keys2: Seq<Seq<char>>,
    bounded: Seq<bool>,
    name: Seq<char>,
    instance: Seq<char>,
    bare: Seq<char>,
)
    requires
        keys1.len() == keys2.len(),
        forall|k: int| 0 <= k < keys1.len() ==> unicode_lowercase(#[trigger] keys1[k]) == unicode_lowercase(
            keys2[k],
        ),
    ensures
        spec_governance(open, keys1, bounded, name, instance, bare) == spec_governance(
            open,
            keys2,
            bounded,
            name,
            instance,
            bare,
        ),
{
    lemma_first_rule_same(keys1, keys2, instance, bare, 0);
}

proof fn lemma_first_rule_found(keys: Seq<Seq<char>>, instance: Seq<char>, bare: Seq<char>, i: int, j: int)
    requires
        0 <= i <= j < keys.len(),
        rule_covers(keys[j], instance, bare),
    ensures
        first_rule_from(keys, instance, bare, i) matches Some(k) && i <= k <= j,
    decreases j - i,
{
    if !rule_covers(keys[i], instance, bare) {
        lemma_first_rule_found(keys, instance, bare, i + 1, j);
    }
}

proof fn lemma_first_rule_none(keys: Seq<Seq<char>>, instance: Seq<char>, bare: Seq<char>, i: int)
    requires
        0 <= i,
        forall|j: int| i <= j < keys.len() ==> !rule_covers(#[trigger] keys[j], instance, bare),
    ensures
        first_rule_from(keys, instance, bare, i) is None,
    decreases keys.len() - i,
{
    if i < keys.len() {
        lemma_first_rule_none(keys, instance, bare, i + 1);
    }
}

/// Under the allow-list a write is denied exactly when no rule key,
/// lower-cased, is the variable's lower-cased bare name or its lower-cased
/// `instance` followed by `.` and the lower-cased bare name; the reason
/// names the write. When a rule does match, the first matching rule
/// decides: the write passes when that rule has no bound and is to be
/// clamped by it otherwise. In open mode every write passes.
pub proof fn allowlist_verdict(
    open: bool,
    keys: Seq<Seq<char>>,
    bounded: Seq<bool>,
    name: Seq<char>,
    instance: Seq<char>,
    bare: Seq<char>,
)
    requires
        bounded.len() == keys.len(),
    ensures
        open ==> spec_governance(open, keys, bounded, name, instance, bare) == VerdictView::Pass,
        !open ==> (spec_governance(open, keys, bounded, name, instance, bare) is Denied <==> forall|j: int|
            0 <= j < keys.len() ==> unicode_lowercase(#[trigger] keys[j]) != unicode_lowercase(bare)
                && unicode_lowercase(keys[j]) != unicode_lowercase(instance) + "."@ + unicode_lowercase(
                bare,
            )),
        !open ==> (spec_governance(open, keys, bounded, name, instance, bare) matches VerdictView::Denied(m)
            ==> m == name + " (write_mode = allowlist, no rule allows it)"@),
        !open ==> forall|j: int|
            0 <= j < keys.len() && (unicode_lowercase(#[trigger] keys[j]) == unicode_lowercase(bare)
                || unicode_lowercase(keys[j]) == unicode_lowercase(instance) + "."@ + unicode_lowercase(
                bare,
            )) && (forall|i: int|
                0 <= i < j ==> unicode_lowercase(#[trigger] keys[i]) != unicode_lowercase(bare)
                    && unicode_lowercase(keys[i]) != unicode_lowercase(instance) + "."@
                    + unicode_lowercase(bare)) ==> spec_governance(
                open,
                keys,
                bounded,
                name,
                instance,
                bare,
            ) == if bounded[j] {
                VerdictView::Bounded(j)
            } else {
                VerdictView::Pass
            },
{
    if !open {
        if exists|j: int|
            0 <= j < keys.len() && (unicode_lowercase(#[trigger] keys[j]) == unicode_lowercase(bare)
                || unicode_lowercase(keys[j]) == unicode_lowercase(instance) + "."@ + unicode_lowercase(
                bare,
            )) {
            let j = choose|j: int|
                0 <= j < keys.len() && (unicode_lowercase(#[trigger] keys[j]) == unicode_lowercase(bare)
                    || unicode_lowercase(keys[j]) == unicode_lowercase(instance) + "."@
                    + unicode_lowercase(bare));
            assert(rule_covers(keys[j], instance, bare));
            lemma_first_rule_found(keys, instance, bare, 0, j);
        } else {
            assert forall|j: int| 0 <= j < keys.len() implies !rule_covers(#[trigger] keys[j], instance, bare) by {
                if rule_covers(keys[j], instance, bare) {
                    assert(unicode_lowercase(keys[j]) == unicode_lowercase(bare) || unicode_lowercase(keys[j])
                        == unicode_lowercase(instance) + "."@ + unicode_lowercase(bare));
                }
            }
            lemma_first_rule_none(keys, instance, bare, 0);
        }
        assert forall|j: int|
            0 <= j < keys.len() && (unicode_lowercase(#[trigger] keys[j]) == unicode_lowercase(bare)
                || unicode_lowercase(keys[j]) == unicode_lowercase(instance) + "."@ + unicode_lowercase(
                bare,
            )) && (forall|i: int|
                0 <= i < j ==> unicode_lowercase(#[trigger] keys[i]) != unicode_lowercase(bare)
                    && unicode_lowercase(keys[i]) != unicode_lowercase(instance) + "."@
                    + unicode_lowercase(bare)) implies spec_governance(
            open,
            keys,
            bounded,
            name,
            instance,
            bare,
        ) == if bounded[j] {
            VerdictView::Bounded(j)
        } else {
            VerdictView::Pass
        } by {
            assert(rule_covers(keys[j], instance, bare));
            lemma_first_rule_found(keys, instance, bare, 0, j);
            let k = first_rule_from(keys, instance, bare, 0)->Some_0;
            if k < j {
                lemma_first_rule_is_covering(keys, instance, bare, 0);
                assert(rule_covers(keys[k], instance, bare));
                assert(unicode_lowercase(keys[k]) != unicode_lowercase(bare));
            }
        }
    }
}

proof fn lemma_first_rule_is_covering(keys: Seq<Seq<char>>, instance: Seq<char>, bare: Seq<char>, i: int)
    ensures
        first_rule_from(keys, instance, bare, i) matches Some(k) ==> 0 <= k < keys.len() && rule_covers(
            keys[k],
            instance,
            bare,
        ),
    decreases keys.len() - i,
{
    if 0 <= i < keys.len() && !rule_covers(keys[i], instance, bare) {
        lemma_first_rule_is_covering(keys, instance, bare, i + 1);
    }
}

} // verus!
