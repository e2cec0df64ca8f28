use ia2_project::bridge::{fbd_symbols, graphical_declarations, variable_symbols};
use ia2_project::governance::{governance_decision, GovernanceVerdict};
use ia2_project::ld::{LdPouType, LdVarSection, LdVariable};
use ia2_project::types::{PouLanguage, PouType};

fn var(name: &str, t: &str, section: LdVarSection) -> LdVariable {
    LdVariable { name: name.into(), iec_type: t.into(), section, init: None }
}

#[test]
fn graphical_pou_declares_itself() {
    let d = graphical_declarations("Mixer", LdPouType::FunctionBlock, PouLanguage::Fbd);
    assert_eq!(d.len(), 1);
    assert_eq!(d[0].name, "Mixer");
    assert_eq!(d[0].type_, PouType::FunctionBlock);
    assert_eq!(d[0].language, PouLanguage::Fbd);
    let d = graphical_declarations("Main", LdPouType::Program, PouLanguage::Ld);
    assert_eq!(d[0].type_, PouType::Program);
}

#[test]
fn graphical_symbols_report_sections_and_instances() {
    let vars = vec![
        var("start", "BOOL", LdVarSection::Input),
        var("motor", "BOOL", LdVarSection::Output),
        var("count", "INT", LdVarSection::Internal),
    ];
    let s = variable_symbols(&vars);
    let got: Vec<(&str, &str, &str)> =
        s.iter().map(|v| (v.name.as_str(), v.iec_type.as_str(), v.direction.as_str())).collect();
    assert_eq!(
        got,
        vec![("start", "BOOL", "input"), ("motor", "BOOL", "output"), ("count", "INT", "internal")]
    );
    let s = fbd_symbols(&vars[..1].to_vec(), &vec![("t1".to_string(), "TON".to_string())]);
    assert_eq!(s.len(), 2);
    assert_eq!(s[1].name, "t1");
    assert_eq!(s[1].iec_type, "TON");
    assert_eq!(s[1].direction, "fb_instance");
}

#[test]
fn governance_open_mode_passes_everything() {
    assert_eq!(governance_decision(true, &vec![], &vec![], "x", "main", "x"), GovernanceVerdict::Pass);
}

#[test]
fn governance_allowlist_matches_bare_or_qualified_names_case_insensitively() {
    let keys = vec!["SP_Flow".to_string(), "main.valve".to_string()];
    let bounded = vec![true, false];
    assert_eq!(
        governance_decision(false, &keys, &bounded, "sp_flow", "Main", "sp_flow"),
        GovernanceVerdict::Bounded { rule: 0 }
    );
    assert_eq!(
        governance_decision(false, &keys, &bounded, "MAIN.VALVE", "MAIN", "Valve"),
        GovernanceVerdict::Pass
    );
    assert_eq!(
        governance_decision(false, &keys, &bounded, "other.valve", "other", "valve"),
        GovernanceVerdict::Denied("other.valve (write_mode = allowlist, no rule allows it)".into())
    );
}
