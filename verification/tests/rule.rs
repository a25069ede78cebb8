use static_routing::addr::{IpAddress, Ipv4Address, Ipv6Address};
use static_routing::number::IntError;
use static_routing::rule::{Rule, RuleAction, RuleDef, RuleEntry, RuleParseError, RuleVersion, Rules};
use static_routing::token::TokenError;
use static_routing::value::ValueError;

fn err(line: &str) -> RuleParseError {
    Rule::from_str(line).unwrap_err()
}

#[test]
fn rule_for_both_families() {
    let got = Rule::from_str("rule add fwmark 7 action to_table table 50").unwrap();
    let want = Rule {
        delete: false,
        version: RuleVersion::Both,
        invert: false,
        fwmark: Some(7),
        dst: None,
        src: None,
        action: RuleAction::ToTable,
        table: 50,
    };
    assert_eq!(got, want);
    assert!(got.is_wf());
    let entry4 = RuleEntry {
        invert: false,
        fwmark: Some(7),
        dst: None,
        src: None,
        action: RuleAction::ToTable,
        table: 50,
    };
    let entry6 = RuleEntry {
        invert: false,
        fwmark: Some(7),
        dst: None,
        src: None,
        action: RuleAction::ToTable,
        table: 50,
    };
    assert_eq!(got.requests(), vec![RuleDef::V4(entry4), RuleDef::V6(entry6)]);
}

#[test]
fn rule_from_the_grammar() {
    let got = Rule::from_str("rule add fwmark 42 action to_table table 100").unwrap();
    assert_eq!(got.fwmark, Some(42));
    assert_eq!(got.table, 100);
    assert_eq!(got.action, RuleAction::ToTable);
    assert_eq!(got.version, RuleVersion::Both);
}

#[test]
fn rule4_with_destination() {
    let got = Rule::from_str("rule4 add dst 10.0.0.0/8 action blackhole").unwrap();
    let want = Rule {
        delete: false,
        version: RuleVersion::Ipv4,
        invert: false,
        fwmark: None,
        dst: Some((IpAddress::V4(Ipv4Address::new(10, 0, 0, 0)), 8)),
        src: None,
        action: RuleAction::Blackhole,
        table: 0,
    };
    assert_eq!(got, want);
    assert_eq!(
        got.requests(),
        vec![RuleDef::V4(RuleEntry {
            invert: false,
            fwmark: None,
            dst: Some((Ipv4Address::new(10, 0, 0, 0), 8)),
            src: None,
            action: RuleAction::Blackhole,
            table: 0,
        })]
    );
}

#[test]
fn rule6_with_every_attribute() {
    let got = Rule::from_str(
        "rule6 del table 9 action unreachable src 2001:db8::/32 dst ::1/128 fwmark 1 invert true",
    )
    .unwrap();
    let src = Ipv6Address::new([0x2001, 0xdb8, 0, 0, 0, 0, 0, 0]);
    let dst = Ipv6Address::new([0, 0, 0, 0, 0, 0, 0, 1]);
    let want = Rule {
        delete: true,
        version: RuleVersion::Ipv6,
        invert: true,
        fwmark: Some(1),
        dst: Some((IpAddress::V6(dst), 128)),
        src: Some((IpAddress::V6(src), 32)),
        action: RuleAction::Unreachable,
        table: 9,
    };
    assert_eq!(got, want);
    assert_eq!(
        got.requests(),
        vec![RuleDef::V6(RuleEntry {
            invert: true,
            fwmark: Some(1),
            dst: Some((dst, 128)),
            src: Some((src, 32)),
            action: RuleAction::Unreachable,
            table: 9,
        })]
    );
}

#[test]
fn every_action_word() {
    assert_eq!(Rule::from_str("rule add action to_table").unwrap().action, RuleAction::ToTable);
    assert_eq!(Rule::from_str("rule add action blackhole").unwrap().action, RuleAction::Blackhole);
    assert_eq!(
        Rule::from_str("rule add action unreachable").unwrap().action,
        RuleAction::Unreachable
    );
    assert_eq!(Rule::from_str("rule add action prohibit").unwrap().action, RuleAction::Prohibit);
    assert_eq!(err("rule add action goto"), RuleParseError::InvalidAction("goto".to_string()));
    assert_eq!(err("rule add action 7"), RuleParseError::InvalidAction("7".to_string()));
    assert_eq!(err("rule add fwmark 7"), RuleParseError::NoAction);
}

#[test]
fn rule4_with_ipv6_destination_is_a_family_mismatch() {
    assert_eq!(err("rule4 add dst 2001:db8::/32 action blackhole"), RuleParseError::DstNotIpv4);
}

#[test]
fn rule_of_the_other_family() {
    assert_eq!(err("rule6 add dst 10.0.0.0/8 action blackhole"), RuleParseError::DstNotIpv6);
    assert_eq!(err("rule4 add src 2001:db8::/32 action blackhole"), RuleParseError::SrcNotIpv4);
    assert_eq!(err("rule6 add src 10.0.0.0/8 action blackhole"), RuleParseError::SrcNotIpv6);
    assert_eq!(
        err("rule4 add src ::/0 dst ::/0 action blackhole"),
        RuleParseError::DstNotIpv4
    );
}

#[test]
fn rule_for_both_families_takes_no_prefix() {
    assert_eq!(err("rule add dst 10.0.0.0/8 action blackhole"), RuleParseError::DstIllegal);
    assert_eq!(err("rule add dst 2001:db8::/32 action blackhole"), RuleParseError::DstIllegal);
    assert_eq!(err("rule add src 10.0.0.0/8 action blackhole"), RuleParseError::SrcIllegal);
    assert_eq!(err("rule add src ::/0 dst ::/0"), RuleParseError::DstIllegal);
    assert_eq!(err("rule add src ::/0"), RuleParseError::SrcIllegal);
}

#[test]
fn rule_line_that_cannot_be_taken_apart() {
    assert_eq!(err(""), RuleParseError::Token(TokenError::NoVersion));
    assert_eq!(err("rule"), RuleParseError::Token(TokenError::NoCmd));
    assert_eq!(
        err("rule set action prohibit"),
        RuleParseError::Token(TokenError::InvalidCmd("set".to_string()))
    );
    assert_eq!(
        err("rule add action"),
        RuleParseError::Token(TokenError::NoAttrValue("action".to_string()))
    );
    assert_eq!(
        err("rule add action prohibit action blackhole"),
        RuleParseError::Token(TokenError::DuplicateAttr("action".to_string()))
    );
}

#[test]
fn rule_with_wrong_first_word_key_or_value() {
    assert_eq!(
        err("route4 add action prohibit"),
        RuleParseError::InvalidVersion("route4".to_string())
    );
    assert_eq!(
        err("rule add action prohibit to 10.0.0.0/8"),
        RuleParseError::InvalidAttr("to".to_string())
    );
    assert_eq!(
        err("rule add invert 1 action prohibit"),
        RuleParseError::Value(ValueError::ParseBool)
    );
    assert_eq!(
        err("rule add fwmark 0x7 action prohibit"),
        RuleParseError::Value(ValueError::ParseInt(IntError::InvalidDigit))
    );
    assert_eq!(
        err("rule4 add dst 10.0.0.0 action prohibit"),
        RuleParseError::Value(ValueError::InvalidCidr("10.0.0.0".to_string()))
    );
    assert_eq!(
        err("rule4 add src 10.0.0.0/8/1 action prohibit"),
        RuleParseError::Value(ValueError::InvalidCidr("10.0.0.0/8/1".to_string()))
    );
    assert_eq!(
        err("rule add table -1 action prohibit"),
        RuleParseError::Value(ValueError::ParseInt(IntError::InvalidDigit))
    );
}

#[test]
fn table_is_kept_with_any_action() {
    let got = Rule::from_str("rule add action blackhole table 5").unwrap();
    assert_eq!(got.table, 5);
    assert_eq!(Rule::from_str("rule add action to_table").unwrap().table, 0);
}

#[test]
fn rules_of_a_text() {
    let text = "rule add fwmark 7 action to_table table 50\nrule4 del dst 10.0.0.0/8 action blackhole";
    let rules = Rules::from_str(text).unwrap();
    assert_eq!(rules.rules.len(), 2);
    assert_eq!(rules.rules[0].fwmark, Some(7));
    assert!(rules.rules[1].delete);
    assert_eq!(Rules::from_str("").unwrap().rules.len(), 0);
    assert_eq!(
        Rules::from_str("rule add action prohibit\nrule add\n").unwrap_err(),
        RuleParseError::NoAction
    );
}

#[test]
fn default_version_is_both() {
    assert_eq!(RuleVersion::default(), RuleVersion::Both);
}

#[test]
fn wellformedness_is_decided() {
    let mut rule = Rule::from_str("rule4 add dst 10.0.0.0/8 action blackhole").unwrap();
    assert!(rule.is_wf());
    rule.version = RuleVersion::Ipv6;
    assert!(!rule.is_wf());
    rule.version = RuleVersion::Both;
    assert!(!rule.is_wf());
}
