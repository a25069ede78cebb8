use static_routing::reconcile::{first_step, is_last, next_step, Step};
use static_routing::route::Routes;
use static_routing::rule::Rules;

fn steps(routes: &Routes, rules: &Rules, outcomes: &[bool]) -> Vec<Step> {
    let mut step = first_step();
    let mut seen = vec![step];
    for ok in outcomes {
        step = next_step(routes, rules, step, *ok);
        seen.push(step);
    }
    seen
}

fn none() -> (Routes, Rules) {
    (Routes::from_str("").unwrap(), Rules::from_str("").unwrap())
}

#[test]
fn one_route_whose_removal_fails_is_still_set_up() {
    let routes = Routes::from_str("route4 add to 10.0.0.0/8 dev eth0").unwrap();
    let rules = Rules::from_str("").unwrap();
    assert_eq!(routes.routes[0].def.link(), "eth0");
    let got = steps(&routes, &rules, &[true, false, true, true]);
    let want = vec![
        Step::Connect,
        Step::DeleteRoute(0),
        Step::WaitLink(0),
        Step::AddRoute(0),
        Step::Idle,
    ];
    assert_eq!(got, want);
    assert!(is_last(Step::Idle));
}

#[test]
fn rule_for_both_families_asks_for_both() {
    let routes = Routes::from_str("").unwrap();
    let rules = Rules::from_str("rule add fwmark 7 action to_table table 50").unwrap();
    let got = steps(&routes, &rules, &[true, true, true, true, true]);
    let want = vec![
        Step::Connect,
        Step::DeleteRule(0, 0),
        Step::DeleteRule(0, 1),
        Step::AddRule(0, 0),
        Step::AddRule(0, 1),
        Step::Idle,
    ];
    assert_eq!(got, want);
    let asked = rules.rules[0].requests();
    assert_eq!(asked.len(), 2);
}

#[test]
fn rule_that_fails_for_ipv4_is_not_tried_for_ipv6() {
    let (routes, _) = none();
    let rules = Rules::from_str("rule add action prohibit\nrule4 add action prohibit").unwrap();
    let got = steps(&routes, &rules, &[true, false, false, true, true]);
    let want = vec![
        Step::Connect,
        Step::DeleteRule(0, 0),
        Step::AddRule(0, 0),
        Step::DeleteRule(1, 0),
        Step::AddRule(1, 0),
        Step::Idle,
    ];
    assert_eq!(got, want);
}

#[test]
fn nothing_is_applied_without_a_connection() {
    let routes = Routes::from_str("route4 add to 10.0.0.0/8 dev eth0").unwrap();
    let rules = Rules::from_str("rule add action prohibit").unwrap();
    assert_eq!(steps(&routes, &rules, &[false]), vec![Step::Connect, Step::Abort]);
    assert!(is_last(Step::Abort));
    assert!(!is_last(Step::Connect));
}

#[test]
fn nothing_to_apply() {
    let (routes, rules) = none();
    assert_eq!(steps(&routes, &rules, &[true, true]), vec![Step::Connect, Step::Idle, Step::Idle]);
}

#[test]
fn failed_wait_ends_the_run() {
    let routes = Routes::from_str("route4 add to 10.0.0.0/8 dev eth0\nroute4 add to 10.1.0.0/16 dev eth1")
        .unwrap();
    let (_, rules) = none();
    let got = steps(&routes, &rules, &[true, true, false, true]);
    let want = vec![
        Step::Connect,
        Step::DeleteRoute(0),
        Step::WaitLink(0),
        Step::Abort,
        Step::Abort,
    ];
    assert_eq!(got, want);
}

#[test]
fn removal_only_entries_are_not_set_up() {
    let routes = Routes::from_str("route4 del to 10.0.0.0/8 dev eth0\nroute6 add to ::/0 dev eth1")
        .unwrap();
    let rules = Rules::from_str("rule6 del action blackhole\nrule del action prohibit").unwrap();
    let got = steps(&routes, &rules, &[true; 10]);
    let want = vec![
        Step::Connect,
        Step::DeleteRoute(0),
        Step::WaitLink(0),
        Step::DeleteRoute(1),
        Step::WaitLink(1),
        Step::AddRoute(1),
        Step::DeleteRule(0, 0),
        Step::DeleteRule(1, 0),
        Step::DeleteRule(1, 1),
        Step::Idle,
        Step::Idle,
    ];
    assert_eq!(got, want);
}

#[test]
fn every_removal_and_set_up_may_fail() {
    let routes = Routes::from_str("route4 add to 10.0.0.0/8 dev eth0\nroute6 add to ::/0 dev eth1")
        .unwrap();
    let rules = Rules::from_str("rule4 add action blackhole").unwrap();
    let got = steps(&routes, &rules, &[true, false, true, false, false, true, false, false, false]);
    let want = vec![
        Step::Connect,
        Step::DeleteRoute(0),
        Step::WaitLink(0),
        Step::AddRoute(0),
        Step::DeleteRoute(1),
        Step::WaitLink(1),
        Step::AddRoute(1),
        Step::DeleteRule(0, 0),
        Step::AddRule(0, 0),
        Step::Idle,
    ];
    assert_eq!(got, want);
}

#[test]
fn step_that_speaks_of_no_entry_ends_the_run() {
    let (routes, rules) = none();
    assert_eq!(next_step(&routes, &rules, Step::DeleteRoute(0), true), Step::Abort);
    assert_eq!(next_step(&routes, &rules, Step::WaitLink(3), true), Step::Abort);
    assert_eq!(next_step(&routes, &rules, Step::AddRoute(0), true), Step::Abort);
    assert_eq!(next_step(&routes, &rules, Step::DeleteRule(0, 0), true), Step::Abort);
    let rules = Rules::from_str("rule4 add action blackhole").unwrap();
    assert_eq!(next_step(&routes, &rules, Step::AddRule(0, 1), true), Step::Abort);
    assert_eq!(next_step(&routes, &rules, Step::AddRule(0, 0), true), Step::Idle);
}
