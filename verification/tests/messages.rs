use static_routing::number::IntError;
use static_routing::route::Route;
use static_routing::rule::Rule;
use static_routing::token::TokenError;

fn route_says(line: &str) -> String {
    Route::from_str(line).unwrap_err().message()
}

fn rule_says(line: &str) -> String {
    Rule::from_str(line).unwrap_err().message()
}

#[test]
fn what_is_said_of_a_route_line() {
    assert_eq!(route_says(""), "missing version (want \"route4\" or \"route6\")");
    assert_eq!(route_says("route4"), "missing command (want \"add\" or \"del\")");
    assert_eq!(route_says("route4 put"), "invalid command put (want \"add\" or \"del\")");
    assert_eq!(route_says("route4 add to"), "missing value for attribute to");
    assert_eq!(route_says("route4 add to a to b"), "duplicate attribute to");
    assert_eq!(route_says("route add"), "invalid version: route (want \"route4\" or \"route6\")");
    assert_eq!(route_says("route4 add mtu 1"), "invalid attribute mtu");
    assert_eq!(route_says("route4 add to 10.0.0.0"), "invalid CIDR 10.0.0.0 (want exactly 1 /)");
    assert_eq!(
        route_says("route4 add to x/8"),
        "parse network address: invalid IP address syntax"
    );
    assert_eq!(
        route_says("route4 add onlink 1"),
        "parse bool: provided string was not `true` or `false`"
    );
    assert_eq!(
        route_says("route4 add to 10.0.0.0/"),
        "parse integer: cannot parse integer from empty string"
    );
    assert_eq!(route_says("route4 add table x"), "parse integer: invalid digit found in string");
    assert_eq!(
        route_says("route4 add to 10.0.0.0/999"),
        "parse integer: number too large to fit in target type"
    );
    assert_eq!(route_says("route4 add dev eth0"), "missing destination network (\"to\" attribute)");
    assert_eq!(route_says("route4 add to ::/0"), "route4 with non-IPv4 destination");
    assert_eq!(route_says("route6 add to 10.0.0.0/8"), "route6 with non-IPv6 destination");
    assert_eq!(route_says("route4 add to 10.0.0.0/8 via ::"), "route4 with non-IPv4 gateway");
    assert_eq!(route_says("route6 add to ::/0 via 10.0.0.1"), "route6 with non-IPv6 gateway");
    assert_eq!(
        route_says("route4 add to 10.0.0.0/8"),
        "missing network interface (\"dev\" attribute)"
    );
}

#[test]
fn what_is_said_of_a_rule_line() {
    assert_eq!(rule_says(""), "missing version (want \"rule\", \"rule4\" or \"rule6\")");
    assert_eq!(rule_says("rule"), "missing command (want \"add\" or \"del\")");
    assert_eq!(
        rule_says("rule5 add"),
        "invalid version: rule5 (want \"rule\", \"rule4\" or \"rule6\")"
    );
    assert_eq!(rule_says("rule add dev eth0"), "invalid attribute dev");
    assert_eq!(rule_says("rule add action jump"), "invalid action jump");
    assert_eq!(rule_says("rule add"), "missing action (\"action\" attribute)");
    assert_eq!(rule_says("rule add dst ::/0"), "protocol-agnostic rule with destination prefix");
    assert_eq!(rule_says("rule add src ::/0"), "protocol-agnostic rule with source prefix");
    assert_eq!(rule_says("rule4 add dst ::/0"), "rule4 with non-IPv4 destination");
    assert_eq!(rule_says("rule6 add dst 10.0.0.0/8"), "rule6 with non-IPv6 destination");
    assert_eq!(rule_says("rule4 add src ::/0"), "rule4 with non-IPv4 source");
    assert_eq!(rule_says("rule6 add src 10.0.0.0/8"), "rule6 with non-IPv6 source");
    assert_eq!(rule_says("rule4 add src 10.0.0.0"), "invalid CIDR 10.0.0.0 (want exactly 1 /)");
}

#[test]
fn what_is_said_of_parts() {
    assert_eq!(TokenError::NoVersion.message("one"), "missing version (want one)");
    assert_eq!(IntError::Empty.message(), "cannot parse integer from empty string");
}
