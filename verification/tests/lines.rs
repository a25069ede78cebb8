use static_routing::addr::{IpAddress, Ipv4Address, Ipv6Address};
use static_routing::route::Route;
use static_routing::rule::{Rule, RuleAction, RuleVersion};
use static_routing::token::tokenize;

fn route_again(line: &str) -> String {
    let route = Route::from_str(line).unwrap();
    let written = route.to_line();
    assert_eq!(Route::from_str(&written), Ok(route), "{:?}", written);
    written
}

fn rule_again(line: &str) -> String {
    let rule = Rule::from_str(line).unwrap();
    let written = rule.to_line();
    assert_eq!(Rule::from_str(&written), Ok(rule), "{:?}", written);
    written
}

#[test]
fn route_lines_are_written_in_one_form() {
    assert_eq!(
        route_again("route4 add to 192.0.2.0/24 via 192.0.2.1 dev eth0"),
        "route4 add to 192.0.2.0/24 via 192.0.2.1 dev eth0"
    );
    assert_eq!(
        route_again("route6 del to 2001:db8::/32 dev eth0"),
        "route6 del to 2001:db8:0:0:0:0:0:0/32 dev eth0"
    );
    assert_eq!(
        route_again(" route6  add dev wan0 metric 1024 table 254 onlink true via fe80::1 to ::/0"),
        "route6 add to 0:0:0:0:0:0:0:0/0 via fe80:0:0:0:0:0:0:1 onlink true table 254 metric 1024 dev wan0"
    );
    assert_eq!(
        route_again("route4 add to 10.0.0.0/+08 onlink false metric 0 dev eth0"),
        "route4 add to 10.0.0.0/8 metric 0 dev eth0"
    );
    assert_eq!(
        route_again("route6 add to ::ffff:192.0.2.1/128 dev e"),
        "route6 add to 0:0:0:0:0:ffff:c000:201/128 dev e"
    );
}

#[test]
fn rule_lines_are_written_in_one_form() {
    assert_eq!(
        rule_again("rule add fwmark 7 action to_table table 50"),
        "rule add fwmark 7 action to_table table 50"
    );
    assert_eq!(
        rule_again("rule4 add dst 10.0.0.0/8 action blackhole"),
        "rule4 add dst 10.0.0.0/8 action blackhole"
    );
    assert_eq!(rule_again("rule add action to_table"), "rule add action to_table table 0");
    assert_eq!(rule_again("rule del table 5 action prohibit"), "rule del action prohibit table 5");
    assert_eq!(rule_again("rule del table 0 action prohibit"), "rule del action prohibit");
    assert_eq!(
        rule_again("rule6 del table 9 action unreachable src 2001:DB8::/32 dst ::1/128 fwmark 4294967295 invert true"),
        "rule6 del invert true fwmark 4294967295 dst 0:0:0:0:0:0:0:1/128 src 2001:db8:0:0:0:0:0:0/32 action unreachable table 9"
    );
    assert_eq!(rule_again("rule add invert false action blackhole"), "rule add action blackhole");
}

#[test]
fn rule_with_an_action_without_a_word_is_written_with_its_number() {
    let rule = Rule {
        delete: false,
        version: RuleVersion::Both,
        invert: false,
        fwmark: None,
        dst: None,
        src: None,
        action: RuleAction::Other(200),
        table: 0,
    };
    assert_eq!(rule.to_line(), "rule add action 200");
    assert!(Rule::from_str(&rule.to_line()).is_err());
}

#[test]
fn addresses_are_written_as_they_are_read() {
    let cases = [
        IpAddress::V4(Ipv4Address::new(0, 0, 0, 0)),
        IpAddress::V4(Ipv4Address::new(255, 255, 255, 255)),
        IpAddress::V4(Ipv4Address::new(10, 0, 100, 9)),
        IpAddress::V6(Ipv6Address::new([0; 8])),
        IpAddress::V6(Ipv6Address::new([0xffff; 8])),
        IpAddress::V6(Ipv6Address::new([0x2001, 0xdb8, 0, 0x10, 0x100, 0x1000, 0xa, 0xabcd])),
    ];
    for a in cases {
        assert_eq!(IpAddress::parse(&a.to_line()), Some(a));
    }
    assert_eq!(cases[2].to_line(), "10.0.100.9");
    assert_eq!(cases[5].to_line(), "2001:db8:0:10:100:1000:a:abcd");
}

#[test]
fn lines_are_written_with_single_spaces() {
    let t = tokenize("\tx   del  a 1\u{a0}b  2 ").unwrap();
    assert_eq!(t.to_line(), "x del a 1 b 2");
    assert_eq!(tokenize(&t.to_line()), Ok(t));
    assert_eq!(tokenize("y add").unwrap().to_line(), "y add");
}

fn next(seed: &mut u64) -> u64 {
    *seed = seed.wrapping_mul(6364136223846793005).wrapping_add(1442695040888963407);
    *seed >> 33
}

fn small(seed: &mut u64) -> u16 {
    match next(seed) % 4 {
        0 => 0,
        1 => (next(seed) % 16) as u16,
        2 => (next(seed) % 256) as u16,
        _ => next(seed) as u16,
    }
}

fn any_address(seed: &mut u64, v6: bool) -> IpAddress {
    if v6 {
        let mut g = [0u16; 8];
        for x in g.iter_mut() {
            *x = small(seed);
        }
        IpAddress::V6(Ipv6Address::new(g))
    } else {
        IpAddress::V4(Ipv4Address::new(
            small(seed) as u8,
            small(seed) as u8,
            small(seed) as u8,
            small(seed) as u8,
        ))
    }
}

#[test]
fn many_rules_are_read_as_they_were_written() {
    let mut seed = 7u64;
    let actions = [
        RuleAction::ToTable,
        RuleAction::Blackhole,
        RuleAction::Unreachable,
        RuleAction::Prohibit,
    ];
    for _ in 0..500 {
        let version = match next(&mut seed) % 3 {
            0 => RuleVersion::Both,
            1 => RuleVersion::Ipv4,
            _ => RuleVersion::Ipv6,
        };
        let v6 = version == RuleVersion::Ipv6;
        let prefix = |seed: &mut u64| {
            if version == RuleVersion::Both || next(seed) % 2 == 0 {
                None
            } else {
                Some((any_address(seed, v6), next(seed) as u8))
            }
        };
        let rule = Rule {
            delete: next(&mut seed) % 2 == 0,
            version,
            invert: next(&mut seed) % 2 == 0,
            fwmark: if next(&mut seed) % 2 == 0 { None } else { Some(next(&mut seed) as u32) },
            dst: prefix(&mut seed),
            src: prefix(&mut seed),
            action: actions[(next(&mut seed) % 4) as usize],
            table: if next(&mut seed) % 2 == 0 { 0 } else { next(&mut seed) as u32 },
        };
        assert!(rule.is_wf());
        assert_eq!(Rule::from_str(&rule.to_line()), Ok(rule), "{}", rule.to_line());
    }
}

#[test]
fn many_routes_are_read_as_they_were_written() {
    let mut seed = 11u64;
    for _ in 0..500 {
        let v6 = next(&mut seed) % 2 == 0;
        let mut line = String::new();
        line.push_str(if v6 { "route6" } else { "route4" });
        line.push_str(if next(&mut seed) % 2 == 0 { " add" } else { " del" });
        line.push_str(&format!(" to {}/{}", any_address(&mut seed, v6).to_line(), next(&mut seed) as u8));
        if next(&mut seed) % 2 == 0 {
            line.push_str(&format!(" via {}", any_address(&mut seed, v6).to_line()));
        }
        if next(&mut seed) % 2 == 0 {
            line.push_str(" onlink true");
        }
        if next(&mut seed) % 2 == 0 {
            line.push_str(&format!(" table {}", next(&mut seed) as u32));
        }
        if next(&mut seed) % 2 == 0 {
            line.push_str(&format!(" metric {}", next(&mut seed) as u32));
        }
        line.push_str(&format!(" dev eth{}", next(&mut seed) % 10));
        let route = Route::from_str(&line).unwrap();
        assert_eq!(route.to_line(), line);
        assert_eq!(Route::from_str(&route.to_line()), Ok(route));
    }
}
