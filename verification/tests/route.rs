use static_routing::addr::{Ipv4Address, Ipv6Address};
use static_routing::number::IntError;
use static_routing::route::{Route, RouteDef, RouteEntry, RouteParseError, Routes};
use static_routing::token::TokenError;
use static_routing::value::ValueError;

fn err(line: &str) -> RouteParseError {
    Route::from_str(line).unwrap_err()
}

#[test]
fn route4_with_gateway() {
    let got = Route::from_str("route4 add to 192.0.2.0/24 via 192.0.2.1 dev eth0").unwrap();
    let want = Route {
        delete: false,
        def: RouteDef::V4(RouteEntry {
            dst: Ipv4Address::new(192, 0, 2, 0),
            prefix_len: 24,
            rtr: Some(Ipv4Address::new(192, 0, 2, 1)),
            on_link: false,
            table: None,
            metric: None,
            link: "eth0".to_string(),
        }),
    };
    assert_eq!(got, want);
    assert_eq!(got.def.link(), "eth0");
}

#[test]
fn route6_removed() {
    let got = Route::from_str("route6 del to 2001:db8::/32 dev eth0").unwrap();
    let want = Route {
        delete: true,
        def: RouteDef::V6(RouteEntry {
            dst: Ipv6Address::new([0x2001, 0xdb8, 0, 0, 0, 0, 0, 0]),
            prefix_len: 32,
            rtr: None,
            on_link: false,
            table: None,
            metric: None,
            link: "eth0".to_string(),
        }),
    };
    assert_eq!(got, want);
}

#[test]
fn route4_without_gateway() {
    let got = Route::from_str("route4 add to 10.0.0.0/8 dev eth0").unwrap();
    let want = Route {
        delete: false,
        def: RouteDef::V4(RouteEntry {
            dst: Ipv4Address::new(10, 0, 0, 0),
            prefix_len: 8,
            rtr: None,
            on_link: false,
            table: None,
            metric: None,
            link: "eth0".to_string(),
        }),
    };
    assert_eq!(got, want);
}

#[test]
fn route_with_every_attribute_in_any_order() {
    let got = Route::from_str(
        "  route6\tadd  dev wan0 metric 1024 table 254 onlink true via fe80::1 to ::/0 ",
    )
    .unwrap();
    let want = Route {
        delete: false,
        def: RouteDef::V6(RouteEntry {
            dst: Ipv6Address::new([0; 8]),
            prefix_len: 0,
            rtr: Some(Ipv6Address::new([0xfe80, 0, 0, 0, 0, 0, 0, 1])),
            on_link: true,
            table: Some(254),
            metric: Some(1024),
            link: "wan0".to_string(),
        }),
    };
    assert_eq!(got, want);
}

#[test]
fn route_without_interface_names_the_interface() {
    assert_eq!(err("route4 add to 10.0.0.0/8"), RouteParseError::NoLink);
}

#[test]
fn route_without_destination() {
    assert_eq!(err("route4 add dev eth0"), RouteParseError::NoDst);
    assert_eq!(err("route6 add via fe80::1 dev eth0"), RouteParseError::NoDst);
}

#[test]
fn route_of_the_other_family() {
    assert_eq!(err("route4 add to 2001:db8::/32 dev eth0"), RouteParseError::DstNotIpv4);
    assert_eq!(err("route6 add to 10.0.0.0/8 dev eth0"), RouteParseError::DstNotIpv6);
    assert_eq!(
        err("route4 add to 10.0.0.0/8 via fe80::1 dev eth0"),
        RouteParseError::RtrNotIpv4
    );
    assert_eq!(
        err("route6 add to 2001:db8::/32 via 192.0.2.1 dev eth0"),
        RouteParseError::RtrNotIpv6
    );
    assert_eq!(
        err("route4 add to 2001:db8::/32 via fe80::1"),
        RouteParseError::DstNotIpv4
    );
}

#[test]
fn route_line_that_cannot_be_taken_apart() {
    assert_eq!(err(""), RouteParseError::Token(TokenError::NoVersion));
    assert_eq!(err("   "), RouteParseError::Token(TokenError::NoVersion));
    assert_eq!(err("route4"), RouteParseError::Token(TokenError::NoCmd));
    assert_eq!(
        err("route4 replace to 10.0.0.0/8 dev eth0"),
        RouteParseError::Token(TokenError::InvalidCmd("replace".to_string()))
    );
    assert_eq!(
        err("route4 add to 10.0.0.0/8 dev"),
        RouteParseError::Token(TokenError::NoAttrValue("dev".to_string()))
    );
    assert_eq!(
        err("route4 add dev eth0 to 10.0.0.0/8 dev eth1"),
        RouteParseError::Token(TokenError::DuplicateAttr("dev".to_string()))
    );
}

#[test]
fn route_with_wrong_first_word_or_key() {
    assert_eq!(
        err("route add to 10.0.0.0/8 dev eth0"),
        RouteParseError::InvalidVersion("route".to_string())
    );
    assert_eq!(
        err("rule4 add to 10.0.0.0/8 dev eth0"),
        RouteParseError::InvalidVersion("rule4".to_string())
    );
    assert_eq!(
        err("route4 add to 10.0.0.0/8 dev eth0 mtu 1500"),
        RouteParseError::InvalidAttr("mtu".to_string())
    );
    assert_eq!(
        err("route4 add src 10.0.0.1 colour red to 10.0.0.0/8 dev eth0"),
        RouteParseError::InvalidAttr("src".to_string())
    );
}

#[test]
fn route_prefix_needs_exactly_one_slash() {
    assert_eq!(
        err("route4 add to 10.0.0.0 dev eth0"),
        RouteParseError::Value(ValueError::InvalidCidr("10.0.0.0".to_string()))
    );
    assert_eq!(
        err("route4 add to 10.0.0.0/8/8 dev eth0"),
        RouteParseError::Value(ValueError::InvalidCidr("10.0.0.0/8/8".to_string()))
    );
    assert_eq!(
        err("route6 add to :: dev eth0"),
        RouteParseError::Value(ValueError::InvalidCidr("::".to_string()))
    );
}

#[test]
fn route_values_that_cannot_be_read() {
    assert_eq!(
        err("route4 add to /8 dev eth0"),
        RouteParseError::Value(ValueError::ParseAddr)
    );
    assert_eq!(
        err("route4 add to 10.0.0.0/ dev eth0"),
        RouteParseError::Value(ValueError::ParseInt(IntError::Empty))
    );
    assert_eq!(
        err("route4 add to 10.0.0.0/256 dev eth0"),
        RouteParseError::Value(ValueError::ParseInt(IntError::Overflow))
    );
    assert_eq!(
        err("route4 add to 10.0.0.0/8 via gateway dev eth0"),
        RouteParseError::Value(ValueError::ParseAddr)
    );
    assert_eq!(
        err("route4 add to 10.0.0.0/8 onlink yes dev eth0"),
        RouteParseError::Value(ValueError::ParseBool)
    );
    assert_eq!(
        err("route4 add to 10.0.0.0/8 table main dev eth0"),
        RouteParseError::Value(ValueError::ParseInt(IntError::InvalidDigit))
    );
    assert_eq!(
        err("route4 add to 10.0.0.0/8 metric 4294967296 dev eth0"),
        RouteParseError::Value(ValueError::ParseInt(IntError::Overflow))
    );
}

#[test]
fn faults_are_named_in_a_fixed_order() {
    assert_eq!(
        err("route5 del metric x to 1/2/3 mtu"),
        RouteParseError::Token(TokenError::NoAttrValue("mtu".to_string()))
    );
    assert_eq!(
        err("route5 del metric x to 1/2/3 mtu 9"),
        RouteParseError::InvalidVersion("route5".to_string())
    );
    assert_eq!(
        err("route4 del metric x to 1/2/3 mtu 9"),
        RouteParseError::InvalidAttr("mtu".to_string())
    );
    assert_eq!(
        err("route4 del metric x to 1/2/3"),
        RouteParseError::Value(ValueError::InvalidCidr("1/2/3".to_string()))
    );
    assert_eq!(
        err("route4 del metric x via y to ::/0"),
        RouteParseError::Value(ValueError::ParseAddr)
    );
    assert_eq!(
        err("route4 del metric x to ::/0"),
        RouteParseError::Value(ValueError::ParseInt(IntError::InvalidDigit))
    );
}

#[test]
fn routes_of_a_text() {
    let text = "route4 add to 10.0.0.0/8 dev eth0\r\nroute6 del to 2001:db8::/32 dev eth1\n";
    let routes = Routes::from_str(text).unwrap();
    assert_eq!(routes.routes.len(), 2);
    assert_eq!(routes.routes[0], Route::from_str("route4 add to 10.0.0.0/8 dev eth0").unwrap());
    assert_eq!(routes.routes[1], Route::from_str("route6 del to 2001:db8::/32 dev eth1").unwrap());
    assert_eq!(Routes::from_str("").unwrap().routes.len(), 0);
}

#[test]
fn routes_stop_at_the_first_line_that_is_none() {
    let text = "route4 add to 10.0.0.0/8 dev eth0\nroute4 add to 10.0.0.0/8\nroute9 add\n";
    assert_eq!(Routes::from_str(text).unwrap_err(), RouteParseError::NoLink);
    let text = "route4 add to 10.0.0.0/8 dev eth0\n\nroute4 add to 10.1.0.0/16 dev eth0\n";
    assert_eq!(
        Routes::from_str(text).unwrap_err(),
        RouteParseError::Token(TokenError::NoVersion)
    );
}
