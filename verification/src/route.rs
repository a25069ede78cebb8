//! Static routes: what a route definition says, and how a line of text
//! becomes one.

use vstd::prelude::*;
use crate::addr::{ip_line, IpAddress, Ipv4Address, Ipv6Address};
use crate::number::decimal_text;
use crate::text::{
    collect, is_word, lemma_collect_fails, lines, occurrences, same_text, split_lines, texts,
};
use crate::token::{
    attr_views, distinct_keys, find, lemma_line_of, lemma_lookup, lemma_present,
    lemma_tokens_of_words, line_of, lookup, present, token_error_text, tokenize, tokens_of, Attr,
    AttrView, Slot, TokenError, TokenErrorView, Tokens, TokensView,
};
use crate::value::{
    addr_at, cidr_line, cidr_to_line, first_unknown, flag_at, flag_line, key_texts, lemma_addr_line,
    lemma_cidr_line, lemma_cidr_needs_one_slash, lemma_flag_line, lemma_number_line,
    lemma_unknown_key_none, number_at, number_to_line, prefix_at, read_addr, read_cidr, read_flag,
    read_number, unknown_key, value_error_text, ValueError, ValueErrorView,
};

verus! {

/// The family of a route, as the first word of its line names it.
#[derive(Clone, Copy, Debug, PartialEq, Eq, Structural)]
pub enum RouteVersion {
    Ipv4,
    Ipv6,
}

/// A route of one family, with addresses of type `A`.
#[derive(Clone, Debug, PartialEq, Eq)]
pub struct RouteEntry<A> {
    /// The network that the route leads to.
    pub dst: A,
    /// How many bits of `dst` name the network.
    pub prefix_len: u8,
    /// The gateway, if the network is not reached directly.
    pub rtr: Option<A>,
    /// Whether the gateway is taken as directly reachable.
    pub on_link: bool,
    /// The routing table, if not the main one.
    pub table: Option<u32>,
    /// The priority among routes to the same network.
    pub metric: Option<u32>,
    /// The interface that the route leaves through.
    pub link: String,
}

/// What a `RouteEntry` holds.
pub struct RouteEntryView<A> {
    pub dst: A,
    pub prefix_len: u8,
    pub rtr: Option<A>,
    pub on_link: bool,
    pub table: Option<u32>,
    pub metric: Option<u32>,
    pub link: Seq<char>,
}

impl<A> View for RouteEntry<A> {
    type V = RouteEntryView<A>;

    open spec fn view(&self) -> RouteEntryView<A> {
        RouteEntryView {
            dst: self.dst,
            prefix_len: self.prefix_len,
            rtr: self.rtr,
            on_link: self.on_link,
            table: self.table,
            metric: self.metric,
            link: self.link@,
        }
    }
}

/// An IPv4 route.
pub type Route4 = RouteEntry<Ipv4Address>;

/// An IPv6 route.
pub type Route6 = RouteEntry<Ipv6Address>;

/// A route of either family.
#[derive(Clone, Debug, PartialEq, Eq)]
pub enum RouteDef {
    V4(Route4),
    V6(Route6),
}

/// What a `RouteDef` holds.
pub enum RouteDefView {
    V4(RouteEntryView<Ipv4Address>),
    V6(RouteEntryView<Ipv6Address>),
}

impl View for RouteDef {
    type V = RouteDefView;

    open spec fn view(&self) -> RouteDefView {
        match self {
            RouteDef::V4(r) => RouteDefView::V4(r@),
            RouteDef::V6(r) => RouteDefView::V6(r@),
        }
    }
}

/// One route definition.
#[derive(Clone, Debug, PartialEq, Eq)]
pub struct Route {
    /// Whether the route is only to be removed.
    pub delete: bool,
    pub def: RouteDef,
}

/// What a `Route` holds.
pub struct RouteView {
    pub delete: bool,
    pub def: RouteDefView,
}

impl View for Route {
    type V = RouteView;

    open spec fn view(&self) -> RouteView {
        RouteView { delete: self.delete, def: self.def@ }
    }
}

/// The route definitions of one text, in the order in which they apply.
#[derive(Clone, Debug, PartialEq, Eq)]
pub struct Routes {
    pub routes: Vec<Route>,
}

impl View for Routes {
    type V = Seq<RouteView>;

    open spec fn view(&self) -> Seq<RouteView> {
        route_views(self.routes@)
    }
}

/// Why a line is no route definition.
#[derive(Clone, Debug, PartialEq, Eq)]
pub enum RouteParseError {
    /// The line cannot be taken apart.
    Token(TokenError),
    /// The first word is neither `route4` nor `route6`.
    InvalidVersion(String),
    /// A route has no attribute of this name.
    InvalidAttr(String),
    /// The value of an attribute cannot be read.
    Value(ValueError),
    /// There is no `to` attribute.
    NoDst,
    /// The destination of a `route4` is an IPv6 address.
    DstNotIpv4,
    /// The destination of a `route6` is an IPv4 address.
    DstNotIpv6,
    /// The gateway of a `route4` is an IPv6 address.
    RtrNotIpv4,
    /// The gateway of a `route6` is an IPv4 address.
    RtrNotIpv6,
    /// There is no `dev` attribute.
    NoLink,
}

/// What a `RouteParseError` holds.
pub enum RouteParseErrorView {
    Token(TokenErrorView),
    InvalidVersion(Seq<char>),
    InvalidAttr(Seq<char>),
    Value(ValueErrorView),
    NoDst,
    DstNotIpv4,
    DstNotIpv6,
    RtrNotIpv4,
    RtrNotIpv6,
    NoLink,
}

impl View for RouteParseError {
    type V = RouteParseErrorView;

    open spec fn view(&self) -> RouteParseErrorView {
        match self {
            RouteParseError::Token(e) => RouteParseErrorView::Token(e@),
            RouteParseError::InvalidVersion(w) => RouteParseErrorView::InvalidVersion(w@),
            RouteParseError::InvalidAttr(w) => RouteParseErrorView::InvalidAttr(w@),
            RouteParseError::Value(e) => RouteParseErrorView::Value(e@),
            RouteParseError::NoDst => RouteParseErrorView::NoDst,
            RouteParseError::DstNotIpv4 => RouteParseErrorView::DstNotIpv4,
            RouteParseError::DstNotIpv6 => RouteParseErrorView::DstNotIpv6,
            RouteParseError::RtrNotIpv4 => RouteParseErrorView::RtrNotIpv4,
            RouteParseError::RtrNotIpv6 => RouteParseErrorView::RtrNotIpv6,
            RouteParseError::NoLink => RouteParseErrorView::NoLink,
        }
    }
}

/// What each route of `v` holds.
pub open spec fn route_views(v: Seq<Route>) -> Seq<RouteView> {
    Seq::new(v.len(), |i: int| v[i]@)
}

/// The family that the first word of a route line names.
pub open spec fn route_version(w: Seq<char>) -> Option<RouteVersion> {
    if w == "route4"@ {
        Some(RouteVersion::Ipv4)
    } else if w == "route6"@ {
        Some(RouteVersion::Ipv6)
    } else {
        None
    }
}

/// The keys of the attributes that a route has.
pub open spec fn route_keys() -> Seq<Seq<char>> {
    seq!["to"@, "via"@, "onlink"@, "table"@, "metric"@, "dev"@]
}

/// `a` as an IPv4 address, if it is one.
pub open spec fn as_v4(a: IpAddress) -> Option<Ipv4Address> {
    match a {
        IpAddress::V4(x) => Some(x),
        IpAddress::V6(_) => None,
    }
}

/// `a` as an IPv6 address, if it is one.
pub open spec fn as_v6(a: IpAddress) -> Option<Ipv6Address> {
    match a {
        IpAddress::V4(_) => None,
        IpAddress::V6(x) => Some(x),
    }
}

/// The route of one family that the attributes give. `narrow` takes an
/// address to that family. A route needs a destination and an interface;
/// its destination and its gateway are of the family. What is missing or of
/// the other family is named in this order: destination, gateway,
/// interface.
pub open spec fn entry_of<A>(
    narrow: spec_fn(IpAddress) -> Option<A>,
    other_dst: RouteParseErrorView,
    other_rtr: RouteParseErrorView,
    dst: Option<(IpAddress, u8)>,
    rtr: Option<IpAddress>,
    on_link: Option<bool>,
    table: Option<u32>,
    metric: Option<u32>,
    link: Option<Seq<char>>,
) -> Result<RouteEntryView<A>, RouteParseErrorView> {
    match dst {
        None => Err(RouteParseErrorView::NoDst),
        Some((addr, prefix_len)) => if narrow(addr) is None {
            Err(other_dst)
        } else if rtr is Some && narrow(rtr->0) is None {
            Err(other_rtr)
        } else if link is None {
            Err(RouteParseErrorView::NoLink)
        } else {
            Ok(
                RouteEntryView {
                    dst: narrow(addr)->0,
                    prefix_len,
                    rtr: if rtr is Some {
                        narrow(rtr->0)
                    } else {
                        None
                    },
                    on_link: on_link is Some && on_link->0,
                    table,
                    metric,
                    link: link->0,
                },
            )
        },
    }
}

/// The route that the parts of a line give. The first word names the
/// family. Then faults are named in this order: the first key that a route
/// does not have; a value that cannot be read, of `to`, `via`, `onlink`,
/// `table` or `metric`; what `entry_of` names.
pub open spec fn route_of(t: TokensView) -> Result<RouteView, RouteParseErrorView> {
    let dst = prefix_at(t.attrs, "to"@);
    let rtr = addr_at(t.attrs, "via"@);
    let on_link = flag_at(t.attrs, "onlink"@);
    let table = number_at(t.attrs, "table"@);
    let metric = number_at(t.attrs, "metric"@);
    let link = lookup(t.attrs, "dev"@);
    let unknown = unknown_key(t.attrs, route_keys());
    if route_version(t.version) is None {
        Err(RouteParseErrorView::InvalidVersion(t.version))
    } else if unknown is Some {
        Err(RouteParseErrorView::InvalidAttr(unknown->0))
    } else if dst is Err {
        Err(RouteParseErrorView::Value(dst->Err_0))
    } else if rtr is Err {
        Err(RouteParseErrorView::Value(rtr->Err_0))
    } else if on_link is Err {
        Err(RouteParseErrorView::Value(on_link->Err_0))
    } else if table is Err {
        Err(RouteParseErrorView::Value(table->Err_0))
    } else if metric is Err {
        Err(RouteParseErrorView::Value(metric->Err_0))
    } else {
        match route_version(t.version)->0 {
            RouteVersion::Ipv4 => match entry_of(
                |a: IpAddress| as_v4(a),
                RouteParseErrorView::DstNotIpv4,
                RouteParseErrorView::RtrNotIpv4,
                dst->Ok_0,
                rtr->Ok_0,
                on_link->Ok_0,
                table->Ok_0,
                metric->Ok_0,
                link,
            ) {
                Ok(e) => Ok(RouteView { delete: t.delete, def: RouteDefView::V4(e) }),
                Err(e) => Err(e),
            },
            RouteVersion::Ipv6 => match entry_of(
                |a: IpAddress| as_v6(a),
                RouteParseErrorView::DstNotIpv6,
                RouteParseErrorView::RtrNotIpv6,
                dst->Ok_0,
                rtr->Ok_0,
                on_link->Ok_0,
                table->Ok_0,
                metric->Ok_0,
                link,
            ) {
                Ok(e) => Ok(RouteView { delete: t.delete, def: RouteDefView::V6(e) }),
                Err(e) => Err(e),
            },
        }
    }
}

/// The route that the line `line` defines.
pub open spec fn parse_route(line: Seq<char>) -> Result<RouteView, RouteParseErrorView> {
    match tokens_of(line) {
        Err(e) => Err(RouteParseErrorView::Token(e)),
        Ok(t) => route_of(t),
    }
}

/// The routes that the text `text` defines, one on each line.
pub open spec fn parse_routes(text: Seq<char>) -> Result<Seq<RouteView>, RouteParseErrorView> {
    collect(lines(text), route_reader())
}

/// `parse_route` as a value.
pub open spec fn route_reader() -> spec_fn(Seq<char>) -> Result<RouteView, RouteParseErrorView> {
    |line: Seq<char>| parse_route(line)
}

/// Whether every key of `attrs` is one that a route has, and every value
/// that is read can be read.
pub open spec fn route_attrs_read(attrs: Seq<AttrView>) -> bool {
    &&& unknown_key(attrs, route_keys()) is None
    &&& prefix_at(attrs, "to"@) is Ok
    &&& addr_at(attrs, "via"@) is Ok
    &&& flag_at(attrs, "onlink"@) is Ok
    &&& number_at(attrs, "table"@) is Ok
    &&& number_at(attrs, "metric"@) is Ok
}

/// The family of routes that the address `a` can stand in.
pub open spec fn family_of(a: IpAddress) -> RouteVersion {
    match a {
        IpAddress::V4(_) => RouteVersion::Ipv4,
        IpAddress::V6(_) => RouteVersion::Ipv6,
    }
}

/// A route whose destination is of the other family is never accepted, and
/// where nothing else is at fault it is refused for just that.
pub proof fn lemma_route_dst_of_other_family(t: TokensView, a: IpAddress, n: u8)
    requires
        route_version(t.version) is Some,
        prefix_at(t.attrs, "to"@) == Ok::<Option<(IpAddress, u8)>, ValueErrorView>(Some((a, n))),
        family_of(a) != route_version(t.version)->0,
    ensures
        route_of(t) is Err,
        route_attrs_read(t.attrs) ==> route_of(t) == Err::<RouteView, RouteParseErrorView>(
            match route_version(t.version)->0 {
                RouteVersion::Ipv4 => RouteParseErrorView::DstNotIpv4,
                RouteVersion::Ipv6 => RouteParseErrorView::DstNotIpv6,
            },
        ),
{
}

/// A route whose gateway is of the other family is never accepted, and
/// where nothing else is at fault it is refused for just that.
pub proof fn lemma_route_rtr_of_other_family(t: TokensView, g: IpAddress)
    requires
        route_version(t.version) is Some,
        addr_at(t.attrs, "via"@) == Ok::<Option<IpAddress>, ValueErrorView>(Some(g)),
        family_of(g) != route_version(t.version)->0,
    ensures
        route_of(t) is Err,
        route_attrs_read(t.attrs) && (prefix_at(t.attrs, "to"@) matches Ok(Some((a, _)))
            && family_of(a) == route_version(t.version)->0) ==> route_of(t) == Err::<
            RouteView,
            RouteParseErrorView,
        >(
            match route_version(t.version)->0 {
                RouteVersion::Ipv4 => RouteParseErrorView::RtrNotIpv4,
                RouteVersion::Ipv6 => RouteParseErrorView::RtrNotIpv6,
            },
        ),
{
}

/// A route whose destination does not hold exactly one `/` is never
/// accepted, and where its first word and its keys are in order it is
/// refused for just that.
pub proof fn lemma_route_needs_one_slash(t: TokensView, v: Seq<char>)
    requires
        lookup(t.attrs, "to"@) == Some(v),
        occurrences(v, '/') != 1,
    ensures
        route_of(t) is Err,
        route_version(t.version) is Some && unknown_key(t.attrs, route_keys()) is None
            ==> route_of(t) == Err::<RouteView, RouteParseErrorView>(
            RouteParseErrorView::Value(ValueErrorView::InvalidCidr(v)),
        ),
{
    lemma_cidr_needs_one_slash(v);
}

/// Every route that is accepted has a destination and an interface in its
/// line, and what a line of its family must not have it has not.
pub proof fn lemma_route_of_ok(t: TokensView)
    ensures
        route_of(t) matches Ok(r) ==> {
            &&& r.delete == t.delete
            &&& route_attrs_read(t.attrs)
            &&& lookup(t.attrs, "to"@) is Some
            &&& lookup(t.attrs, "dev"@) is Some
            &&& match r.def {
                RouteDefView::V4(e) => route_version(t.version) == Some(RouteVersion::Ipv4)
                    && e.link == lookup(t.attrs, "dev"@)->0,
                RouteDefView::V6(e) => route_version(t.version) == Some(RouteVersion::Ipv6)
                    && e.link == lookup(t.attrs, "dev"@)->0,
            }
        },
{
}

impl RouteView {
    /// The interface that the route leaves through.
    pub open spec fn link(self) -> Seq<char> {
        match self.def {
            RouteDefView::V4(e) => e.link,
            RouteDefView::V6(e) => e.link,
        }
    }

    /// Whether the interface is named by one word, as every line names
    /// it.
    pub open spec fn wf(self) -> bool {
        is_word(self.link())
    }
}

/// The places for the attributes of a route, in the order in which they
/// are written, each with what the route has for it. A flag that does not
/// hold is not written.
pub open spec fn route_slots(
    dst: IpAddress,
    prefix_len: u8,
    rtr: Option<IpAddress>,
    on_link: bool,
    table: Option<u32>,
    metric: Option<u32>,
    link: Seq<char>,
) -> Seq<Slot> {
    seq![
        Slot { key: "to"@, value: Some(cidr_line(dst, prefix_len)) },
        Slot {
            key: "via"@,
            value: match rtr {
                Some(g) => Some(ip_line(g)),
                None => None,
            },
        },
        Slot {
            key: "onlink"@,
            value: if on_link {
                Some(flag_line(true))
            } else {
                None
            },
        },
        Slot {
            key: "table"@,
            value: match table {
                Some(n) => Some(decimal_text(n as nat)),
                None => None,
            },
        },
        Slot {
            key: "metric"@,
            value: match metric {
                Some(n) => Some(decimal_text(n as nat)),
                None => None,
            },
        },
        Slot { key: "dev"@, value: Some(link) },
    ]
}

/// The parts of the line that defines `r`.
pub open spec fn route_tokens(r: RouteView) -> TokensView {
    match r.def {
        RouteDefView::V4(e) => TokensView {
            version: "route4"@,
            delete: r.delete,
            attrs: present(
                route_slots(
                    IpAddress::V4(e.dst),
                    e.prefix_len,
                    match e.rtr {
                        Some(g) => Some(IpAddress::V4(g)),
                        None => None,
                    },
                    e.on_link,
                    e.table,
                    e.metric,
                    e.link,
                ),
            ),
        },
        RouteDefView::V6(e) => TokensView {
            version: "route6"@,
            delete: r.delete,
            attrs: present(
                route_slots(
                    IpAddress::V6(e.dst),
                    e.prefix_len,
                    match e.rtr {
                        Some(g) => Some(IpAddress::V6(g)),
                        None => None,
                    },
                    e.on_link,
                    e.table,
                    e.metric,
                    e.link,
                ),
            ),
        },
    }
}

/// The line that defines `r`.
pub open spec fn route_line(r: RouteView) -> Seq<char> {
    line_of(route_tokens(r))
}

/// The words of the route grammar are words, and different ones.
proof fn lemma_route_words()
    ensures
        is_word("route4"@),
        is_word("route6"@),
        "route4"@ != "route6"@,
        is_word("to"@),
        is_word("via"@),
        is_word("onlink"@),
        is_word("table"@),
        is_word("metric"@),
        is_word("dev"@),
        "to"@ != "via"@ && "to"@ != "onlink"@ && "to"@ != "table"@ && "to"@ != "metric"@ && "to"@
            != "dev"@,
        "via"@ != "onlink"@ && "via"@ != "table"@ && "via"@ != "metric"@ && "via"@ != "dev"@,
        "onlink"@ != "table"@ && "onlink"@ != "metric"@ && "onlink"@ != "dev"@,
        "table"@ != "metric"@ && "table"@ != "dev"@,
        "metric"@ != "dev"@,
{
    reveal_strlit("route4");
    reveal_strlit("route6");
    reveal_strlit("to");
    reveal_strlit("via");
    reveal_strlit("onlink");
    reveal_strlit("table");
    reveal_strlit("metric");
    reveal_strlit("dev");
    assert("route4"@[5] != "route6"@[5]);
    assert("via"@[0] != "dev"@[0]);
    assert("onlink"@[0] != "metric"@[0]);
}

/// What a route has for its attributes is found again in the attributes
/// that are written for it, and nothing else is.
pub proof fn lemma_route_slots(
    dst: IpAddress,
    prefix_len: u8,
    rtr: Option<IpAddress>,
    on_link: bool,
    table: Option<u32>,
    metric: Option<u32>,
    link: Seq<char>,
)
    requires
        is_word(link),
    ensures
        ({
            let attrs = present(route_slots(dst, prefix_len, rtr, on_link, table, metric, link));
            &&& distinct_keys(attrs)
            &&& forall|i: int|
                0 <= i < attrs.len() ==> is_word((#[trigger] attrs[i]).key) && is_word(
                    attrs[i].value,
                )
            &&& unknown_key(attrs, route_keys()) is None
            &&& prefix_at(attrs, "to"@) == Ok::<Option<(IpAddress, u8)>, ValueErrorView>(
                Some((dst, prefix_len)),
            )
            &&& addr_at(attrs, "via"@) == Ok::<Option<IpAddress>, ValueErrorView>(rtr)
            &&& flag_at(attrs, "onlink"@) == Ok::<Option<bool>, ValueErrorView>(
                if on_link {
                    Some(true)
                } else {
                    None
                },
            )
            &&& number_at(attrs, "table"@) == Ok::<Option<u32>, ValueErrorView>(table)
            &&& number_at(attrs, "metric"@) == Ok::<Option<u32>, ValueErrorView>(metric)
            &&& lookup(attrs, "dev"@) == Some(link)
        }),
{
    let slots = route_slots(dst, prefix_len, rtr, on_link, table, metric, link);
    let attrs = present(slots);
    lemma_route_words();
    lemma_present(slots);
    lemma_cidr_line(dst, prefix_len);
    if rtr is Some {
        lemma_addr_line(rtr->0);
    }
    lemma_flag_line(true);
    if table is Some {
        lemma_number_line(table->0);
    }
    if metric is Some {
        lemma_number_line(metric->0);
    }
    assert(lookup(attrs, slots[0].key) == slots[0].value);
    assert(lookup(attrs, slots[1].key) == slots[1].value);
    assert(lookup(attrs, slots[2].key) == slots[2].value);
    assert(lookup(attrs, slots[3].key) == slots[3].value);
    assert(lookup(attrs, slots[4].key) == slots[4].value);
    assert(lookup(attrs, slots[5].key) == slots[5].value);
    assert forall|j: int| 0 <= j < attrs.len() implies is_word((#[trigger] attrs[j]).key)
        && is_word(attrs[j].value) && route_keys().contains(attrs[j].key) by {
        let i = choose|i: int|
            0 <= i < slots.len() && (#[trigger] slots[i]).key == attrs[j].key && slots[i].value
                == Some(attrs[j].value);
        assert(route_keys()[i] == slots[i].key);
    }
    lemma_unknown_key_none(attrs, route_keys());
}

/// A line that was written for a route defines that route.
pub proof fn lemma_route_line(r: RouteView)
    requires
        r.wf(),
    ensures
        parse_route(route_line(r)) == Ok::<RouteView, RouteParseErrorView>(r),
{
    let t = route_tokens(r);
    lemma_route_words();
    match r.def {
        RouteDefView::V4(e) => {
            let rtr = match e.rtr {
                Some(g) => Some(IpAddress::V4(g)),
                None => None,
            };
            lemma_route_slots(
                IpAddress::V4(e.dst),
                e.prefix_len,
                rtr,
                e.on_link,
                e.table,
                e.metric,
                e.link,
            );
            lemma_line_of(t);
            assert(route_of(t) == Ok::<RouteView, RouteParseErrorView>(r));
        },
        RouteDefView::V6(e) => {
            let rtr = match e.rtr {
                Some(g) => Some(IpAddress::V6(g)),
                None => None,
            };
            lemma_route_slots(
                IpAddress::V6(e.dst),
                e.prefix_len,
                rtr,
                e.on_link,
                e.table,
                e.metric,
                e.link,
            );
            lemma_line_of(t);
            assert(route_of(t) == Ok::<RouteView, RouteParseErrorView>(r));
        },
    }
}

/// The interface of every route that a line defines is named by one word.
pub proof fn lemma_parse_route_wf(line: Seq<char>)
    ensures
        parse_route(line) matches Ok(r) ==> r.wf(),
{
    if parse_route(line) is Ok {
        let t = tokens_of(line)->Ok_0;
        lemma_tokens_of_words(line);
        lemma_lookup(t.attrs, "dev"@);
        let i = choose|i: int| 0 <= i < t.attrs.len() && (#[trigger] t.attrs[i]).key == "dev"@;
        assert(is_word(t.attrs[i].value));
    }
}

/// Every route that a line defines is defined again by the line that is
/// written for it.
pub proof fn lemma_route_round_trip(line: Seq<char>)
    ensures
        parse_route(line) matches Ok(r) ==> parse_route(route_line(r)) == Ok::<
            RouteView,
            RouteParseErrorView,
        >(r),
{
    if parse_route(line) is Ok {
        lemma_parse_route_wf(line);
        lemma_route_line(parse_route(line)->Ok_0);
    }
}

impl RouteDef {
    /// The interface that the route leaves through.
    pub fn link(&self) -> (r: &str)
        ensures
            r@ == match self@ {
                RouteDefView::V4(e) => e.link,
                RouteDefView::V6(e) => e.link,
            },
    {
        match self {
            RouteDef::V4(e) => e.link.as_str(),
            RouteDef::V6(e) => e.link.as_str(),
        }
    }
}

/// The attributes that are written for a route.
fn route_attrs(
    dst: &IpAddress,
    prefix_len: u8,
    rtr: Option<IpAddress>,
    on_link: bool,
    table: Option<u32>,
    metric: Option<u32>,
    link: &String,
) -> (attrs: Vec<Attr>)
    ensures
        attr_views(attrs@) == present(
            route_slots(*dst, prefix_len, rtr, on_link, table, metric, link@),
        ),
{
    let ghost slots = route_slots(*dst, prefix_len, rtr, on_link, table, metric, link@);
    let mut attrs: Vec<Attr> = Vec::new();
    proof {
        assert(slots.take(0) == Seq::<Slot>::empty());
        assert(attr_views(attrs@) == present(slots.take(0)));
        assert(slots.take(1).drop_last() == slots.take(0));
        assert(slots.take(2).drop_last() == slots.take(1));
        assert(slots.take(3).drop_last() == slots.take(2));
        assert(slots.take(4).drop_last() == slots.take(3));
        assert(slots.take(5).drop_last() == slots.take(4));
        assert(slots.take(6).drop_last() == slots.take(5));
        assert(slots.take(6) == slots);
    }
    let ghost before = attrs@;
    let attr = Attr { key: String::from_str("to"), value: cidr_to_line(dst, prefix_len) };
    attrs.push(attr);
    assert(attr_views(attrs@) == attr_views(before).push(attr@));
    assert(attr_views(attrs@) == present(slots.take(1)));
    match rtr {
        Some(g) => {
            let ghost before = attrs@;
            let attr = Attr { key: String::from_str("via"), value: g.to_line() };
            attrs.push(attr);
            assert(attr_views(attrs@) == attr_views(before).push(attr@));
        },
        None => {},
    }
    assert(attr_views(attrs@) == present(slots.take(2)));
    if on_link {
        let ghost before = attrs@;
        let attr = Attr { key: String::from_str("onlink"), value: String::from_str("true") };
        attrs.push(attr);
        assert(attr_views(attrs@) == attr_views(before).push(attr@));
    }
    assert(attr_views(attrs@) == present(slots.take(3)));
    match table {
        Some(n) => {
            let ghost before = attrs@;
            let attr = Attr { key: String::from_str("table"), value: number_to_line(n) };
            attrs.push(attr);
            assert(attr_views(attrs@) == attr_views(before).push(attr@));
        },
        None => {},
    }
    assert(attr_views(attrs@) == present(slots.take(4)));
    match metric {
        Some(n) => {
            let ghost before = attrs@;
            let attr = Attr { key: String::from_str("metric"), value: number_to_line(n) };
            attrs.push(attr);
            assert(attr_views(attrs@) == attr_views(before).push(attr@));
        },
        None => {},
    }
    assert(attr_views(attrs@) == present(slots.take(5)));
    let ghost before = attrs@;
    let attr = Attr { key: String::from_str("dev"), value: link.clone() };
    attrs.push(attr);
    assert(attr_views(attrs@) == attr_views(before).push(attr@));
    assert(attr_views(attrs@) == present(slots.take(6)));
    attrs
}

impl Route {
    /// The parts of the line that defines the route.
    pub fn to_tokens(&self) -> (t: Tokens)
        ensures
            t@ == route_tokens(self@),
    {
        match &self.def {
            RouteDef::V4(e) => {
                let rtr = match e.rtr {
                    Some(g) => Some(IpAddress::V4(g)),
                    None => None,
                };
                Tokens {
                    version: String::from_str("route4"),
                    delete: self.delete,
                    attrs: route_attrs(
                        &IpAddress::V4(e.dst),
                        e.prefix_len,
                        rtr,
                        e.on_link,
                        e.table,
                        e.metric,
                        &e.link,
                    ),
                }
            },
            RouteDef::V6(e) => {
                let rtr = match e.rtr {
                    Some(g) => Some(IpAddress::V6(g)),
                    None => None,
                };
                Tokens {
                    version: String::from_str("route6"),
                    delete: self.delete,
                    attrs: route_attrs(
                        &IpAddress::V6(e.dst),
                        e.prefix_len,
                        rtr,
                        e.on_link,
                        e.table,
                        e.metric,
                        &e.link,
                    ),
                }
            },
        }
    }

    /// The line that defines the route: its family, `add` or `del`, and
    /// its attributes in the order `to`, `via`, `onlink`, `table`, `metric`,
    /// `dev`. Read again, the line gives the route.
    pub fn to_line(&self) -> (r: String)
        ensures
            r@ == route_line(self@),
    {
        self.to_tokens().to_line()
    }
}

impl Route {
    /// The route that the parts `t` of a line give.
    pub fn from_tokens(t: &Tokens) -> (r: Result<Route, RouteParseError>)
        ensures
            match r {
                Ok(route) => route_of(t@) == Ok::<RouteView, RouteParseErrorView>(route@),
                Err(e) => route_of(t@) == Err::<RouteView, RouteParseErrorView>(e@),
            },
    {
        let version = if same_text(t.version.as_str(), "route4") {
            RouteVersion::Ipv4
        } else if same_text(t.version.as_str(), "route6") {
            RouteVersion::Ipv6
        } else {
            return Err(RouteParseError::InvalidVersion(t.version.clone()));
        };
        let known: Vec<&str> = vec!["to", "via", "onlink", "table", "metric", "dev"];
        assert(key_texts(known@) == route_keys());
        match first_unknown(&t.attrs, &known) {
            Some(k) => {
                return Err(RouteParseError::InvalidAttr(k));
            },
            None => {},
        }
        let dst = match find(&t.attrs, "to") {
            None => None,
            Some(v) => match read_cidr(v.as_str()) {
                Ok(x) => Some(x),
                Err(e) => {
                    return Err(RouteParseError::Value(e));
                },
            },
        };
        let rtr = match find(&t.attrs, "via") {
            None => None,
            Some(v) => match read_addr(v.as_str()) {
                Ok(x) => Some(x),
                Err(e) => {
                    return Err(RouteParseError::Value(e));
                },
            },
        };
        let on_link = match find(&t.attrs, "onlink") {
            None => false,
            Some(v) => match read_flag(v.as_str()) {
                Ok(x) => x,
                Err(e) => {
                    return Err(RouteParseError::Value(e));
                },
            },
        };
        let table = match find(&t.attrs, "table") {
            None => None,
            Some(v) => match read_number(v.as_str()) {
                Ok(x) => Some(x),
                Err(e) => {
                    return Err(RouteParseError::Value(e));
                },
            },
        };
        let metric = match find(&t.attrs, "metric") {
            None => None,
            Some(v) => match read_number(v.as_str()) {
                Ok(x) => Some(x),
                Err(e) => {
                    return Err(RouteParseError::Value(e));
                },
            },
        };
        let link = find(&t.attrs, "dev");
        let (addr, prefix_len) = match dst {
            None => {
                return Err(RouteParseError::NoDst);
            },
            Some(x) => x,
        };
        match version {
            RouteVersion::Ipv4 => {
                let dst = match addr {
                    IpAddress::V4(a) => a,
                    IpAddress::V6(_) => {
                        return Err(RouteParseError::DstNotIpv4);
                    },
                };
                let rtr = match rtr {
                    None => None,
                    Some(IpAddress::V4(a)) => Some(a),
                    Some(IpAddress::V6(_)) => {
                        return Err(RouteParseError::RtrNotIpv4);
                    },
                };
                let link = match link {
                    None => {
                        return Err(RouteParseError::NoLink);
                    },
                    Some(l) => l.clone(),
                };
                Ok(
                    Route {
                        delete: t.delete,
                        def: RouteDef::V4(
                            RouteEntry { dst, prefix_len, rtr, on_link, table, metric, link },
                        ),
                    },
                )
            },
            RouteVersion::Ipv6 => {
                let dst = match addr {
                    IpAddress::V6(a) => a,
                    IpAddress::V4(_) => {
                        return Err(RouteParseError::DstNotIpv6);
                    },
                };
                let rtr = match rtr {
                    None => None,
                    Some(IpAddress::V6(a)) => Some(a),
                    Some(IpAddress::V4(_)) => {
                        return Err(RouteParseError::RtrNotIpv6);
                    },
                };
                let link = match link {
                    None => {
                        return Err(RouteParseError::NoLink);
                    },
                    Some(l) => l.clone(),
                };
                Ok(
                    Route {
                        delete: t.delete,
                        def: RouteDef::V6(
                            RouteEntry { dst, prefix_len, rtr, on_link, table, metric, link },
                        ),
                    },
                )
            },
        }
    }

    /// The route that the line `line` defines.
    pub fn from_str(line: &str) -> (r: Result<Route, RouteParseError>)
        ensures
            match r {
                Ok(route) => parse_route(line@) == Ok::<RouteView, RouteParseErrorView>(route@),
                Err(e) => parse_route(line@) == Err::<RouteView, RouteParseErrorView>(e@),
            },
            r matches Ok(route) ==> route@.wf(),
    {
        proof {
            lemma_parse_route_wf(line@);
        }
        match tokenize(line) {
            Err(e) => Err(RouteParseError::Token(e)),
            Ok(t) => Route::from_tokens(&t),
        }
    }
}

impl Routes {
    /// The routes that the text `text` defines, one on each line.
    pub fn from_str(text: &str) -> (r: Result<Routes, RouteParseError>)
        ensures
            match r {
                Ok(routes) => parse_routes(text@) == Ok::<Seq<RouteView>, RouteParseErrorView>(
                    routes@,
                ),
                Err(e) => parse_routes(text@) == Err::<Seq<RouteView>, RouteParseErrorView>(e@),
            },
            r matches Ok(routes) ==> forall|i: int|
                0 <= i < routes@.len() ==> (#[trigger] routes@[i]).wf(),
    {
        let ls = split_lines(text);
        let ghost all = texts(ls@);
        let mut routes: Vec<Route> = Vec::new();
        let mut i: usize = 0;
        assert(all.take(0) == Seq::<Seq<char>>::empty());
        assert(route_views(routes@) == Seq::<RouteView>::empty());
        while i < ls.len()
            invariant
                i <= ls.len(),
                all == texts(ls@),
                all == lines(text@),
                collect(all.take(i as int), route_reader()) == Ok::<
                    Seq<RouteView>,
                    RouteParseErrorView,
                >(route_views(routes@)),
                forall|k: int| 0 <= k < routes.len() ==> (#[trigger] routes@[k])@.wf(),
            decreases ls.len() - i,
        {
            proof {
                assert(all.take(i + 1).drop_last() == all.take(i as int));
                assert(all.take(i + 1).last() == ls@[i as int]@);
            }
            match Route::from_str(ls[i].as_str()) {
                Err(e) => {
                    proof {
                        lemma_collect_fails(all, route_reader(), i + 1);
                    }
                    return Err(e);
                },
                Ok(route) => {
                    proof {
                        assert(route_views(routes@.push(route)) == route_views(routes@).push(
                            route@,
                        ));
                    }
                    routes.push(route);
                },
            }
            i += 1;
        }
        assert(all.take(ls.len() as int) == all);
        Ok(Routes { routes })
    }
}

/// What is said of the fault `e`.
pub open spec fn route_error_text(e: RouteParseErrorView) -> Seq<char> {
    match e {
        RouteParseErrorView::Token(t) => token_error_text(t, "\"route4\" or \"route6\""@),
        RouteParseErrorView::InvalidVersion(w) => "invalid version: "@ + w
            + " (want \"route4\" or \"route6\")"@,
        RouteParseErrorView::InvalidAttr(w) => "invalid attribute "@ + w,
        RouteParseErrorView::Value(v) => value_error_text(v),
        RouteParseErrorView::NoDst => "missing destination network (\"to\" attribute)"@,
        RouteParseErrorView::DstNotIpv4 => "route4 with non-IPv4 destination"@,
        RouteParseErrorView::DstNotIpv6 => "route6 with non-IPv6 destination"@,
        RouteParseErrorView::RtrNotIpv4 => "route4 with non-IPv4 gateway"@,
        RouteParseErrorView::RtrNotIpv6 => "route6 with non-IPv6 gateway"@,
        RouteParseErrorView::NoLink => "missing network interface (\"dev\" attribute)"@,
    }
}

impl RouteParseError {
    /// What is said of the fault.
    pub fn message(&self) -> (r: String)
        ensures
            r@ == route_error_text(self@),
    {
        match self {
            RouteParseError::Token(t) => t.message("\"route4\" or \"route6\""),
            RouteParseError::InvalidVersion(w) => {
                let mut out = String::from_str("invalid version: ");
                out.append(w.as_str());
                out.append(" (want \"route4\" or \"route6\")");
                out
            },
            RouteParseError::InvalidAttr(w) => {
                let mut out = String::from_str("invalid attribute ");
                out.append(w.as_str());
                out
            },
            RouteParseError::Value(v) => v.message(),
            RouteParseError::NoDst => String::from_str(
                "missing destination network (\"to\" attribute)",
            ),
            RouteParseError::DstNotIpv4 => String::from_str("route4 with non-IPv4 destination"),
            RouteParseError::DstNotIpv6 => String::from_str("route6 with non-IPv6 destination"),
            RouteParseError::RtrNotIpv4 => String::from_str("route4 with non-IPv4 gateway"),
            RouteParseError::RtrNotIpv6 => String::from_str("route6 with non-IPv6 gateway"),
            RouteParseError::NoLink => String::from_str(
                "missing network interface (\"dev\" attribute)",
            ),
        }
    }
}

} // verus!
