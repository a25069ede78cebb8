//! Policy-routing rules: what a rule definition says, how a line of text
//! becomes one, and which requests of one family it stands for.

use vstd::prelude::*;
use crate::addr::{IpAddress, Ipv4Address, Ipv6Address};
use crate::number::decimal_text;
use crate::text::{
    collect, is_word, lemma_collect_fails, lines, occurrences, same_text, split_lines, texts,
};
use crate::token::{
    attr_views, distinct_keys, find, lemma_line_of, lemma_present, line_of, lookup, present,
    token_error_text, tokenize, tokens_of, Attr, AttrView, Slot, TokenError, TokenErrorView, Tokens,
    TokensView,
};
use crate::value::{
    cidr_line, cidr_to_line, first_unknown, flag_at, flag_line, key_texts, lemma_cidr_line,
    lemma_cidr_needs_one_slash, lemma_flag_line, lemma_number_line, lemma_unknown_key_none,
    number_at, number_to_line, prefix_at, read_cidr, read_flag, read_number, unknown_key,
    value_error_text, ValueError, ValueErrorView,
};

verus! {

/// The families that a rule is for, as the first word of its line names
/// them.
#[derive(Clone, Copy, Debug, PartialEq, Eq, Structural)]
pub enum RuleVersion {
    Both,
    Ipv4,
    Ipv6,
}

impl Default for RuleVersion {
    fn default() -> (r: RuleVersion)
        ensures
            r == RuleVersion::Both,
    {
        RuleVersion::Both
    }
}

/// What happens to a packet that a rule matches.
#[derive(Clone, Copy, Debug, PartialEq, Eq, Structural)]
pub enum RuleAction {
    /// The routing table of the rule decides.
    ToTable,
    /// The packet is dropped silently.
    Blackhole,
    /// The packet is answered as unreachable.
    Unreachable,
    /// The packet is answered as prohibited.
    Prohibit,
    /// An action known by its number only. No definition line gives it.
    Other(u8),
}

/// One rule definition.
#[derive(Clone, Copy, Debug, PartialEq, Eq)]
pub struct Rule {
    /// Whether the rule is only to be removed.
    pub delete: bool,
    pub version: RuleVersion,
    /// Whether the rule is for the packets that do not match.
    pub invert: bool,
    /// The firewall mark to match.
    pub fwmark: Option<u32>,
    /// The destination prefix to match.
    pub dst: Option<(IpAddress, u8)>,
    /// The source prefix to match.
    pub src: Option<(IpAddress, u8)>,
    pub action: RuleAction,
    /// The routing table for `ToTable`; 0 where the line names none.
    pub table: u32,
}

/// The rule definitions of one text, in the order in which they apply.
#[derive(Clone, Debug, PartialEq, Eq)]
pub struct Rules {
    pub rules: Vec<Rule>,
}

/// A rule of one family, with addresses of type `A`, as the kernel takes
/// it.
#[derive(Clone, Copy, Debug, PartialEq, Eq)]
pub struct RuleEntry<A> {
    pub invert: bool,
    pub fwmark: Option<u32>,
    pub dst: Option<(A, u8)>,
    pub src: Option<(A, u8)>,
    pub action: RuleAction,
    pub table: u32,
}

/// A rule of one family.
#[derive(Clone, Copy, Debug, PartialEq, Eq)]
pub enum RuleDef {
    V4(RuleEntry<Ipv4Address>),
    V6(RuleEntry<Ipv6Address>),
}

/// Why a line is no rule definition.
#[derive(Clone, Debug, PartialEq, Eq)]
pub enum RuleParseError {
    /// The line cannot be taken apart.
    Token(TokenError),
    /// The first word is none of `rule`, `rule4` and `rule6`.
    InvalidVersion(String),
    /// A rule has no attribute of this name.
    InvalidAttr(String),
    /// The value of an attribute cannot be read.
    Value(ValueError),
    /// The word names no action.
    InvalidAction(String),
    /// A rule for both families has a destination prefix.
    DstIllegal,
    /// A rule for both families has a source prefix.
    SrcIllegal,
    /// The destination of a `rule4` is an IPv6 prefix.
    DstNotIpv4,
    /// The destination of a `rule6` is an IPv4 prefix.
    DstNotIpv6,
    /// The source of a `rule4` is an IPv6 prefix.
    SrcNotIpv4,
    /// The source of a `rule6` is an IPv4 prefix.
    SrcNotIpv6,
    /// There is no `action` attribute.
    NoAction,
}

/// What a `RuleParseError` holds.
pub enum RuleParseErrorView {
    Token(TokenErrorView),
    InvalidVersion(Seq<char>),
    InvalidAttr(Seq<char>),
    Value(ValueErrorView),
    InvalidAction(Seq<char>),
    DstIllegal,
    SrcIllegal,
    DstNotIpv4,
    DstNotIpv6,
    SrcNotIpv4,
    SrcNotIpv6,
    NoAction,
}

impl View for RuleParseError {
    type V = RuleParseErrorView;

    open spec fn view(&self) -> RuleParseErrorView {
        match self {
            RuleParseError::Token(e) => RuleParseErrorView::Token(e@),
            RuleParseError::InvalidVersion(w) => RuleParseErrorView::InvalidVersion(w@),
            RuleParseError::InvalidAttr(w) => RuleParseErrorView::InvalidAttr(w@),
            RuleParseError::Value(e) => RuleParseErrorView::Value(e@),
            RuleParseError::InvalidAction(w) => RuleParseErrorView::InvalidAction(w@),
            RuleParseError::DstIllegal => RuleParseErrorView::DstIllegal,
            RuleParseError::SrcIllegal => RuleParseErrorView::SrcIllegal,
            RuleParseError::DstNotIpv4 => RuleParseErrorView::DstNotIpv4,
            RuleParseError::DstNotIpv6 => RuleParseErrorView::DstNotIpv6,
            RuleParseError::SrcNotIpv4 => RuleParseErrorView::SrcNotIpv4,
            RuleParseError::SrcNotIpv6 => RuleParseErrorView::SrcNotIpv6,
            RuleParseError::NoAction => RuleParseErrorView::NoAction,
        }
    }
}

/// The families that the first word of a rule line names.
pub open spec fn rule_version(w: Seq<char>) -> Option<RuleVersion> {
    if w == "rule"@ {
        Some(RuleVersion::Both)
    } else if w == "rule4"@ {
        Some(RuleVersion::Ipv4)
    } else if w == "rule6"@ {
        Some(RuleVersion::Ipv6)
    } else {
        None
    }
}

/// The keys of the attributes that a rule has.
pub open spec fn rule_keys() -> Seq<Seq<char>> {
    seq!["invert"@, "fwmark"@, "dst"@, "src"@, "action"@, "table"@]
}

/// The action that the word `v` names.
pub open spec fn action_of(v: Seq<char>) -> Option<RuleAction> {
    if v == "to_table"@ {
        Some(RuleAction::ToTable)
    } else if v == "blackhole"@ {
        Some(RuleAction::Blackhole)
    } else if v == "unreachable"@ {
        Some(RuleAction::Unreachable)
    } else if v == "prohibit"@ {
        Some(RuleAction::Prohibit)
    } else {
        None
    }
}

/// Whether a prefix of a rule for `version` may be `prefix`: a rule for
/// both families has none, a rule for one family has one of that family or
/// none.
pub open spec fn prefix_fits(version: RuleVersion, prefix: Option<(IpAddress, u8)>) -> bool {
    match prefix {
        None => true,
        Some((IpAddress::V4(_), _)) => version == RuleVersion::Ipv4,
        Some((IpAddress::V6(_), _)) => version == RuleVersion::Ipv6,
    }
}

/// How a prefix that does not fit a rule for `version` is named;
/// `illegal`, `not_v4` and `not_v6` are the names for the prefix in
/// question.
pub open spec fn prefix_fault(
    version: RuleVersion,
    illegal: RuleParseErrorView,
    not_v4: RuleParseErrorView,
    not_v6: RuleParseErrorView,
) -> RuleParseErrorView {
    match version {
        RuleVersion::Both => illegal,
        RuleVersion::Ipv4 => not_v4,
        RuleVersion::Ipv6 => not_v6,
    }
}

/// The rule that the parts of a line give. The first word names the
/// families. Then faults are named in this order: the first key that a rule
/// does not have; a value that cannot be read, of `invert`, `fwmark`, `dst`,
/// `src`, `action` or `table`; a destination that does not fit the families,
/// then such a source; a missing action.
pub open spec fn rule_of(t: TokensView) -> Result<Rule, RuleParseErrorView> {
    let version = rule_version(t.version);
    let unknown = unknown_key(t.attrs, rule_keys());
    let invert = flag_at(t.attrs, "invert"@);
    let fwmark = number_at(t.attrs, "fwmark"@);
    let dst = prefix_at(t.attrs, "dst"@);
    let src = prefix_at(t.attrs, "src"@);
    let action = lookup(t.attrs, "action"@);
    let table = number_at(t.attrs, "table"@);
    if version is None {
        Err(RuleParseErrorView::InvalidVersion(t.version))
    } else if unknown is Some {
        Err(RuleParseErrorView::InvalidAttr(unknown->0))
    } else if invert is Err {
        Err(RuleParseErrorView::Value(invert->Err_0))
    } else if fwmark is Err {
        Err(RuleParseErrorView::Value(fwmark->Err_0))
    } else if dst is Err {
        Err(RuleParseErrorView::Value(dst->Err_0))
    } else if src is Err {
        Err(RuleParseErrorView::Value(src->Err_0))
    } else if action is Some && action_of(action->0) is None {
        Err(RuleParseErrorView::InvalidAction(action->0))
    } else if table is Err {
        Err(RuleParseErrorView::Value(table->Err_0))
    } else if !prefix_fits(version->0, dst->Ok_0) {
        Err(
            prefix_fault(
                version->0,
                RuleParseErrorView::DstIllegal,
                RuleParseErrorView::DstNotIpv4,
                RuleParseErrorView::DstNotIpv6,
            ),
        )
    } else if !prefix_fits(version->0, src->Ok_0) {
        Err(
            prefix_fault(
                version->0,
                RuleParseErrorView::SrcIllegal,
                RuleParseErrorView::SrcNotIpv4,
                RuleParseErrorView::SrcNotIpv6,
            ),
        )
    } else if action is None {
        Err(RuleParseErrorView::NoAction)
    } else {
        Ok(
            Rule {
                delete: t.delete,
                version: version->0,
                invert: invert->Ok_0 is Some && invert->Ok_0->0,
                fwmark: fwmark->Ok_0,
                dst: dst->Ok_0,
                src: src->Ok_0,
                action: action_of(action->0)->0,
                table: if table->Ok_0 is Some {
                    table->Ok_0->0
                } else {
                    0
                },
            },
        )
    }
}

/// The rule that the line `line` defines.
pub open spec fn parse_rule(line: Seq<char>) -> Result<Rule, RuleParseErrorView> {
    match tokens_of(line) {
        Err(e) => Err(RuleParseErrorView::Token(e)),
        Ok(t) => rule_of(t),
    }
}

/// The rules that the text `text` defines, one on each line.
pub open spec fn parse_rules(text: Seq<char>) -> Result<Seq<Rule>, RuleParseErrorView> {
    collect(lines(text), rule_reader())
}

/// `parse_rule` as a value.
pub open spec fn rule_reader() -> spec_fn(Seq<char>) -> Result<Rule, RuleParseErrorView> {
    |line: Seq<char>| parse_rule(line)
}

/// The prefix `p` in the family that `narrow` takes addresses to.
pub open spec fn narrow_prefix<A>(
    narrow: spec_fn(IpAddress) -> Option<A>,
    p: Option<(IpAddress, u8)>,
) -> Option<(A, u8)> {
    match p {
        None => None,
        Some((a, n)) => match narrow(a) {
            Some(x) => Some((x, n)),
            None => None,
        },
    }
}

/// `a` as an IPv4 address, if it is one.
pub open spec fn rule_v4(a: IpAddress) -> Option<Ipv4Address> {
    match a {
        IpAddress::V4(x) => Some(x),
        IpAddress::V6(_) => None,
    }
}

/// `a` as an IPv6 address, if it is one.
pub open spec fn rule_v6(a: IpAddress) -> Option<Ipv6Address> {
    match a {
        IpAddress::V4(_) => None,
        IpAddress::V6(x) => Some(x),
    }
}

impl Rule {
    /// Whether the prefixes fit the families of the rule.
    pub open spec fn wf(self) -> bool {
        prefix_fits(self.version, self.dst) && prefix_fits(self.version, self.src)
    }

    /// The rule as the kernel takes it for the family that `narrow` takes
    /// addresses to.
    pub open spec fn entry<A>(self, narrow: spec_fn(IpAddress) -> Option<A>) -> RuleEntry<A> {
        RuleEntry {
            invert: self.invert,
            fwmark: self.fwmark,
            dst: narrow_prefix(narrow, self.dst),
            src: narrow_prefix(narrow, self.src),
            action: self.action,
            table: self.table,
        }
    }

    /// What the rule asks of the kernel, one request for each family that
    /// it is for: IPv4 before IPv6.
    pub open spec fn family_rules(self) -> Seq<RuleDef> {
        match self.version {
            RuleVersion::Both => seq![
                RuleDef::V4(self.entry(|a: IpAddress| rule_v4(a))),
                RuleDef::V6(self.entry(|a: IpAddress| rule_v6(a))),
            ],
            RuleVersion::Ipv4 => seq![RuleDef::V4(self.entry(|a: IpAddress| rule_v4(a)))],
            RuleVersion::Ipv6 => seq![RuleDef::V6(self.entry(|a: IpAddress| rule_v6(a)))],
        }
    }
}

/// Whether every key of `attrs` is one that a rule has, and every value
/// can be read.
pub open spec fn rule_attrs_read(attrs: Seq<AttrView>) -> bool {
    &&& unknown_key(attrs, rule_keys()) is None
    &&& flag_at(attrs, "invert"@) is Ok
    &&& number_at(attrs, "fwmark"@) is Ok
    &&& prefix_at(attrs, "dst"@) is Ok
    &&& prefix_at(attrs, "src"@) is Ok
    &&& (lookup(attrs, "action"@) matches Some(v) ==> action_of(v) is Some)
    &&& number_at(attrs, "table"@) is Ok
}

/// A rule for both families with a destination or a source in its line is
/// never accepted, and where nothing else is at fault it is refused for just
/// that, the destination being named first.
pub proof fn lemma_rule_for_both_takes_no_prefix(t: TokensView)
    requires
        rule_version(t.version) == Some(RuleVersion::Both),
        lookup(t.attrs, "dst"@) is Some || lookup(t.attrs, "src"@) is Some,
    ensures
        rule_of(t) is Err,
        rule_attrs_read(t.attrs) ==> rule_of(t) == Err::<Rule, RuleParseErrorView>(
            if lookup(t.attrs, "dst"@) is Some {
                RuleParseErrorView::DstIllegal
            } else {
                RuleParseErrorView::SrcIllegal
            },
        ),
{
}

/// A rule for one family whose destination is of the other family is never
/// accepted, and where nothing else is at fault it is refused for just
/// that.
pub proof fn lemma_rule_dst_of_other_family(t: TokensView, a: IpAddress, n: u8)
    requires
        rule_version(t.version) is Some,
        rule_version(t.version) != Some(RuleVersion::Both),
        prefix_at(t.attrs, "dst"@) == Ok::<Option<(IpAddress, u8)>, ValueErrorView>(Some((a, n))),
        !prefix_fits(rule_version(t.version)->0, Some((a, n))),
    ensures
        rule_of(t) is Err,
        rule_attrs_read(t.attrs) ==> rule_of(t) == Err::<Rule, RuleParseErrorView>(
            if rule_version(t.version) == Some(RuleVersion::Ipv4) {
                RuleParseErrorView::DstNotIpv4
            } else {
                RuleParseErrorView::DstNotIpv6
            },
        ),
{
}

/// A rule for one family whose source is of the other family is never
/// accepted, and where nothing else is at fault it is refused for just
/// that.
pub proof fn lemma_rule_src_of_other_family(t: TokensView, a: IpAddress, n: u8)
    requires
        rule_version(t.version) is Some,
        rule_version(t.version) != Some(RuleVersion::Both),
        prefix_at(t.attrs, "src"@) == Ok::<Option<(IpAddress, u8)>, ValueErrorView>(Some((a, n))),
        !prefix_fits(rule_version(t.version)->0, Some((a, n))),
    ensures
        rule_of(t) is Err,
        rule_attrs_read(t.attrs) && prefix_fits(
            rule_version(t.version)->0,
            prefix_at(t.attrs, "dst"@)->Ok_0,
        ) ==> rule_of(t) == Err::<Rule, RuleParseErrorView>(
            if rule_version(t.version) == Some(RuleVersion::Ipv4) {
                RuleParseErrorView::SrcNotIpv4
            } else {
                RuleParseErrorView::SrcNotIpv6
            },
        ),
{
}

/// A rule whose destination or source does not hold exactly one `/` is
/// never accepted, and where nothing that is looked at before is at fault
/// it is refused for just that.
pub proof fn lemma_rule_needs_one_slash(t: TokensView, v: Seq<char>)
    requires
        lookup(t.attrs, "dst"@) == Some(v) || lookup(t.attrs, "src"@) == Some(v),
        occurrences(v, '/') != 1,
    ensures
        rule_of(t) is Err,
        rule_version(t.version) is Some && unknown_key(t.attrs, rule_keys()) is None && flag_at(
            t.attrs,
            "invert"@,
        ) is Ok && number_at(t.attrs, "fwmark"@) is Ok && (lookup(t.attrs, "dst"@) == Some(v)
            || prefix_at(t.attrs, "dst"@) is Ok) ==> rule_of(t) == Err::<Rule, RuleParseErrorView>(
            RuleParseErrorView::Value(ValueErrorView::InvalidCidr(v)),
        ),
{
    lemma_cidr_needs_one_slash(v);
}

/// Every rule that a line defines is well formed.
pub proof fn lemma_rule_of_wf(t: TokensView)
    ensures
        rule_of(t) matches Ok(r) ==> r.wf() && !(r.action is Other),
{
}

/// The word for the action `a`; the number of an action that has no
/// word.
pub open spec fn action_word(a: RuleAction) -> Seq<char> {
    match a {
        RuleAction::ToTable => "to_table"@,
        RuleAction::Blackhole => "blackhole"@,
        RuleAction::Unreachable => "unreachable"@,
        RuleAction::Prohibit => "prohibit"@,
        RuleAction::Other(n) => decimal_text(n as nat),
    }
}

/// The first word of the line of a rule for `version`.
pub open spec fn version_word(version: RuleVersion) -> Seq<char> {
    match version {
        RuleVersion::Both => "rule"@,
        RuleVersion::Ipv4 => "rule4"@,
        RuleVersion::Ipv6 => "rule6"@,
    }
}

/// What is written for the prefix `p`, if there is one.
pub open spec fn prefix_line(p: Option<(IpAddress, u8)>) -> Option<Seq<char>> {
    match p {
        Some((a, n)) => Some(cidr_line(a, n)),
        None => None,
    }
}

/// The places for the attributes of a rule, in the order in which they
/// are written, each with what the rule has for it. A flag that does not
/// hold is not written, nor is table 0 unless the action is `to_table`.
pub open spec fn rule_slots(r: Rule) -> Seq<Slot> {
    seq![
        Slot {
            key: "invert"@,
            value: if r.invert {
                Some(flag_line(true))
            } else {
                None
            },
        },
        Slot {
            key: "fwmark"@,
            value: match r.fwmark {
                Some(n) => Some(decimal_text(n as nat)),
                None => None,
            },
        },
        Slot { key: "dst"@, value: prefix_line(r.dst) },
        Slot { key: "src"@, value: prefix_line(r.src) },
        Slot { key: "action"@, value: Some(action_word(r.action)) },
        Slot {
            key: "table"@,
            value: if r.action == RuleAction::ToTable || r.table != 0 {
                Some(decimal_text(r.table as nat))
            } else {
                None
            },
        },
    ]
}

/// The parts of the line that defines `r`.
pub open spec fn rule_tokens(r: Rule) -> TokensView {
    TokensView {
        version: version_word(r.version),
        delete: r.delete,
        attrs: present(rule_slots(r)),
    }
}

/// The line that defines `r`.
pub open spec fn rule_line(r: Rule) -> Seq<char> {
    line_of(rule_tokens(r))
}

/// The words of the rule grammar are words, and different ones.
proof fn lemma_rule_words()
    ensures
        is_word("rule"@),
        is_word("rule4"@),
        is_word("rule6"@),
        "rule"@ != "rule4"@ && "rule"@ != "rule6"@ && "rule4"@ != "rule6"@,
        is_word("invert"@),
        is_word("fwmark"@),
        is_word("dst"@),
        is_word("src"@),
        is_word("action"@),
        is_word("table"@),
        "invert"@ != "fwmark"@ && "invert"@ != "dst"@ && "invert"@ != "src"@ && "invert"@
            != "action"@ && "invert"@ != "table"@,
        "fwmark"@ != "dst"@ && "fwmark"@ != "src"@ && "fwmark"@ != "action"@ && "fwmark"@
            != "table"@,
        "dst"@ != "src"@ && "dst"@ != "action"@ && "dst"@ != "table"@,
        "src"@ != "action"@ && "src"@ != "table"@,
        "action"@ != "table"@,
        is_word("to_table"@),
        is_word("blackhole"@),
        is_word("unreachable"@),
        is_word("prohibit"@),
        "to_table"@ != "blackhole"@ && "to_table"@ != "unreachable"@ && "to_table"@
            != "prohibit"@,
        "blackhole"@ != "unreachable"@ && "blackhole"@ != "prohibit"@,
        "unreachable"@ != "prohibit"@,
{
    reveal_strlit("rule");
    reveal_strlit("rule4");
    reveal_strlit("rule6");
    reveal_strlit("invert");
    reveal_strlit("fwmark");
    reveal_strlit("dst");
    reveal_strlit("src");
    reveal_strlit("action");
    reveal_strlit("table");
    reveal_strlit("to_table");
    reveal_strlit("blackhole");
    reveal_strlit("unreachable");
    reveal_strlit("prohibit");
    assert("rule"@.len() == 4 && "rule4"@.len() == 5 && "rule6"@.len() == 5);
    assert("rule4"@[4] != "rule6"@[4]);
    assert("invert"@[0] != "fwmark"@[0]);
    assert("invert"@[0] != "action"@[0]);
    assert("fwmark"@[0] != "action"@[0]);
    assert("dst"@[0] != "src"@[0]);
    assert("to_table"@[0] != "prohibit"@[0]);
}

/// What a rule has for its attributes is found again in the attributes
/// that are written for it, and nothing else is.
pub proof fn lemma_rule_slots(r: Rule)
    requires
        !(r.action is Other),
    ensures
        ({
            let attrs = present(rule_slots(r));
            &&& distinct_keys(attrs)
            &&& forall|i: int|
                0 <= i < attrs.len() ==> is_word((#[trigger] attrs[i]).key) && is_word(
                    attrs[i].value,
                )
            &&& unknown_key(attrs, rule_keys()) is None
            &&& flag_at(attrs, "invert"@) == Ok::<Option<bool>, ValueErrorView>(
                if r.invert {
                    Some(true)
                } else {
                    None
                },
            )
            &&& number_at(attrs, "fwmark"@) == Ok::<Option<u32>, ValueErrorView>(r.fwmark)
            &&& prefix_at(attrs, "dst"@) == Ok::<Option<(IpAddress, u8)>, ValueErrorView>(r.dst)
            &&& prefix_at(attrs, "src"@) == Ok::<Option<(IpAddress, u8)>, ValueErrorView>(r.src)
            &&& lookup(attrs, "action"@) == Some(action_word(r.action))
            &&& action_of(action_word(r.action)) == Some(r.action)
            &&& number_at(attrs, "table"@) == Ok::<Option<u32>, ValueErrorView>(
                if r.action == RuleAction::ToTable || r.table != 0 {
                    Some(r.table)
                } else {
                    None
                },
            )
        }),
{
    let slots = rule_slots(r);
    let attrs = present(slots);
    lemma_rule_words();
    lemma_present(slots);
    lemma_flag_line(true);
    if r.fwmark is Some {
        lemma_number_line(r.fwmark->0);
    }
    match r.dst {
        Some((a, n)) => {
            lemma_cidr_line(a, n);
        },
        None => {},
    }
    match r.src {
        Some((a, n)) => {
            lemma_cidr_line(a, n);
        },
        None => {},
    }
    lemma_number_line(r.table);
    assert(lookup(attrs, slots[0].key) == slots[0].value);
    assert(lookup(attrs, slots[1].key) == slots[1].value);
    assert(lookup(attrs, slots[2].key) == slots[2].value);
    assert(lookup(attrs, slots[3].key) == slots[3].value);
    assert(lookup(attrs, slots[4].key) == slots[4].value);
    assert(lookup(attrs, slots[5].key) == slots[5].value);
    assert forall|j: int| 0 <= j < attrs.len() implies is_word((#[trigger] attrs[j]).key)
        && is_word(attrs[j].value) && rule_keys().contains(attrs[j].key) by {
        let i = choose|i: int|
            0 <= i < slots.len() && (#[trigger] slots[i]).key == attrs[j].key && slots[i].value
                == Some(attrs[j].value);
        assert(rule_keys()[i] == slots[i].key);
    }
    lemma_unknown_key_none(attrs, rule_keys());
}

/// A line that was written for a rule defines that rule.
pub proof fn lemma_rule_line(r: Rule)
    requires
        r.wf(),
        !(r.action is Other),
    ensures
        parse_rule(rule_line(r)) == Ok::<Rule, RuleParseErrorView>(r),
{
    let t = rule_tokens(r);
    lemma_rule_words();
    lemma_rule_slots(r);
    lemma_line_of(t);
    assert(rule_version(t.version) == Some(r.version));
    assert(rule_of(t) == Ok::<Rule, RuleParseErrorView>(r));
}

/// Every rule that a line defines is defined again by the line that is
/// written for it.
pub proof fn lemma_rule_round_trip(line: Seq<char>)
    ensures
        parse_rule(line) matches Ok(r) ==> parse_rule(rule_line(r)) == Ok::<
            Rule,
            RuleParseErrorView,
        >(r),
{
    if parse_rule(line) is Ok {
        lemma_rule_of_wf(tokens_of(line)->Ok_0);
        lemma_rule_line(parse_rule(line)->Ok_0);
    }
}

/// The prefix `p` as an IPv4 prefix.
fn prefix_v4(p: Option<(IpAddress, u8)>) -> (r: Option<(Ipv4Address, u8)>)
    requires
        p matches Some((a, _)) ==> a is V4,
    ensures
        r == narrow_prefix(|a: IpAddress| rule_v4(a), p),
{
    match p {
        Some((IpAddress::V4(a), n)) => Some((a, n)),
        _ => None,
    }
}

/// The prefix `p` as an IPv6 prefix.
fn prefix_v6(p: Option<(IpAddress, u8)>) -> (r: Option<(Ipv6Address, u8)>)
    requires
        p matches Some((a, _)) ==> a is V6,
    ensures
        r == narrow_prefix(|a: IpAddress| rule_v6(a), p),
{
    match p {
        Some((IpAddress::V6(a), n)) => Some((a, n)),
        _ => None,
    }
}

impl RuleAction {
    /// The word for the action; the number of an action that has no word.
    pub fn word(&self) -> (r: String)
        ensures
            r@ == action_word(*self),
    {
        match self {
            RuleAction::ToTable => String::from_str("to_table"),
            RuleAction::Blackhole => String::from_str("blackhole"),
            RuleAction::Unreachable => String::from_str("unreachable"),
            RuleAction::Prohibit => String::from_str("prohibit"),
            RuleAction::Other(n) => number_to_line(*n as u32),
        }
    }
}

impl RuleVersion {
    /// The first word of the line of a rule for these families.
    pub fn word(&self) -> (r: String)
        ensures
            r@ == version_word(*self),
    {
        match self {
            RuleVersion::Both => String::from_str("rule"),
            RuleVersion::Ipv4 => String::from_str("rule4"),
            RuleVersion::Ipv6 => String::from_str("rule6"),
        }
    }
}

impl Rule {
    /// The parts of the line that defines the rule.
    pub fn to_tokens(&self) -> (t: Tokens)
        ensures
            t@ == rule_tokens(*self),
    {
        let ghost slots = rule_slots(*self);
        let mut attrs: Vec<Attr> = Vec::new();
        proof {
            assert(slots.take(0) == Seq::<Slot>::empty());
            assert(attr_views(attrs@) == present(slots.take(0)));
            assert(slots.take(1).drop_last() == slots.take(0));
            assert(slots.take(2).drop_last() == slots.take(1));
            assert(slots.take(3).drop_last() == slots.take(2));
            assert(slots.take(4).drop_last() == slots.take(3));
            assert(slots.take(5).drop_last() == slots.take(4));
            assert(slots.take(6).drop_last() == slots.take(5));
            assert(slots.take(6) == slots);
        }
        if self.invert {
            let ghost before = attrs@;
            let attr = Attr { key: String::from_str("invert"), value: String::from_str("true") };
            attrs.push(attr);
            assert(attr_views(attrs@) == attr_views(before).push(attr@));
        }
        assert(attr_views(attrs@) == present(slots.take(1)));
        match self.fwmark {
            Some(n) => {
                let ghost before = attrs@;
                let attr = Attr { key: String::from_str("fwmark"), value: number_to_line(n) };
                attrs.push(attr);
                assert(attr_views(attrs@) == attr_views(before).push(attr@));
            },
            None => {},
        }
        assert(attr_views(attrs@) == present(slots.take(2)));
        match self.dst {
            Some((a, n)) => {
                let ghost before = attrs@;
                let attr = Attr { key: String::from_str("dst"), value: cidr_to_line(&a, n) };
                attrs.push(attr);
                assert(attr_views(attrs@) == attr_views(before).push(attr@));
            },
            None => {},
        }
        assert(attr_views(attrs@) == present(slots.take(3)));
        match self.src {
            Some((a, n)) => {
                let ghost before = attrs@;
                let attr = Attr { key: String::from_str("src"), value: cidr_to_line(&a, n) };
                attrs.push(attr);
                assert(attr_views(attrs@) == attr_views(before).push(attr@));
            },
            None => {},
        }
        assert(attr_views(attrs@) == present(slots.take(4)));
        let ghost before = attrs@;
        let attr = Attr { key: String::from_str("action"), value: self.action.word() };
        attrs.push(attr);
        assert(attr_views(attrs@) == attr_views(before).push(attr@));
        assert(attr_views(attrs@) == present(slots.take(5)));
        let to_table = match self.action {
            RuleAction::ToTable => true,
            _ => false,
        };
        if to_table || self.table != 0 {
            let ghost before = attrs@;
            let attr = Attr { key: String::from_str("table"), value: number_to_line(self.table) };
            attrs.push(attr);
            assert(attr_views(attrs@) == attr_views(before).push(attr@));
        }
        assert(attr_views(attrs@) == present(slots.take(6)));
        Tokens { version: self.version.word(), delete: self.delete, attrs }
    }

    /// The line that defines the rule: its families, `add` or `del`, and
    /// its attributes in the order `invert`, `fwmark`, `dst`, `src`,
    /// `action`, `table`. Read again, the line gives the rule, unless its
    /// action has no word.
    pub fn to_line(&self) -> (r: String)
        ensures
            r@ == rule_line(*self),
    {
        self.to_tokens().to_line()
    }
}

impl Rule {
    /// Decides `wf`.
    pub fn is_wf(&self) -> (r: bool)
        ensures
            r == self.wf(),
    {
        let dst_fits = match self.dst {
            None => true,
            Some((IpAddress::V4(_), _)) => self.version == RuleVersion::Ipv4,
            Some((IpAddress::V6(_), _)) => self.version == RuleVersion::Ipv6,
        };
        let src_fits = match self.src {
            None => true,
            Some((IpAddress::V4(_), _)) => self.version == RuleVersion::Ipv4,
            Some((IpAddress::V6(_), _)) => self.version == RuleVersion::Ipv6,
        };
        dst_fits && src_fits
    }

    /// What the rule asks of the kernel, one request for each family that
    /// it is for.
    pub fn requests(&self) -> (r: Vec<RuleDef>)
        requires
            self.wf(),
        ensures
            r@ == self.family_rules(),
    {
        let mut out: Vec<RuleDef> = Vec::new();
        match self.version {
            RuleVersion::Both => {
                out.push(
                    RuleDef::V4(
                        RuleEntry {
                            invert: self.invert,
                            fwmark: self.fwmark,
                            dst: None,
                            src: None,
                            action: self.action,
                            table: self.table,
                        },
                    ),
                );
                out.push(
                    RuleDef::V6(
                        RuleEntry {
                            invert: self.invert,
                            fwmark: self.fwmark,
                            dst: None,
                            src: None,
                            action: self.action,
                            table: self.table,
                        },
                    ),
                );
            },
            RuleVersion::Ipv4 => {
                out.push(
                    RuleDef::V4(
                        RuleEntry {
                            invert: self.invert,
                            fwmark: self.fwmark,
                            dst: prefix_v4(self.dst),
                            src: prefix_v4(self.src),
                            action: self.action,
                            table: self.table,
                        },
                    ),
                );
            },
            RuleVersion::Ipv6 => {
                out.push(
                    RuleDef::V6(
                        RuleEntry {
                            invert: self.invert,
                            fwmark: self.fwmark,
                            dst: prefix_v6(self.dst),
                            src: prefix_v6(self.src),
                            action: self.action,
                            table: self.table,
                        },
                    ),
                );
            },
        }
        assert(out@ =~= self.family_rules());
        out
    }

    /// The rule that the parts `t` of a line give.
    pub fn from_tokens(t: &Tokens) -> (r: Result<Rule, RuleParseError>)
        ensures
            match r {
                Ok(rule) => rule_of(t@) == Ok::<Rule, RuleParseErrorView>(rule),
                Err(e) => rule_of(t@) == Err::<Rule, RuleParseErrorView>(e@),
            },
            r matches Ok(rule) ==> rule.wf(),
    {
        let version = if same_text(t.version.as_str(), "rule") {
            RuleVersion::Both
        } else if same_text(t.version.as_str(), "rule4") {
            RuleVersion::Ipv4
        } else if same_text(t.version.as_str(), "rule6") {
            RuleVersion::Ipv6
        } else {
            return Err(RuleParseError::InvalidVersion(t.version.clone()));
        };
        let known: Vec<&str> = vec!["invert", "fwmark", "dst", "src", "action", "table"];
        assert(key_texts(known@) == rule_keys());
        match first_unknown(&t.attrs, &known) {
            Some(k) => {
                return Err(RuleParseError::InvalidAttr(k));
            },
            None => {},
        }
        let invert = match find(&t.attrs, "invert") {
            None => false,
            Some(v) => match read_flag(v.as_str()) {
                Ok(x) => x,
                Err(e) => {
                    return Err(RuleParseError::Value(e));
                },
            },
        };
        let fwmark = match find(&t.attrs, "fwmark") {
            None => None,
            Some(v) => match read_number(v.as_str()) {
                Ok(x) => Some(x),
                Err(e) => {
                    return Err(RuleParseError::Value(e));
                },
            },
        };
        let dst = match find(&t.attrs, "dst") {
            None => None,
            Some(v) => match read_cidr(v.as_str()) {
                Ok(x) => Some(x),
                Err(e) => {
                    return Err(RuleParseError::Value(e));
                },
            },
        };
        let src = match find(&t.attrs, "src") {
            None => None,
            Some(v) => match read_cidr(v.as_str()) {
                Ok(x) => Some(x),
                Err(e) => {
                    return Err(RuleParseError::Value(e));
                },
            },
        };
        let action = match find(&t.attrs, "action") {
            None => None,
            Some(v) => {
                if same_text(v.as_str(), "to_table") {
                    Some(RuleAction::ToTable)
                } else if same_text(v.as_str(), "blackhole") {
                    Some(RuleAction::Blackhole)
                } else if same_text(v.as_str(), "unreachable") {
                    Some(RuleAction::Unreachable)
                } else if same_text(v.as_str(), "prohibit") {
                    Some(RuleAction::Prohibit)
                } else {
                    return Err(RuleParseError::InvalidAction(v.clone()));
                }
            },
        };
        let table = match find(&t.attrs, "table") {
            None => 0,
            Some(v) => match read_number(v.as_str()) {
                Ok(x) => x,
                Err(e) => {
                    return Err(RuleParseError::Value(e));
                },
            },
        };
        match dst {
            None => {},
            Some((IpAddress::V4(_), _)) => match version {
                RuleVersion::Both => {
                    return Err(RuleParseError::DstIllegal);
                },
                RuleVersion::Ipv4 => {},
                RuleVersion::Ipv6 => {
                    return Err(RuleParseError::DstNotIpv6);
                },
            },
            Some((IpAddress::V6(_), _)) => match version {
                RuleVersion::Both => {
                    return Err(RuleParseError::DstIllegal);
                },
                RuleVersion::Ipv4 => {
                    return Err(RuleParseError::DstNotIpv4);
                },
                RuleVersion::Ipv6 => {},
            },
        }
        match src {
            None => {},
            Some((IpAddress::V4(_), _)) => match version {
                RuleVersion::Both => {
                    return Err(RuleParseError::SrcIllegal);
                },
                RuleVersion::Ipv4 => {},
                RuleVersion::Ipv6 => {
                    return Err(RuleParseError::SrcNotIpv6);
                },
            },
            Some((IpAddress::V6(_), _)) => match version {
                RuleVersion::Both => {
                    return Err(RuleParseError::SrcIllegal);
                },
                RuleVersion::Ipv4 => {
                    return Err(RuleParseError::SrcNotIpv4);
                },
                RuleVersion::Ipv6 => {},
            },
        }
        let action = match action {
            None => {
                return Err(RuleParseError::NoAction);
            },
            Some(a) => a,
        };
        Ok(Rule { delete: t.delete, version, invert, fwmark, dst, src, action, table })
    }

    /// The rule that the line `line` defines.
    pub fn from_str(line: &str) -> (r: Result<Rule, RuleParseError>)
        ensures
            match r {
                Ok(rule) => parse_rule(line@) == Ok::<Rule, RuleParseErrorView>(rule),
                Err(e) => parse_rule(line@) == Err::<Rule, RuleParseErrorView>(e@),
            },
            r matches Ok(rule) ==> rule.wf(),
    {
        match tokenize(line) {
            Err(e) => Err(RuleParseError::Token(e)),
            Ok(t) => Rule::from_tokens(&t),
        }
    }
}

impl Rules {
    /// The rules that the text `text` defines, one on each line.
    pub fn from_str(text: &str) -> (r: Result<Rules, RuleParseError>)
        ensures
            match r {
                Ok(rules) => parse_rules(text@) == Ok::<Seq<Rule>, RuleParseErrorView>(
                    rules.rules@,
                ),
                Err(e) => parse_rules(text@) == Err::<Seq<Rule>, RuleParseErrorView>(e@),
            },
            r matches Ok(rules) ==> forall|i: int|
                0 <= i < rules.rules.len() ==> (#[trigger] rules.rules[i]).wf(),
    {
        let ls = split_lines(text);
        let ghost all = texts(ls@);
        let mut rules: Vec<Rule> = Vec::new();
        let mut i: usize = 0;
        assert(all.take(0) == Seq::<Seq<char>>::empty());
        while i < ls.len()
            invariant
                i <= ls.len(),
                all == texts(ls@),
                all == lines(text@),
                collect(all.take(i as int), rule_reader()) == Ok::<Seq<Rule>, RuleParseErrorView>(
                    rules@,
                ),
                forall|k: int| 0 <= k < rules.len() ==> (#[trigger] rules[k]).wf(),
            decreases ls.len() - i,
        {
            proof {
                assert(all.take(i + 1).drop_last() == all.take(i as int));
                assert(all.take(i + 1).last() == ls@[i as int]@);
            }
            match Rule::from_str(ls[i].as_str()) {
                Err(e) => {
                    proof {
                        lemma_collect_fails(all, rule_reader(), i + 1);
                    }
                    return Err(e);
                },
                Ok(rule) => {
                    rules.push(rule);
                },
            }
            i += 1;
        }
        assert(all.take(ls.len() as int) == all);
        Ok(Rules { rules })
    }
}

/// What is said of the fault `e`.
pub open spec fn rule_error_text(e: RuleParseErrorView) -> Seq<char> {
    match e {
        RuleParseErrorView::Token(t) => token_error_text(
            t,
            "\"rule\", \"rule4\" or \"rule6\""@,
        ),
        RuleParseErrorView::InvalidVersion(w) => "invalid version: "@ + w
            + " (want \"rule\", \"rule4\" or \"rule6\")"@,
        RuleParseErrorView::InvalidAttr(w) => "invalid attribute "@ + w,
        RuleParseErrorView::Value(v) => value_error_text(v),
        RuleParseErrorView::InvalidAction(w) => "invalid action "@ + w,
        RuleParseErrorView::DstIllegal => "protocol-agnostic rule with destination prefix"@,
        RuleParseErrorView::SrcIllegal => "protocol-agnostic rule with source prefix"@,
        RuleParseErrorView::DstNotIpv4 => "rule4 with non-IPv4 destination"@,
        RuleParseErrorView::DstNotIpv6 => "rule6 with non-IPv6 destination"@,
        RuleParseErrorView::SrcNotIpv4 => "rule4 with non-IPv4 source"@,
        RuleParseErrorView::SrcNotIpv6 => "rule6 with non-IPv6 source"@,
        RuleParseErrorView::NoAction => "missing action (\"action\" attribute)"@,
    }
}

impl RuleParseError {
    /// What is said of the fault.
    pub fn message(&self) -> (r: String)
        ensures
            r@ == rule_error_text(self@),
    {
        match self {
            RuleParseError::Token(t) => t.message("\"rule\", \"rule4\" or \"rule6\""),
            RuleParseError::InvalidVersion(w) => {
                let mut out = String::from_str("invalid version: ");
                out.append(w.as_str());
                out.append(" (want \"rule\", \"rule4\" or \"rule6\")");
                out
            },
            RuleParseError::InvalidAttr(w) => {
                let mut out = String::from_str("invalid attribute ");
                out.append(w.as_str());
                out
            },
            RuleParseError::Value(v) => v.message(),
            RuleParseError::InvalidAction(w) => {
                let mut out = String::from_str("invalid action ");
                out.append(w.as_str());
                out
            },
            RuleParseError::DstIllegal => String::from_str(
                "protocol-agnostic rule with destination prefix",
            ),
            RuleParseError::SrcIllegal => String::from_str(
                "protocol-agnostic rule with source prefix",
            ),
            RuleParseError::DstNotIpv4 => String::from_str("rule4 with non-IPv4 destination"),
            RuleParseError::DstNotIpv6 => String::from_str("rule6 with non-IPv6 destination"),
            RuleParseError::SrcNotIpv4 => String::from_str("rule4 with non-IPv4 source"),
            RuleParseError::SrcNotIpv6 => String::from_str("rule6 with non-IPv6 source"),
            RuleParseError::NoAction => String::from_str("missing action (\"action\" attribute)"),
        }
    }
}

} // verus!
