//! The values of attributes: prefixes, addresses, flags and numbers, and
//! the keys that a kind of entry knows.

use vstd::prelude::*;
use crate::addr::{ip_line, ip_text, is_hex, lemma_ip_line, IpAddress};
use crate::number::{
    decimal_text, int_error_text, is_digit, lemma_decimal_text, lemma_decimal_text_read, parse_bool,
    parse_flag, parse_u32, parse_u8, parse_uint, push_decimal, IntError,
};
use crate::text::{
    free_of, is_blank, is_word, lemma_split_join, lemma_split_len, lemma_split_whole, occurrences,
    same_text, split, split_fields, texts,
};
use crate::token::{attr_views, lookup, Attr, AttrView};

verus! {

/// Why the value of an attribute cannot be read.
#[derive(Clone, Debug, PartialEq, Eq)]
pub enum ValueError {
    /// The prefix does not hold exactly one `/`.
    InvalidCidr(String),
    /// The text is no address of either family.
    ParseAddr,
    /// The text is neither `true` nor `false`.
    ParseBool,
    /// The text is no number of the wanted width.
    ParseInt(IntError),
}

/// What a `ValueError` holds.
pub enum ValueErrorView {
    InvalidCidr(Seq<char>),
    ParseAddr,
    ParseBool,
    ParseInt(IntError),
}

impl View for ValueError {
    type V = ValueErrorView;

    open spec fn view(&self) -> ValueErrorView {
        match self {
            ValueError::InvalidCidr(v) => ValueErrorView::InvalidCidr(v@),
            ValueError::ParseAddr => ValueErrorView::ParseAddr,
            ValueError::ParseBool => ValueErrorView::ParseBool,
            ValueError::ParseInt(e) => ValueErrorView::ParseInt(*e),
        }
    }
}

/// What `v` is as a prefix: an address, one `/`, and a length of at most
/// 255. A fault of the address is named before one of the length.
pub open spec fn cidr_of(v: Seq<char>) -> Result<(IpAddress, u8), ValueErrorView> {
    let f = split(v, '/');
    if f.len() != 2 {
        Err(ValueErrorView::InvalidCidr(v))
    } else {
        match ip_text(f[0]) {
            None => Err(ValueErrorView::ParseAddr),
            Some(a) => match parse_uint(f[1], u8::MAX as nat) {
                Err(e) => Err(ValueErrorView::ParseInt(e)),
                Ok(n) => Ok((a, n as u8)),
            },
        }
    }
}

/// What `v` is as an address.
pub open spec fn addr_of(v: Seq<char>) -> Result<IpAddress, ValueErrorView> {
    match ip_text(v) {
        None => Err(ValueErrorView::ParseAddr),
        Some(a) => Ok(a),
    }
}

/// What `v` is as a flag.
pub open spec fn flag_of(v: Seq<char>) -> Result<bool, ValueErrorView> {
    match parse_flag(v) {
        None => Err(ValueErrorView::ParseBool),
        Some(b) => Ok(b),
    }
}

/// What `v` is as a number of 32 bits.
pub open spec fn number_of(v: Seq<char>) -> Result<u32, ValueErrorView> {
    match parse_uint(v, u32::MAX as nat) {
        Err(e) => Err(ValueErrorView::ParseInt(e)),
        Ok(n) => Ok(n as u32),
    }
}

/// What an attribute that may be missing is: nothing without a value, else
/// what `read` makes of the value.
pub open spec fn optional<T>(
    v: Option<Seq<char>>,
    read: spec_fn(Seq<char>) -> Result<T, ValueErrorView>,
) -> Result<Option<T>, ValueErrorView> {
    match v {
        None => Ok(None),
        Some(text) => match read(text) {
            Ok(x) => Ok(Some(x)),
            Err(e) => Err(e),
        },
    }
}

/// The prefix that `attrs` has for `key`, if any.
pub open spec fn prefix_at(attrs: Seq<AttrView>, key: Seq<char>) -> Result<
    Option<(IpAddress, u8)>,
    ValueErrorView,
> {
    optional(lookup(attrs, key), |v: Seq<char>| cidr_of(v))
}

/// The address that `attrs` has for `key`, if any.
pub open spec fn addr_at(attrs: Seq<AttrView>, key: Seq<char>) -> Result<
    Option<IpAddress>,
    ValueErrorView,
> {
    optional(lookup(attrs, key), |v: Seq<char>| addr_of(v))
}

/// The flag that `attrs` has for `key`, if any.
pub open spec fn flag_at(attrs: Seq<AttrView>, key: Seq<char>) -> Result<
    Option<bool>,
    ValueErrorView,
> {
    optional(lookup(attrs, key), |v: Seq<char>| flag_of(v))
}

/// The number that `attrs` has for `key`, if any.
pub open spec fn number_at(attrs: Seq<AttrView>, key: Seq<char>) -> Result<
    Option<u32>,
    ValueErrorView,
> {
    optional(lookup(attrs, key), |v: Seq<char>| number_of(v))
}

/// What each text of `v` holds.
pub open spec fn key_texts(v: Seq<&str>) -> Seq<Seq<char>> {
    Seq::new(v.len(), |i: int| v[i]@)
}

/// The first key of `attrs`, in the order of the line, that is none of
/// `known`.
pub open spec fn unknown_key(attrs: Seq<AttrView>, known: Seq<Seq<char>>) -> Option<Seq<char>>
    decreases attrs.len(),
{
    if attrs.len() == 0 {
        None
    } else {
        match unknown_key(attrs.drop_last(), known) {
            Some(k) => Some(k),
            None => if known.contains(attrs.last().key) {
                None
            } else {
                Some(attrs.last().key)
            },
        }
    }
}

/// A prefix without a `/`, or with more than one, is refused as such.
pub proof fn lemma_cidr_needs_one_slash(v: Seq<char>)
    ensures
        occurrences(v, '/') != 1 ==> cidr_of(v) == Err::<(IpAddress, u8), ValueErrorView>(
            ValueErrorView::InvalidCidr(v),
        ),
        occurrences(v, '/') == 1 ==> cidr_of(v) != Err::<(IpAddress, u8), ValueErrorView>(
            ValueErrorView::InvalidCidr(v),
        ),
{
    lemma_split_len(v, '/');
}

/// An unknown key among the first attributes is the unknown key of all.
pub proof fn lemma_unknown_key_found(attrs: Seq<AttrView>, known: Seq<Seq<char>>, k: int)
    requires
        0 <= k <= attrs.len(),
        unknown_key(attrs.take(k), known) is Some,
    ensures
        unknown_key(attrs, known) == unknown_key(attrs.take(k), known),
    decreases attrs.len() - k,
{
    if k == attrs.len() {
        assert(attrs.take(k) == attrs);
    } else {
        assert(attrs.drop_last().take(k) == attrs.take(k));
        lemma_unknown_key_found(attrs.drop_last(), known, k);
    }
}

/// Where no key is unknown, every key is one of `known`.
pub proof fn lemma_unknown_key_none(attrs: Seq<AttrView>, known: Seq<Seq<char>>)
    ensures
        unknown_key(attrs, known) is None <==> forall|i: int|
            0 <= i < attrs.len() ==> known.contains((#[trigger] attrs[i]).key),
    decreases attrs.len(),
{
    if attrs.len() > 0 {
        let before = attrs.drop_last();
        lemma_unknown_key_none(before, known);
        if unknown_key(attrs, known) is None {
            assert forall|i: int| 0 <= i < attrs.len() implies known.contains(
                (#[trigger] attrs[i]).key,
            ) by {
                if i < before.len() {
                    assert(before[i] == attrs[i]);
                }
            }
        }
        if forall|i: int| 0 <= i < attrs.len() ==> known.contains((#[trigger] attrs[i]).key) {
            assert forall|i: int| 0 <= i < before.len() implies known.contains(
                (#[trigger] before[i]).key,
            ) by {
                assert(before[i] == attrs[i]);
            }
            assert(known.contains(attrs[attrs.len() - 1].key));
        }
    }
}

/// Reads `v` as a prefix.
pub fn read_cidr(v: &str) -> (r: Result<(IpAddress, u8), ValueError>)
    ensures
        match r {
            Ok(x) => cidr_of(v@) == Ok::<(IpAddress, u8), ValueErrorView>(x),
            Err(e) => cidr_of(v@) == Err::<(IpAddress, u8), ValueErrorView>(e@),
        },
{
    let f = split_fields(v, '/');
    if f.len() != 2 {
        return Err(ValueError::InvalidCidr(v.to_owned()));
    }
    assert(texts(f@)[0] == f@[0]@ && texts(f@)[1] == f@[1]@);
    let addr = match IpAddress::parse(f[0].as_str()) {
        Some(a) => a,
        None => return Err(ValueError::ParseAddr),
    };
    match parse_u8(f[1].as_str()) {
        Ok(n) => Ok((addr, n)),
        Err(e) => Err(ValueError::ParseInt(e)),
    }
}

/// Reads `v` as an address.
pub fn read_addr(v: &str) -> (r: Result<IpAddress, ValueError>)
    ensures
        match r {
            Ok(x) => addr_of(v@) == Ok::<IpAddress, ValueErrorView>(x),
            Err(e) => addr_of(v@) == Err::<IpAddress, ValueErrorView>(e@),
        },
{
    match IpAddress::parse(v) {
        Some(a) => Ok(a),
        None => Err(ValueError::ParseAddr),
    }
}

/// Reads `v` as a flag.
pub fn read_flag(v: &str) -> (r: Result<bool, ValueError>)
    ensures
        match r {
            Ok(x) => flag_of(v@) == Ok::<bool, ValueErrorView>(x),
            Err(e) => flag_of(v@) == Err::<bool, ValueErrorView>(e@),
        },
{
    match parse_bool(v) {
        Some(b) => Ok(b),
        None => Err(ValueError::ParseBool),
    }
}

/// Reads `v` as a number of 32 bits.
pub fn read_number(v: &str) -> (r: Result<u32, ValueError>)
    ensures
        match r {
            Ok(x) => number_of(v@) == Ok::<u32, ValueErrorView>(x),
            Err(e) => number_of(v@) == Err::<u32, ValueErrorView>(e@),
        },
{
    match parse_u32(v) {
        Ok(n) => Ok(n),
        Err(e) => Err(ValueError::ParseInt(e)),
    }
}

/// The first key of `attrs` that is none of `known`.
pub fn first_unknown(attrs: &Vec<Attr>, known: &Vec<&str>) -> (r: Option<String>)
    ensures
        match r {
            Some(k) => unknown_key(attr_views(attrs@), key_texts(known@)) == Some(k@),
            None => unknown_key(attr_views(attrs@), key_texts(known@)) is None,
        },
{
    let ghost all = attr_views(attrs@);
    let ghost keys = key_texts(known@);
    let mut i: usize = 0;
    assert(all.take(0) == Seq::<AttrView>::empty());
    while i < attrs.len()
        invariant
            i <= attrs.len(),
            all == attr_views(attrs@),
            keys == key_texts(known@),
            unknown_key(all.take(i as int), keys) is None,
        decreases attrs.len() - i,
    {
        let key = attrs[i].key.as_str();
        let mut found = false;
        let mut j: usize = 0;
        while j < known.len() && !found
            invariant
                j <= known.len(),
                keys == key_texts(known@),
                found ==> keys.contains(key@),
                !found ==> forall|k: int| 0 <= k < j ==> keys[k] != key@,
            decreases known.len() - j + if found { 0int } else { 1int },
        {
            if same_text(known[j], key) {
                assert(keys[j as int] == key@);
                found = true;
            } else {
                j += 1;
            }
        }
        proof {
            assert(all.take(i + 1).drop_last() == all.take(i as int));
            assert(all.take(i + 1).last().key == key@);
        }
        if !found {
            proof {
                lemma_unknown_key_found(all, keys, i + 1);
            }
            return Some(attrs[i].key.clone());
        }
        i += 1;
    }
    assert(all.take(attrs.len() as int) == all);
    None
}

/// The prefix of `n` bits of `a` as it is written in a definition.
pub open spec fn cidr_line(a: IpAddress, n: u8) -> Seq<char> {
    ip_line(a).push('/') + decimal_text(n as nat)
}

/// The flag `b` as it is written in a definition.
pub open spec fn flag_line(b: bool) -> Seq<char> {
    if b {
        "true"@
    } else {
        "false"@
    }
}

/// A prefix that was written is read as that prefix, and it is written as
/// one word.
pub proof fn lemma_cidr_line(a: IpAddress, n: u8)
    ensures
        cidr_of(cidr_line(a, n)) == Ok::<(IpAddress, u8), ValueErrorView>((a, n)),
        is_word(cidr_line(a, n)),
{
    let x = ip_line(a);
    let d = decimal_text(n as nat);
    lemma_ip_line(a);
    lemma_decimal_text(n as nat);
    lemma_decimal_text_read(n as nat, u8::MAX as nat);
    lemma_split_join(x, d, '/');
    assert(free_of(x, '/')) by {
        assert forall|i: int| 0 <= i < x.len() implies #[trigger] x[i] != '/' by {
            assert(is_hex(x[i]) || x[i] == '.' || x[i] == ':');
        }
    }
    lemma_split_whole(x, '/');
    lemma_split_whole(d, '/');
    assert(split(cidr_line(a, n), '/') == seq![x, d]);
    let s = cidr_line(a, n);
    assert forall|i: int| 0 <= i < s.len() implies !is_blank(#[trigger] s[i]) by {
        if i < x.len() {
            assert(s[i] == x[i]);
            assert(is_hex(x[i]) || x[i] == '.' || x[i] == ':');
        } else if i > x.len() {
            assert(s[i] == d[i - x.len() - 1]);
            assert(is_digit(d[i - x.len() - 1]));
        }
    }
}

/// An address that was written is read as that address, and it is written
/// as one word.
pub proof fn lemma_addr_line(a: IpAddress)
    ensures
        addr_of(ip_line(a)) == Ok::<IpAddress, ValueErrorView>(a),
        is_word(ip_line(a)),
{
    let x = ip_line(a);
    lemma_ip_line(a);
    assert forall|i: int| 0 <= i < x.len() implies !is_blank(#[trigger] x[i]) by {
        assert(is_hex(x[i]) || x[i] == '.' || x[i] == ':');
    }
}

/// A flag that was written is read as that flag, and it is written as one
/// word.
pub proof fn lemma_flag_line(b: bool)
    ensures
        flag_of(flag_line(b)) == Ok::<bool, ValueErrorView>(b),
        is_word(flag_line(b)),
{
    reveal_strlit("true");
    reveal_strlit("false");
    assert("true"@.len() != "false"@.len());
}

/// A number that was written is read as that number, and it is written as
/// one word.
pub proof fn lemma_number_line(n: u32)
    ensures
        number_of(decimal_text(n as nat)) == Ok::<u32, ValueErrorView>(n),
        is_word(decimal_text(n as nat)),
{
    let d = decimal_text(n as nat);
    lemma_decimal_text(n as nat);
    lemma_decimal_text_read(n as nat, u32::MAX as nat);
    assert forall|i: int| 0 <= i < d.len() implies !is_blank(#[trigger] d[i]) by {
        assert(is_digit(d[i]));
    }
}

/// The prefix of `n` bits of `a` as it is written in a definition.
pub fn cidr_to_line(a: &IpAddress, n: u8) -> (r: String)
    ensures
        r@ == cidr_line(*a, n),
{
    proof {
        reveal_strlit("/");
    }
    let mut out = String::new();
    a.write(&mut out);
    out.append("/");
    push_decimal(&mut out, n as u32);
    assert(out@ == ip_line(*a).push('/') + decimal_text(n as nat));
    out
}

/// The number `n` as it is written in a definition.
pub fn number_to_line(n: u32) -> (r: String)
    ensures
        r@ == decimal_text(n as nat),
{
    let mut out = String::new();
    push_decimal(&mut out, n);
    assert(Seq::<char>::empty() + decimal_text(n as nat) == decimal_text(n as nat));
    out
}

/// What is said of the fault `e`.
pub open spec fn value_error_text(e: ValueErrorView) -> Seq<char> {
    match e {
        ValueErrorView::InvalidCidr(v) => "invalid CIDR "@ + v + " (want exactly 1 /)"@,
        ValueErrorView::ParseAddr => "parse network address: invalid IP address syntax"@,
        ValueErrorView::ParseBool => "parse bool: provided string was not `true` or `false`"@,
        ValueErrorView::ParseInt(k) => "parse integer: "@ + int_error_text(k),
    }
}

impl ValueError {
    /// What is said of the fault.
    pub fn message(&self) -> (r: String)
        ensures
            r@ == value_error_text(self@),
    {
        match self {
            ValueError::InvalidCidr(v) => {
                let mut out = String::from_str("invalid CIDR ");
                out.append(v.as_str());
                out.append(" (want exactly 1 /)");
                out
            },
            ValueError::ParseAddr => String::from_str(
                "parse network address: invalid IP address syntax",
            ),
            ValueError::ParseBool => String::from_str(
                "parse bool: provided string was not `true` or `false`",
            ),
            ValueError::ParseInt(k) => {
                let mut out = String::from_str("parse integer: ");
                out.append(k.message());
                out
            },
        }
    }
}

} // verus!
