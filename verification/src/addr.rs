//! Network addresses of both families and how they are written.

use vstd::prelude::*;
use crate::number::{
    all_digits, decimal, decimal_text, digit_char, digit_text, is_digit, lemma_decimal_text,
    push_decimal,
};
use crate::text::{
    free_of, lemma_split_join, lemma_split_whole, split, split_fields, texts, to_chars,
};

verus! {

/// An IPv4 address: its four octets, the first one first.
#[derive(Clone, Copy, Debug, PartialEq, Eq)]
pub struct Ipv4Address {
    pub octets: [u8; 4],
}

/// An IPv6 address: its eight groups of 16 bits, the first one first.
#[derive(Clone, Copy, Debug, PartialEq, Eq)]
pub struct Ipv6Address {
    pub groups: [u16; 8],
}

/// An address of either family.
#[derive(Clone, Copy, Debug, PartialEq, Eq)]
pub enum IpAddress {
    V4(Ipv4Address),
    V6(Ipv6Address),
}

/// What `s` is as one octet of a dotted quad: one to three digits, no zero
/// in front of another digit, at most 255.
pub open spec fn octet_text(s: Seq<char>) -> Option<u8> {
    if 1 <= s.len() <= 3 && all_digits(s) && (s.len() == 1 || s[0] != '0') && decimal(s) <= 255 {
        Some(decimal(s) as u8)
    } else {
        None
    }
}

/// What `s` is as an IPv4 address: four octets between three dots.
pub open spec fn ipv4_text(s: Seq<char>) -> Option<Ipv4Address> {
    let f = split(s, '.');
    if f.len() == 4 && octet_text(f[0]) is Some && octet_text(f[1]) is Some && octet_text(
        f[2],
    ) is Some && octet_text(f[3]) is Some {
        Some(
            Ipv4Address {
                octets: [
                    octet_text(f[0])->0,
                    octet_text(f[1])->0,
                    octet_text(f[2])->0,
                    octet_text(f[3])->0,
                ],
            },
        )
    } else {
        None
    }
}

/// Whether `c` is a hexadecimal digit, of either case.
pub open spec fn is_hex(c: char) -> bool {
    is_digit(c) || 0x41 <= c as u32 <= 0x46 || 0x61 <= c as u32 <= 0x66
}

/// The number that the hexadecimal digit `c` stands for.
pub open spec fn hex_value(c: char) -> nat {
    if is_digit(c) {
        (c as u32 - 0x30) as nat
    } else if 0x41 <= c as u32 <= 0x46 {
        (c as u32 - 0x41 + 10) as nat
    } else if 0x61 <= c as u32 <= 0x66 {
        (c as u32 - 0x61 + 10) as nat
    } else {
        0
    }
}

/// Whether `s` holds hexadecimal digits only.
pub open spec fn all_hex(s: Seq<char>) -> bool {
    forall|i: int| 0 <= i < s.len() ==> is_hex(#[trigger] s[i])
}

/// The number that the hexadecimal digits `s` give, the first digit
/// counting most.
pub open spec fn hexadecimal(s: Seq<char>) -> nat
    decreases s.len(),
{
    if s.len() == 0 {
        0
    } else {
        hexadecimal(s.drop_last()) * 16 + hex_value(s.last())
    }
}

/// What `s` is as one group of an IPv6 address: one to four hexadecimal
/// digits.
pub open spec fn group_text(s: Seq<char>) -> Option<u16> {
    if 1 <= s.len() <= 4 && all_hex(s) {
        Some(hexadecimal(s) as u16)
    } else {
        None
    }
}

/// The first two and the last two octets of `a` as two groups.
pub open spec fn quad_groups(a: Ipv4Address) -> Seq<u16> {
    seq![
        (a.octets[0] * 256 + a.octets[1]) as u16,
        (a.octets[2] * 256 + a.octets[3]) as u16,
    ]
}

/// The groups that the fields `f` give, if every field is a group. Where
/// `quad` holds, the last field may be a dotted quad instead, which gives two
/// groups.
pub open spec fn list_groups(f: Seq<Seq<char>>, quad: bool) -> Option<Seq<u16>>
    decreases f.len(),
{
    if f.len() == 0 {
        Some(Seq::empty())
    } else {
        match list_groups(f.drop_last(), false) {
            None => None,
            Some(g) => match group_text(f.last()) {
                Some(v) => Some(g.push(v)),
                None => if quad && ipv4_text(f.last()) is Some {
                    Some(g + quad_groups(ipv4_text(f.last())->0))
                } else {
                    None
                },
            },
        }
    }
}

/// Where the first empty field of `f` stands; the length of `f` if none is
/// empty.
pub open spec fn first_empty(f: Seq<Seq<char>>) -> int
    decreases f.len(),
{
    if f.len() == 0 || f[0].len() == 0 {
        0
    } else {
        1 + first_empty(f.skip(1))
    }
}

/// The address with the eight groups `g`.
pub open spec fn ipv6_of(g: Seq<u16>) -> Ipv6Address {
    Ipv6Address { groups: [g[0], g[1], g[2], g[3], g[4], g[5], g[6], g[7]] }
}

/// What `s` is as an IPv6 address. Its fields between colons are groups,
/// and the last one may be a dotted quad. Written in full it has eight
/// groups. Written short, one `::` stands for the zero groups that are
/// missing, at least one: the empty field between its colons is the first
/// empty field, or the second where `s` starts with `::`; where `s` ends with
/// `::` nothing follows it.
pub open spec fn ipv6_text(s: Seq<char>) -> Option<Ipv6Address> {
    let f = split(s, ':');
    let gap = first_empty(f);
    if gap == f.len() {
        match list_groups(f, true) {
            Some(g) => if g.len() == 8 {
                Some(ipv6_of(g))
            } else {
                None
            },
            None => None,
        }
    } else {
        let mid = if gap == 0 {
            1
        } else {
            gap
        };
        if mid >= f.len() - 1 || f[mid].len() != 0 {
            None
        } else {
            let rest = f.skip(mid + 1);
            let tail = if rest.len() == 1 && rest[0].len() == 0 {
                Some(Seq::empty())
            } else {
                list_groups(rest, true)
            };
            match (list_groups(f.take(gap), false), tail) {
                (Some(h), Some(t)) => if h.len() + t.len() <= 7 {
                    Some(ipv6_of(h + Seq::new((8 - h.len() - t.len()) as nat, |i: int| 0u16) + t))
                } else {
                    None
                },
                _ => None,
            }
        }
    }
}

/// What `s` is as an address: a dotted quad, or else an IPv6 address.
pub open spec fn ip_text(s: Seq<char>) -> Option<IpAddress> {
    match ipv4_text(s) {
        Some(a) => Some(IpAddress::V4(a)),
        None => match ipv6_text(s) {
            Some(a) => Some(IpAddress::V6(a)),
            None => None,
        },
    }
}

/// `first_empty` is where the first empty field stands.
pub proof fn lemma_first_empty(f: Seq<Seq<char>>, k: int)
    requires
        0 <= k <= f.len(),
        forall|j: int| 0 <= j < k ==> (#[trigger] f[j]).len() > 0,
        k == f.len() || f[k].len() == 0,
    ensures
        first_empty(f) == k,
    decreases k,
{
    if k > 0 {
        assert(f[0].len() > 0);
        lemma_first_empty(f.skip(1), k - 1);
    }
}

/// Fields that are no groups make every longer list fail.
pub proof fn lemma_list_groups_fails(f: Seq<Seq<char>>, quad: bool, k: int)
    requires
        0 <= k <= f.len(),
        list_groups(f.take(k), false) is None,
        k < f.len() || !quad,
    ensures
        list_groups(f, quad) is None,
    decreases f.len() - k,
{
    if k == f.len() {
        assert(f.take(k) == f);
    } else if k + 1 == f.len() {
        assert(f.drop_last() == f.take(k));
    } else {
        assert(f.drop_last().take(k) == f.take(k));
        lemma_list_groups_fails(f.drop_last(), false, k);
    }
}

/// Reads `s` as one octet of a dotted quad.
fn parse_octet(s: &str) -> (r: Option<u8>)
    ensures
        r == octet_text(s@),
{
    let chars = to_chars(s);
    let n = chars.len();
    if n == 0 || n > 3 {
        return None;
    }
    if n > 1 && chars[0] == '0' {
        return None;
    }
    let mut acc: u32 = 0;
    let mut i: usize = 0;
    assert(chars@.take(0) == Seq::<char>::empty());
    while i < n
        invariant
            i <= n <= 3,
            n == chars.len(),
            chars@ == s@,
            forall|j: int| 0 <= j < i ==> is_digit(#[trigger] chars@[j]),
            acc == decimal(chars@.take(i as int)),
            i == 0 ==> acc == 0,
            i <= 1 ==> acc <= 9,
            i <= 2 ==> acc <= 99,
            acc <= 999,
        decreases n - i,
    {
        let code: u32 = chars[i] as u32;
        if code < 0x30 || code > 0x39 {
            assert(!is_digit(chars@[i as int]));
            return None;
        }
        proof {
            assert(chars@.take(i + 1).drop_last() == chars@.take(i as int));
        }
        acc = acc * 10 + (code - 0x30);
        i += 1;
    }
    assert(chars@.take(n as int) == chars@);
    if acc > 255 {
        None
    } else {
        Some(acc as u8)
    }
}

/// Reads `s` as one group of an IPv6 address.
fn parse_group(s: &str) -> (r: Option<u16>)
    ensures
        r == group_text(s@),
{
    let chars = to_chars(s);
    let n = chars.len();
    if n == 0 || n > 4 {
        return None;
    }
    let mut acc: u32 = 0;
    let mut i: usize = 0;
    assert(chars@.take(0) == Seq::<char>::empty());
    while i < n
        invariant
            i <= n <= 4,
            n == chars.len(),
            chars@ == s@,
            forall|j: int| 0 <= j < i ==> is_hex(#[trigger] chars@[j]),
            acc == hexadecimal(chars@.take(i as int)),
            i == 0 ==> acc == 0,
            i <= 1 ==> acc <= 0xf,
            i <= 2 ==> acc <= 0xff,
            i <= 3 ==> acc <= 0xfff,
            acc <= 0xffff,
        decreases n - i,
    {
        let code: u32 = chars[i] as u32;
        let digit: u32 = if 0x30 <= code && code <= 0x39 {
            code - 0x30
        } else if 0x41 <= code && code <= 0x46 {
            code - 0x41 + 10
        } else if 0x61 <= code && code <= 0x66 {
            code - 0x61 + 10
        } else {
            assert(!is_hex(chars@[i as int]));
            return None;
        };
        proof {
            assert(chars@.take(i + 1).drop_last() == chars@.take(i as int));
        }
        acc = acc * 16 + digit;
        i += 1;
    }
    assert(chars@.take(n as int) == chars@);
    Some(acc as u16)
}

impl Ipv4Address {
    /// The address `a.b.c.d`.
    pub fn new(a: u8, b: u8, c: u8, d: u8) -> (r: Ipv4Address)
        ensures
            r == (Ipv4Address { octets: [a, b, c, d] }),
    {
        Ipv4Address { octets: [a, b, c, d] }
    }

    /// Reads `s` as an IPv4 address.
    pub fn parse(s: &str) -> (r: Option<Ipv4Address>)
        ensures
            r == ipv4_text(s@),
    {
        let f = split_fields(s, '.');
        if f.len() != 4 {
            return None;
        }
        assert(texts(f@)[0] == f@[0]@ && texts(f@)[1] == f@[1]@ && texts(f@)[2] == f@[2]@ && texts(
            f@,
        )[3] == f@[3]@);
        let a = match parse_octet(f[0].as_str()) {
            Some(v) => v,
            None => return None,
        };
        let b = match parse_octet(f[1].as_str()) {
            Some(v) => v,
            None => return None,
        };
        let c = match parse_octet(f[2].as_str()) {
            Some(v) => v,
            None => return None,
        };
        let d = match parse_octet(f[3].as_str()) {
            Some(v) => v,
            None => return None,
        };
        Some(Ipv4Address { octets: [a, b, c, d] })
    }
}

/// Reads the fields of `f` from `from` up to `to` as groups; with `quad`
/// the last of them may be a dotted quad.
fn read_groups(f: &Vec<String>, from: usize, to: usize, quad: bool) -> (r: Option<Vec<u16>>)
    requires
        from <= to <= f.len(),
    ensures
        match r {
            Some(g) => list_groups(texts(f@).subrange(from as int, to as int), quad) == Some(g@),
            None => list_groups(texts(f@).subrange(from as int, to as int), quad) is None,
        },
{
    let ghost fields = texts(f@).subrange(from as int, to as int);
    let mut groups: Vec<u16> = Vec::new();
    let mut i: usize = from;
    assert(fields.take(0) == Seq::<Seq<char>>::empty());
    while i < to
        invariant
            from <= i <= to <= f.len(),
            fields == texts(f@).subrange(from as int, to as int),
            list_groups(fields.take(i - from), false) == Some(groups@),
        decreases to - i,
    {
        let field = f[i].as_str();
        proof {
            assert(fields.take(i - from + 1).drop_last() == fields.take(i - from));
            assert(fields.take(i - from + 1).last() == field@);
            if i + 1 == to {
                assert(fields.take(i - from + 1) == fields);
            }
        }
        match parse_group(field) {
            Some(v) => {
                groups.push(v);
            },
            None => {
                if quad && i + 1 == to {
                    match Ipv4Address::parse(field) {
                        Some(a) => {
                            let high: u16 = (a.octets[0] as u16) * 256 + (a.octets[1] as u16);
                            let low: u16 = (a.octets[2] as u16) * 256 + (a.octets[3] as u16);
                            let ghost before = groups@;
                            groups.push(high);
                            groups.push(low);
                            assert(groups@ == before + quad_groups(a));
                            return Some(groups);
                        },
                        None => {
                            return None;
                        },
                    }
                } else {
                    proof {
                        lemma_list_groups_fails(fields, quad, i - from + 1);
                    }
                    return None;
                }
            },
        }
        i += 1;
    }
    proof {
        assert(fields.take(to - from) == fields);
        if to > from {
            assert(fields.drop_last() == fields.take(to - from - 1));
        }
    }
    Some(groups)
}

impl Ipv6Address {
    /// The address with the groups `g`.
    pub fn new(g: [u16; 8]) -> (r: Ipv6Address)
        ensures
            r == (Ipv6Address { groups: g }),
    {
        Ipv6Address { groups: g }
    }

    /// Reads `s` as an IPv6 address.
    pub fn parse(s: &str) -> (r: Option<Ipv6Address>)
        ensures
            r == ipv6_text(s@),
    {
        let f = split_fields(s, ':');
        let n = f.len();
        let ghost fields = texts(f@);
        let mut gap: usize = 0;
        while gap < n && f[gap].as_str().unicode_len() != 0
            invariant
                gap <= n,
                n == f.len(),
                fields == texts(f@),
                forall|j: int| 0 <= j < gap ==> (#[trigger] fields[j]).len() > 0,
            decreases n - gap,
        {
            gap += 1;
        }
        proof {
            lemma_first_empty(fields, gap as int);
            assert(fields.subrange(0, n as int) == fields);
            assert(fields.subrange(0, gap as int) == fields.take(gap as int));
        }
        if gap == n {
            match read_groups(&f, 0, n, true) {
                Some(g) => {
                    if g.len() == 8 {
                        Some(
                            Ipv6Address {
                                groups: [g[0], g[1], g[2], g[3], g[4], g[5], g[6], g[7]],
                            },
                        )
                    } else {
                        None
                    }
                },
                None => None,
            }
        } else {
            let mid: usize = if gap == 0 {
                1
            } else {
                gap
            };
            if mid >= n - 1 || f[mid].as_str().unicode_len() != 0 {
                return None;
            }
            proof {
                assert(fields.subrange(mid + 1, n as int) == fields.skip(mid + 1));
            }
            let head = match read_groups(&f, 0, gap, false) {
                Some(g) => g,
                None => return None,
            };
            let tail = if mid + 2 == n && f[n - 1].as_str().unicode_len() == 0 {
                Vec::new()
            } else {
                match read_groups(&f, mid + 1, n, true) {
                    Some(g) => g,
                    None => return None,
                }
            };
            if head.len() > 7 || tail.len() > 7 - head.len() {
                return None;
            }
            let zeros: usize = 8 - head.len() - tail.len();
            let ghost want = head@ + Seq::new(zeros as nat, |i: int| 0u16) + tail@;
            let mut g: Vec<u16> = Vec::new();
            let mut i: usize = 0;
            while i < 8
                invariant
                    i <= 8,
                    g.len() == i,
                    zeros == 8 - head.len() - tail.len(),
                    head.len() + tail.len() <= 7,
                    want == head@ + Seq::new(zeros as nat, |i: int| 0u16) + tail@,
                    forall|j: int| 0 <= j < i ==> g@[j] == want[j],
                decreases 8 - i,
            {
                let v: u16 = if i < head.len() {
                    head[i]
                } else if i < head.len() + zeros {
                    0
                } else {
                    tail[i - head.len() - zeros]
                };
                g.push(v);
                i += 1;
            }
            assert(g@ == want);
            Some(Ipv6Address { groups: [g[0], g[1], g[2], g[3], g[4], g[5], g[6], g[7]] })
        }
    }
}

impl IpAddress {
    /// Reads `s` as an address of either family.
    pub fn parse(s: &str) -> (r: Option<IpAddress>)
        ensures
            r == ip_text(s@),
    {
        match Ipv4Address::parse(s) {
            Some(a) => Some(IpAddress::V4(a)),
            None => match Ipv6Address::parse(s) {
                Some(a) => Some(IpAddress::V6(a)),
                None => None,
            },
        }
    }
}

/// `n` written in hexadecimal digits of lower case, with no zero in
/// front.
pub open spec fn hex_text(n: nat) -> Seq<char>
    decreases n,
{
    if n < 16 {
        seq![digit_char(n)]
    } else {
        hex_text(n / 16).push(digit_char(n % 16))
    }
}

/// The address `a` as a dotted quad.
pub open spec fn ipv4_line(a: Ipv4Address) -> Seq<char> {
    ((decimal_text(a.octets[0] as nat).push('.') + decimal_text(a.octets[1] as nat)).push('.')
        + decimal_text(a.octets[2] as nat)).push('.') + decimal_text(a.octets[3] as nat)
}

/// The groups `g` in hexadecimal digits, with a colon between each two.
pub open spec fn groups_line(g: Seq<u16>) -> Seq<char>
    decreases g.len(),
{
    if g.len() == 0 {
        Seq::empty()
    } else if g.len() == 1 {
        hex_text(g[0] as nat)
    } else {
        groups_line(g.drop_last()).push(':') + hex_text(g.last() as nat)
    }
}

/// The address `a` in full: its eight groups.
pub open spec fn ipv6_line(a: Ipv6Address) -> Seq<char> {
    groups_line(a.groups@)
}

/// The address `a` as it is written in a definition.
pub open spec fn ip_line(a: IpAddress) -> Seq<char> {
    match a {
        IpAddress::V4(x) => ipv4_line(x),
        IpAddress::V6(x) => ipv6_line(x),
    }
}

/// Whether `s` holds nothing but what addresses and numbers are written
/// with: hexadecimal digits, dots and colons.
pub open spec fn address_chars(s: Seq<char>) -> bool {
    forall|i: int| 0 <= i < s.len() ==> is_hex(#[trigger] s[i]) || s[i] == '.' || s[i] == ':'
}

/// What is written for a group is read as that group.
pub proof fn lemma_hex_text(n: nat)
    ensures
        hex_text(n).len() >= 1,
        all_hex(hex_text(n)),
        hexadecimal(hex_text(n)) == n,
        n < 0x10 ==> hex_text(n).len() == 1,
        n < 0x100 ==> hex_text(n).len() <= 2,
        n < 0x1000 ==> hex_text(n).len() <= 3,
        n < 0x10000 ==> hex_text(n).len() <= 4,
    decreases n,
{
    if n < 16 {
        assert(hex_text(n).drop_last() == Seq::<char>::empty());
        assert(hexadecimal(Seq::<char>::empty()) == 0);
        assert(hex_value(digit_char(n)) == n);
    } else {
        lemma_hex_text(n / 16);
        let t = hex_text(n);
        assert(t.drop_last() == hex_text(n / 16));
        assert(hex_value(t.last()) == n % 16);
        assert forall|i: int| 0 <= i < t.len() implies is_hex(#[trigger] t[i]) by {
            if i < t.len() - 1 {
                assert(t[i] == hex_text(n / 16)[i]);
            }
        }
    }
}

/// A dotted quad that was written for an address is read as that address.
pub proof fn lemma_ipv4_line(a: Ipv4Address)
    ensures
        ipv4_text(ipv4_line(a)) == Some(a),
        address_chars(ipv4_line(a)),
        ipv4_line(a).len() > 0,
{
    let d0 = decimal_text(a.octets[0] as nat);
    let d1 = decimal_text(a.octets[1] as nat);
    let d2 = decimal_text(a.octets[2] as nat);
    let d3 = decimal_text(a.octets[3] as nat);
    lemma_decimal_text(a.octets[0] as nat);
    lemma_decimal_text(a.octets[1] as nat);
    lemma_decimal_text(a.octets[2] as nat);
    lemma_decimal_text(a.octets[3] as nat);
    let x1 = d0.push('.') + d1;
    let x2 = x1.push('.') + d2;
    lemma_split_join(x2, d3, '.');
    lemma_split_join(x1, d2, '.');
    lemma_split_join(d0, d1, '.');
    lemma_split_whole(d0, '.');
    lemma_split_whole(d1, '.');
    lemma_split_whole(d2, '.');
    lemma_split_whole(d3, '.');
    let f = split(ipv4_line(a), '.');
    assert(f == seq![d0, d1, d2, d3]);
    assert(octet_text(d0) == Some(a.octets[0]));
    assert(octet_text(d1) == Some(a.octets[1]));
    assert(octet_text(d2) == Some(a.octets[2]));
    assert(octet_text(d3) == Some(a.octets[3]));
    let back = Ipv4Address { octets: [a.octets[0], a.octets[1], a.octets[2], a.octets[3]] };
    assert(back.octets@ == a.octets@);
    assert(back.octets == a.octets);
}

/// The fields of groups that were written are what was written for each
/// group, and they are read as these groups.
pub proof fn lemma_groups_line(g: Seq<u16>)
    requires
        g.len() >= 1,
    ensures
        split(groups_line(g), ':') == Seq::new(g.len(), |i: int| hex_text(g[i] as nat)),
        list_groups(split(groups_line(g), ':'), false) == Some(g),
        list_groups(split(groups_line(g), ':'), true) == Some(g),
        first_empty(split(groups_line(g), ':')) == g.len(),
        address_chars(groups_line(g)),
        free_of(groups_line(g), '.'),
        groups_line(g).len() > 0,
    decreases g.len(),
{
    let f = Seq::new(g.len(), |i: int| hex_text(g[i] as nat));
    let h = hex_text(g.last() as nat);
    lemma_hex_text(g.last() as nat);
    lemma_split_whole(h, ':');
    assert(group_text(h) == Some(g.last()));
    if g.len() == 1 {
        assert(f == seq![h]);
        assert(split(groups_line(g), ':') == f);
        assert(f.drop_last() == Seq::<Seq<char>>::empty());
        assert(f.last() == h);
        assert(list_groups(Seq::<Seq<char>>::empty(), false) == Some(Seq::<u16>::empty()));
        assert(Seq::<u16>::empty().push(g.last()) == g);
        assert(list_groups(f, false) == Some(g));
        assert(list_groups(f, true) == Some(g));
        lemma_first_empty(f, 1);
    } else {
        let before = g.drop_last();
        lemma_groups_line(before);
        lemma_split_join(groups_line(before), h, ':');
        let fb = Seq::new(before.len(), |i: int| hex_text(before[i] as nat));
        assert(fb + seq![h] == f);
        assert(f.drop_last() == fb);
        assert(f.last() == h);
        assert(before.push(g.last()) == g);
        assert(split(groups_line(g), ':') == f);
        assert(list_groups(fb, false) == Some(before));
        assert(list_groups(f, false) == Some(g));
        assert(list_groups(f, true) == Some(g));
        assert forall|j: int| 0 <= j < f.len() implies (#[trigger] f[j]).len() > 0 by {
            lemma_hex_text(g[j] as nat);
        }
        lemma_first_empty(f, f.len() as int);
    }
}

/// An IPv6 address that was written in full is read as that address.
pub proof fn lemma_ipv6_line(a: Ipv6Address)
    ensures
        ipv6_text(ipv6_line(a)) == Some(a),
        ipv4_text(ipv6_line(a)) is None,
        address_chars(ipv6_line(a)),
        ipv6_line(a).len() > 0,
{
    let g = a.groups@;
    lemma_groups_line(g);
    lemma_split_whole(ipv6_line(a), '.');
    let back = ipv6_of(g);
    assert(back.groups@ == a.groups@);
    assert(back.groups == a.groups);
}

/// An address that was written is read as that address, and it is written
/// as one word without a `/`.
pub proof fn lemma_ip_line(a: IpAddress)
    ensures
        ip_text(ip_line(a)) == Some(a),
        address_chars(ip_line(a)),
        ip_line(a).len() > 0,
{
    match a {
        IpAddress::V4(x) => {
            lemma_ipv4_line(x);
        },
        IpAddress::V6(x) => {
            lemma_ipv6_line(x);
        },
    }
}

/// Writes `n` in hexadecimal digits behind what `out` holds.
fn push_hex(out: &mut String, n: u16)
    ensures
        final(out)@ == old(out)@ + hex_text(n as nat),
    decreases n,
{
    if n >= 16 {
        push_hex(out, n / 16);
    }
    out.append(digit_text((n % 16) as u8));
    proof {
        if n >= 16 {
            assert(old(out)@ + hex_text(n as nat / 16) + seq![digit_char(n as nat % 16)] == old(
                out,
            )@ + hex_text(n as nat));
        }
    }
}

impl Ipv4Address {
    /// Writes the address as a dotted quad behind what `out` holds.
    pub fn write(&self, out: &mut String)
        ensures
            final(out)@ == old(out)@ + ipv4_line(*self),
    {
        proof {
            reveal_strlit(".");
        }
        let ghost start = out@;
        let ghost d0 = decimal_text(self.octets[0] as nat);
        let ghost d1 = decimal_text(self.octets[1] as nat);
        let ghost d2 = decimal_text(self.octets[2] as nat);
        let ghost d3 = decimal_text(self.octets[3] as nat);
        push_decimal(out, self.octets[0] as u32);
        out.append(".");
        push_decimal(out, self.octets[1] as u32);
        out.append(".");
        push_decimal(out, self.octets[2] as u32);
        out.append(".");
        push_decimal(out, self.octets[3] as u32);
        proof {
            assert("."@ == seq!['.']);
            assert(out@ == start + d0 + seq!['.'] + d1 + seq!['.'] + d2 + seq!['.'] + d3);
            assert(out@ == start + (((d0.push('.') + d1).push('.') + d2).push('.') + d3));
        }
    }
}

impl Ipv6Address {
    /// Writes the address in full behind what `out` holds.
    pub fn write(&self, out: &mut String)
        ensures
            final(out)@ == old(out)@ + ipv6_line(*self),
    {
        proof {
            reveal_strlit(":");
        }
        let ghost start = out@;
        let ghost g = self.groups@;
        push_hex(out, self.groups[0]);
        assert(g.take(1) == seq![g[0]]);
        let mut i: usize = 1;
        while i < 8
            invariant
                1 <= i <= 8,
                g == self.groups@,
                g.len() == 8,
                out@ == start + groups_line(g.take(i as int)),
            decreases 8 - i,
        {
            let ghost before = out@;
            out.append(":");
            push_hex(out, self.groups[i]);
            proof {
                reveal_strlit(":");
                assert(":"@ == seq![':']);
                let now = g.take(i + 1);
                assert(now.drop_last() == g.take(i as int));
                assert(now.last() == g[i as int]);
                assert(out@ == start + (groups_line(g.take(i as int)).push(':') + hex_text(
                    g[i as int] as nat,
                )));
            }
            i += 1;
        }
        assert(g.take(8) == g);
    }
}

impl IpAddress {
    /// Writes the address behind what `out` holds.
    pub fn write(&self, out: &mut String)
        ensures
            final(out)@ == old(out)@ + ip_line(*self),
    {
        match self {
            IpAddress::V4(a) => a.write(out),
            IpAddress::V6(a) => a.write(out),
        }
    }

    /// The address as it is written in a definition.
    pub fn to_line(&self) -> (r: String)
        ensures
            r@ == ip_line(*self),
    {
        let mut out = String::new();
        self.write(&mut out);
        assert(Seq::<char>::empty() + ip_line(*self) == ip_line(*self));
        out
    }
}

} // verus!
