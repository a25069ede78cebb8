//! The words of one definition line: which kind of entry it is, whether it
//! adds or removes, and its attributes.

use vstd::prelude::*;
use crate::text::{
    is_word, join, lemma_words_content, lemma_words_join, same_text, split_words, texts, words,
};

verus! {

/// One attribute of a definition: a key and the word behind it.
#[derive(Clone, Debug, PartialEq, Eq)]
pub struct Attr {
    pub key: String,
    pub value: String,
}

/// What an `Attr` holds.
pub struct AttrView {
    pub key: Seq<char>,
    pub value: Seq<char>,
}

impl View for Attr {
    type V = AttrView;

    open spec fn view(&self) -> AttrView {
        AttrView { key: self.key@, value: self.value@ }
    }
}

/// A definition line taken apart.
#[derive(Clone, Debug, PartialEq, Eq)]
pub struct Tokens {
    /// The first word, which names the kind of entry.
    pub version: String,
    /// Whether the entry is only to be removed (`del`), not set up (`add`).
    pub delete: bool,
    /// The attributes in the order of the line, no key twice.
    pub attrs: Vec<Attr>,
}

/// What a `Tokens` holds.
pub struct TokensView {
    pub version: Seq<char>,
    pub delete: bool,
    pub attrs: Seq<AttrView>,
}

impl View for Tokens {
    type V = TokensView;

    open spec fn view(&self) -> TokensView {
        TokensView { version: self.version@, delete: self.delete, attrs: attr_views(self.attrs@) }
    }
}

/// Why a line cannot be taken apart.
#[derive(Clone, Debug, PartialEq, Eq)]
pub enum TokenError {
    /// The line has no word.
    NoVersion,
    /// The line has one word only.
    NoCmd,
    /// The second word is neither `add` nor `del`.
    InvalidCmd(String),
    /// The key that ends the line has no value behind it.
    NoAttrValue(String),
    /// The key stands in the line a second time.
    DuplicateAttr(String),
}

/// What a `TokenError` holds.
pub enum TokenErrorView {
    NoVersion,
    NoCmd,
    InvalidCmd(Seq<char>),
    NoAttrValue(Seq<char>),
    DuplicateAttr(Seq<char>),
}

impl View for TokenError {
    type V = TokenErrorView;

    open spec fn view(&self) -> TokenErrorView {
        match self {
            TokenError::NoVersion => TokenErrorView::NoVersion,
            TokenError::NoCmd => TokenErrorView::NoCmd,
            TokenError::InvalidCmd(w) => TokenErrorView::InvalidCmd(w@),
            TokenError::NoAttrValue(w) => TokenErrorView::NoAttrValue(w@),
            TokenError::DuplicateAttr(w) => TokenErrorView::DuplicateAttr(w@),
        }
    }
}

/// What each attribute of `v` holds.
pub open spec fn attr_views(v: Seq<Attr>) -> Seq<AttrView> {
    Seq::new(v.len(), |i: int| v[i]@)
}

/// What a command word asks for: `add` sets up, `del` only removes.
pub open spec fn command(w: Seq<char>) -> Option<bool> {
    if w == "add"@ {
        Some(false)
    } else if w == "del"@ {
        Some(true)
    } else {
        None
    }
}

/// The value that `attrs` has for `key`, if any.
pub open spec fn lookup(attrs: Seq<AttrView>, key: Seq<char>) -> Option<Seq<char>>
    decreases attrs.len(),
{
    if attrs.len() == 0 {
        None
    } else if attrs.last().key == key {
        Some(attrs.last().value)
    } else {
        lookup(attrs.drop_last(), key)
    }
}

/// Whether no key stands twice in `attrs`.
pub open spec fn distinct_keys(attrs: Seq<AttrView>) -> bool {
    forall|i: int, j: int| 0 <= i < j < attrs.len() ==> attrs[i].key != attrs[j].key
}

/// The attributes that the words `ws` give, taken in pairs of a key and a
/// value from the left. The first key that was there before is an error;
/// without such a key, a last word without a partner is one.
pub open spec fn attrs_of(ws: Seq<Seq<char>>) -> Result<Seq<AttrView>, TokenErrorView>
    decreases ws.len(),
{
    if ws.len() == 0 {
        Ok(Seq::empty())
    } else if ws.len() % 2 == 1 {
        match attrs_of(ws.drop_last()) {
            Ok(_) => Err(TokenErrorView::NoAttrValue(ws.last())),
            Err(e) => Err(e),
        }
    } else {
        let key = ws[ws.len() - 2];
        match attrs_of(ws.take(ws.len() - 2)) {
            Ok(attrs) => if lookup(attrs, key) is Some {
                Err(TokenErrorView::DuplicateAttr(key))
            } else {
                Ok(attrs.push(AttrView { key, value: ws.last() }))
            },
            Err(e) => Err(e),
        }
    }
}

/// What the line `line` holds: its first word, what its second word asks
/// for, and the attributes that the other words give.
pub open spec fn tokens_of(line: Seq<char>) -> Result<TokensView, TokenErrorView> {
    let ws = words(line);
    if ws.len() == 0 {
        Err(TokenErrorView::NoVersion)
    } else if ws.len() == 1 {
        Err(TokenErrorView::NoCmd)
    } else {
        match command(ws[1]) {
            None => Err(TokenErrorView::InvalidCmd(ws[1])),
            Some(delete) => match attrs_of(ws.skip(2)) {
                Ok(attrs) => Ok(TokensView { version: ws[0], delete, attrs }),
                Err(e) => Err(e),
            },
        }
    }
}

/// A key is found exactly where it stands.
pub proof fn lemma_lookup(attrs: Seq<AttrView>, key: Seq<char>)
    ensures
        lookup(attrs, key) is Some <==> exists|i: int|
            0 <= i < attrs.len() && (#[trigger] attrs[i]).key == key,
        distinct_keys(attrs) ==> forall|i: int|
            0 <= i < attrs.len() && (#[trigger] attrs[i]).key == key ==> lookup(attrs, key) == Some(
                attrs[i].value,
            ),
    decreases attrs.len(),
{
    if attrs.len() > 0 {
        let before = attrs.drop_last();
        lemma_lookup(before, key);
        if attrs.last().key == key {
            assert(attrs[attrs.len() - 1].key == key);
        } else {
            if lookup(before, key) is Some {
                let i = choose|i: int| 0 <= i < before.len() && (#[trigger] before[i]).key == key;
                assert(attrs[i].key == key);
            }
            if exists|i: int| 0 <= i < attrs.len() && (#[trigger] attrs[i]).key == key {
                let i = choose|i: int| 0 <= i < attrs.len() && (#[trigger] attrs[i]).key == key;
                assert(before[i].key == key);
            }
        }
        if distinct_keys(attrs) {
            assert(distinct_keys(before)) by {
                assert forall|i: int, j: int| 0 <= i < j < before.len() implies before[i].key
                    != before[j].key by {
                    assert(attrs[i].key != attrs[j].key);
                }
            }
            assert forall|i: int|
                0 <= i < attrs.len() && (#[trigger] attrs[i]).key == key implies lookup(attrs, key)
                == Some(attrs[i].value) by {
                if i < attrs.len() - 1 {
                    assert(before[i].key == key);
                    assert(attrs[i].key != attrs[attrs.len() - 1].key);
                }
            }
        }
    }
}

/// An error among the first words is the error of the whole line.
pub proof fn lemma_attrs_of_fails(ws: Seq<Seq<char>>, k: int)
    requires
        0 <= k <= ws.len(),
        k % 2 == 0,
        attrs_of(ws.take(k)) is Err,
    ensures
        attrs_of(ws) == attrs_of(ws.take(k)),
    decreases ws.len() - k,
{
    if k == ws.len() {
        assert(ws.take(k) == ws);
    } else if ws.len() % 2 == 1 {
        assert(ws.drop_last().take(k) == ws.take(k));
        lemma_attrs_of_fails(ws.drop_last(), k);
    } else {
        assert(ws.take(ws.len() - 2).take(k) == ws.take(k));
        lemma_attrs_of_fails(ws.take(ws.len() - 2), k);
    }
}

/// The word of `ws` that stands where the key of pair `i` stands.
pub open spec fn key_at(ws: Seq<Seq<char>>, i: int) -> Seq<char> {
    ws[2 * i]
}

/// The word of `ws` that stands where the value of pair `i` stands.
pub open spec fn value_at(ws: Seq<Seq<char>>, i: int) -> Seq<char> {
    ws[2 * i + 1]
}

/// Whether the words `ws` pair up, with no key twice.
pub open spec fn pairs_up(ws: Seq<Seq<char>>) -> bool {
    &&& ws.len() % 2 == 0
    &&& forall|i: int, j: int|
        0 <= i < j && 2 * j < ws.len() ==> key_at(ws, i) != key_at(ws, j)
}

/// The attributes of a line are the pairs of its words, in order, with no
/// key twice; and they are there exactly when the words pair up and no key
/// stands twice.
pub proof fn lemma_attrs_of_ok(ws: Seq<Seq<char>>)
    ensures
        attrs_of(ws) matches Ok(attrs) ==> {
            &&& ws.len() == 2 * attrs.len()
            &&& distinct_keys(attrs)
            &&& forall|i: int|
                0 <= i < attrs.len() ==> (#[trigger] attrs[i]).key == key_at(ws, i)
                    && attrs[i].value == value_at(ws, i)
        },
        attrs_of(ws) is Ok <==> pairs_up(ws),
    decreases ws.len(),
{
    if ws.len() == 0 {
    } else if ws.len() % 2 == 1 {
    } else {
        let n = ws.len() as int;
        let before = ws.take(n - 2);
        let key = ws[n - 2];
        lemma_attrs_of_ok(before);
        assert forall|i: int| 0 <= 2 * i < before.len() implies key_at(before, i) == key_at(ws, i)
            && value_at(before, i) == value_at(ws, i) by {}
        match attrs_of(before) {
            Ok(attrs) => {
                lemma_lookup(attrs, key);
                if lookup(attrs, key) is Some {
                    let i = choose|i: int| 0 <= i < attrs.len() && (#[trigger] attrs[i]).key == key;
                    assert(key_at(ws, i) == key_at(before, i));
                    assert(key_at(ws, i) == key_at(ws, (n - 2) / 2));
                    assert(!pairs_up(ws));
                } else {
                    let now = attrs.push(AttrView { key, value: ws.last() });
                    assert forall|i: int| 0 <= i < now.len() implies (#[trigger] now[i]).key
                        == key_at(ws, i) && now[i].value == value_at(ws, i) by {
                        if i < attrs.len() {
                            assert(now[i] == attrs[i]);
                            assert(key_at(before, i) == key_at(ws, i));
                        }
                    }
                    assert forall|i: int, j: int| 0 <= i < j < now.len() implies now[i].key
                        != now[j].key by {
                        assert(now[i] == attrs[i]);
                        if j < attrs.len() {
                            assert(now[j] == attrs[j]);
                        }
                    }
                    assert forall|i: int, j: int| 0 <= i < j && 2 * j < ws.len() implies key_at(
                        ws,
                        i,
                    ) != key_at(ws, j) by {
                        assert(key_at(before, i) == key_at(ws, i));
                        if 2 * j < before.len() {
                            assert(key_at(before, j) == key_at(ws, j));
                        } else {
                            assert(attrs[i].key == key_at(before, i));
                        }
                    }
                }
            },
            Err(_) => {
                if pairs_up(ws) {
                    assert forall|i: int, j: int| 0 <= i < j && 2 * j < before.len() implies key_at(
                        before,
                        i,
                    ) != key_at(before, j) by {
                        assert(key_at(ws, i) != key_at(ws, j));
                    }
                }
            },
        }
    }
}

/// What a line holds was written as words.
pub proof fn lemma_tokens_of_words(line: Seq<char>)
    ensures
        tokens_of(line) matches Ok(t) ==> writable(t),
{
    let ws = words(line);
    lemma_words_content(line);
    if tokens_of(line) is Ok {
        let t = tokens_of(line)->Ok_0;
        let rest = ws.skip(2);
        lemma_attrs_of_ok(rest);
        assert(is_word(ws[0]));
        assert forall|i: int| 0 <= i < t.attrs.len() implies is_word((#[trigger] t.attrs[i]).key)
            && is_word(t.attrs[i].value) by {
            assert(key_at(rest, i) == ws[2 * i + 2]);
            assert(value_at(rest, i) == ws[2 * i + 3]);
            assert(is_word(ws[2 * i + 2]));
            assert(is_word(ws[2 * i + 3]));
        }
    }
}

/// The value that `attrs` has for `key`, if any.
pub fn find<'a>(attrs: &'a Vec<Attr>, key: &str) -> (r: Option<&'a String>)
    ensures
        match r {
            Some(v) => lookup(attr_views(attrs@), key@) == Some(v@),
            None => lookup(attr_views(attrs@), key@) is None,
        },
{
    let mut i: usize = attrs.len();
    let ghost all = attr_views(attrs@);
    assert(all.take(i as int) == all);
    while i > 0
        invariant
            i <= attrs.len(),
            all == attr_views(attrs@),
            lookup(all, key@) == lookup(all.take(i as int), key@),
        decreases i,
    {
        i -= 1;
        proof {
            assert(all.take(i + 1).drop_last() == all.take(i as int));
            assert(all.take(i + 1).last() == attrs@[i as int]@);
        }
        if same_text(attrs[i].key.as_str(), key) {
            return Some(&attrs[i].value);
        }
    }
    None
}

/// Takes the line `line` apart.
pub fn tokenize(line: &str) -> (r: Result<Tokens, TokenError>)
    ensures
        match r {
            Ok(t) => tokens_of(line@) == Ok::<TokensView, TokenErrorView>(t@),
            Err(e) => tokens_of(line@) == Err::<TokensView, TokenErrorView>(e@),
        },
        r matches Ok(t) ==> writable(t@),
{
    proof {
        lemma_tokens_of_words(line@);
    }
    let ws = split_words(line);
    let n = ws.len();
    let ghost all = texts(ws@);
    if n == 0 {
        return Err(TokenError::NoVersion);
    }
    if n == 1 {
        return Err(TokenError::NoCmd);
    }
    assert(all[0] == ws@[0]@ && all[1] == ws@[1]@);
    let delete = if same_text(ws[1].as_str(), "add") {
        false
    } else if same_text(ws[1].as_str(), "del") {
        true
    } else {
        return Err(TokenError::InvalidCmd(ws[1].clone()));
    };
    let ghost rest = all.skip(2);
    let mut attrs: Vec<Attr> = Vec::new();
    let mut i: usize = 2;
    assert(rest.take(0) == Seq::<Seq<char>>::empty());
    assert(attr_views(attrs@) == Seq::<AttrView>::empty());
    while i < n
        invariant
            2 <= i <= n,
            i % 2 == 0,
            n == ws.len(),
            all == texts(ws@),
            all == words(line@),
            command(all[1]) == Some(delete),
            rest == all.skip(2),
            attrs_of(rest.take(i - 2)) == Ok::<Seq<AttrView>, TokenErrorView>(attr_views(attrs@)),
        decreases n - i,
    {
        assert(all[i as int] == ws@[i as int]@);
        if i + 1 == n {
            proof {
                assert(rest.drop_last() == rest.take(i - 2));
                assert(rest.last() == ws@[i as int]@);
            }
            return Err(TokenError::NoAttrValue(ws[i].clone()));
        }
        assert(all[i + 1] == ws@[i + 1]@);
        proof {
            let upto = rest.take(i - 2 + 2);
            assert(upto.take(upto.len() - 2) == rest.take(i - 2));
            assert(upto[upto.len() - 2] == ws@[i as int]@);
            assert(upto.last() == ws@[i + 1]@);
        }
        if find(&attrs, ws[i].as_str()).is_some() {
            proof {
                lemma_attrs_of_fails(rest, i - 2 + 2);
            }
            return Err(TokenError::DuplicateAttr(ws[i].clone()));
        }
        let attr = Attr { key: ws[i].clone(), value: ws[i + 1].clone() };
        proof {
            assert(attr_views(attrs@.push(attr)) == attr_views(attrs@).push(attr@));
        }
        attrs.push(attr);
        i += 2;
    }
    assert(rest.take(n - 2) == rest);
    Ok(Tokens { version: ws[0].clone(), delete, attrs })
}

/// The keys and values of `attrs` as words, in order.
pub open spec fn flatten(attrs: Seq<AttrView>) -> Seq<Seq<char>>
    decreases attrs.len(),
{
    if attrs.len() == 0 {
        Seq::empty()
    } else {
        flatten(attrs.drop_last()).push(attrs.last().key).push(attrs.last().value)
    }
}

/// The command word that asks for `delete`.
pub open spec fn command_word(delete: bool) -> Seq<char> {
    if delete {
        "del"@
    } else {
        "add"@
    }
}

/// The words of the line that holds `t`.
pub open spec fn words_of(t: TokensView) -> Seq<Seq<char>> {
    seq![t.version, command_word(t.delete)] + flatten(t.attrs)
}

/// The line that holds `t`: its words with a space between each two.
pub open spec fn line_of(t: TokensView) -> Seq<char> {
    join(words_of(t))
}

/// Whether `t` can be written as a line: its first word, its keys and its
/// values are words, and no key stands twice.
pub open spec fn writable(t: TokensView) -> bool {
    &&& is_word(t.version)
    &&& distinct_keys(t.attrs)
    &&& forall|i: int|
        0 <= i < t.attrs.len() ==> is_word((#[trigger] t.attrs[i]).key) && is_word(
            t.attrs[i].value,
        )
}

/// The words of attributes are their keys and values, and they pair up to
/// these attributes again.
pub proof fn lemma_flatten(attrs: Seq<AttrView>)
    requires
        distinct_keys(attrs),
    ensures
        flatten(attrs).len() == 2 * attrs.len(),
        forall|i: int|
            0 <= i < attrs.len() ==> key_at(flatten(attrs), i) == (#[trigger] attrs[i]).key
                && value_at(flatten(attrs), i) == attrs[i].value,
        attrs_of(flatten(attrs)) == Ok::<Seq<AttrView>, TokenErrorView>(attrs),
    decreases attrs.len(),
{
    if attrs.len() > 0 {
        let before = attrs.drop_last();
        let last = attrs.last();
        assert forall|i: int, j: int| 0 <= i < j < before.len() implies before[i].key
            != before[j].key by {
            assert(attrs[i].key != attrs[j].key);
        }
        lemma_flatten(before);
        let ws = flatten(attrs);
        assert(ws.take(ws.len() - 2) == flatten(before));
        assert(ws[ws.len() - 2] == last.key);
        lemma_lookup(before, last.key);
        if lookup(before, last.key) is Some {
            let i = choose|i: int| 0 <= i < before.len() && (#[trigger] before[i]).key == last.key;
            assert(attrs[i].key == attrs[attrs.len() - 1].key);
        }
        assert(before.push(AttrView { key: last.key, value: last.value }) == attrs);
        assert(ws.len() % 2 == 0);
        assert(ws.last() == last.value);
        assert(attrs_of(flatten(before)) == Ok::<Seq<AttrView>, TokenErrorView>(before));
        assert(lookup(before, last.key) is None);
        assert(attrs_of(ws) == Ok::<Seq<AttrView>, TokenErrorView>(attrs));
        assert forall|i: int| 0 <= i < attrs.len() implies key_at(ws, i) == (
        #[trigger] attrs[i]).key && value_at(ws, i) == attrs[i].value by {
            if i < before.len() {
                assert(key_at(flatten(before), i) == before[i].key);
                assert(value_at(flatten(before), i) == before[i].value);
            }
        }
    } else {
        assert(attrs == Seq::<AttrView>::empty());
    }
}

/// A line that was written is taken apart into what was written.
pub proof fn lemma_line_of(t: TokensView)
    requires
        writable(t),
    ensures
        tokens_of(line_of(t)) == Ok::<TokensView, TokenErrorView>(t),
{
    reveal_strlit("add");
    reveal_strlit("del");
    let ws = words_of(t);
    lemma_flatten(t.attrs);
    let flat = flatten(t.attrs);
    assert forall|i: int| 0 <= i < ws.len() implies is_word(#[trigger] ws[i]) by {
        if i >= 2 {
            let k = (i - 2) / 2;
            assert(ws[i] == flat[i - 2]);
            assert(is_word(t.attrs[k].key) && is_word(t.attrs[k].value));
            if (i - 2) % 2 == 0 {
                assert(flat[i - 2] == key_at(flat, k));
            } else {
                assert(flat[i - 2] == value_at(flat, k));
            }
        }
    }
    lemma_words_join(ws);
    assert(ws.skip(2) == flat);
    assert("add"@[0] != "del"@[0]);
}

/// A place for an attribute that an entry may or may not have.
pub struct Slot {
    pub key: Seq<char>,
    pub value: Option<Seq<char>>,
}

/// The attributes that stand in `slots`, in order.
pub open spec fn present(slots: Seq<Slot>) -> Seq<AttrView>
    decreases slots.len(),
{
    if slots.len() == 0 {
        Seq::empty()
    } else {
        let before = present(slots.drop_last());
        match slots.last().value {
            Some(value) => before.push(AttrView { key: slots.last().key, value }),
            None => before,
        }
    }
}

/// Whether no key stands twice in `slots`.
pub open spec fn distinct_slots(slots: Seq<Slot>) -> bool {
    forall|i: int, j: int| 0 <= i < j < slots.len() ==> slots[i].key != slots[j].key
}

/// The attributes that stand in slots with different keys are found under
/// the keys of their slots and under no other key, and none of their keys
/// stands twice.
pub proof fn lemma_present(slots: Seq<Slot>)
    requires
        distinct_slots(slots),
    ensures
        distinct_keys(present(slots)),
        forall|i: int|
            0 <= i < slots.len() ==> lookup(present(slots), (#[trigger] slots[i]).key)
                == slots[i].value,
        forall|j: int|
            0 <= j < present(slots).len() ==> exists|i: int|
                0 <= i < slots.len() && (#[trigger] slots[i]).key == (#[trigger] present(
                    slots,
                )[j]).key && slots[i].value == Some(present(slots)[j].value),
    decreases slots.len(),
{
    if slots.len() > 0 {
        let before = slots.drop_last();
        let last = slots.last();
        let found = present(before);
        let now = present(slots);
        assert forall|i: int, j: int| 0 <= i < j < before.len() implies before[i].key
            != before[j].key by {
            assert(slots[i].key != slots[j].key);
        }
        lemma_present(before);
        lemma_lookup(found, last.key);
        if lookup(found, last.key) is Some {
            let j = choose|j: int| 0 <= j < found.len() && (#[trigger] found[j]).key == last.key;
            let i = choose|i: int|
                0 <= i < before.len() && (#[trigger] before[i]).key == found[j].key
                    && before[i].value == Some(found[j].value);
            assert(slots[i].key == slots[slots.len() - 1].key);
        }
        assert forall|j: int| 0 <= j < now.len() implies exists|i: int|
            0 <= i < slots.len() && (#[trigger] slots[i]).key == (#[trigger] now[j]).key
                && slots[i].value == Some(now[j].value) by {
            if j < found.len() {
                assert(now[j] == found[j]);
                let i = choose|i: int|
                    0 <= i < before.len() && (#[trigger] before[i]).key == found[j].key
                        && before[i].value == Some(found[j].value);
                assert(slots[i] == before[i]);
            } else {
                assert(slots[slots.len() - 1].key == now[j].key);
            }
        }
        assert forall|i: int, j: int| 0 <= i < j < now.len() implies now[i].key
            != now[j].key by {
            assert(now[i] == found[i]);
            if j < found.len() {
                assert(now[j] == found[j]);
            }
        }
        assert forall|i: int| 0 <= i < slots.len() implies lookup(now, (#[trigger] slots[i]).key)
            == slots[i].value by {
            if i < before.len() {
                assert(slots[i] == before[i]);
                assert(slots[i].key != slots[slots.len() - 1].key);
                if last.value is Some {
                    assert(now.drop_last() == found);
                }
            } else {
                if last.value is Some {
                    assert(now.last().key == last.key);
                }
            }
        }
    }
}

impl Tokens {
    /// The line that holds these parts.
    pub fn to_line(&self) -> (r: String)
        ensures
            r@ == line_of(self@),
    {
        proof {
            reveal_strlit(" ");
        }
        let ghost all = attr_views(self.attrs@);
        let ghost head = seq![self.version@, command_word(self.delete)];
        let mut out = self.version.clone();
        out.append(" ");
        if self.delete {
            out.append("del");
        } else {
            out.append("add");
        }
        proof {
            assert(head.drop_last() == seq![self.version@]);
            assert(join(seq![self.version@]) == self.version@);
            assert(join(head) == self.version@.push(' ') + command_word(self.delete));
            assert(all.take(0) == Seq::<AttrView>::empty());
            assert(head + flatten(all.take(0)) == head);
        }
        let mut i: usize = 0;
        while i < self.attrs.len()
            invariant
                i <= self.attrs.len(),
                all == attr_views(self.attrs@),
                head.len() == 2,
                out@ == join(head + flatten(all.take(i as int))),
            decreases self.attrs.len() - i,
        {
            out.append(" ");
            out.append(self.attrs[i].key.as_str());
            out.append(" ");
            out.append(self.attrs[i].value.as_str());
            proof {
                reveal_strlit(" ");
                let before = head + flatten(all.take(i as int));
                let key = self.attrs@[i as int].key@;
                let value = self.attrs@[i as int].value@;
                assert(all.take(i + 1).drop_last() == all.take(i as int));
                assert(all.take(i + 1).last() == self.attrs@[i as int]@);
                let mid = before.push(key);
                let now = mid.push(value);
                assert(head + flatten(all.take(i + 1)) == now);
                assert(mid.drop_last() == before);
                assert(now.drop_last() == mid);
                assert(mid.last() == key && now.last() == value);
                assert(before.len() >= 2);
                assert(join(mid) == join(before).push(' ') + key);
                assert(join(now) == (join(before).push(' ') + key).push(' ') + value);
                assert(out@ == join(before) + seq![' '] + key + seq![' '] + value);
                assert(out@ == join(now));
            }
            i += 1;
        }
        assert(all.take(self.attrs.len() as int) == all);
        out
    }
}

/// What is said of the fault `e` in a line whose first word should be one
/// of `want`.
pub open spec fn token_error_text(e: TokenErrorView, want: Seq<char>) -> Seq<char> {
    match e {
        TokenErrorView::NoVersion => "missing version (want "@ + want + ")"@,
        TokenErrorView::NoCmd => "missing command (want \"add\" or \"del\")"@,
        TokenErrorView::InvalidCmd(w) => "invalid command "@ + w + " (want \"add\" or \"del\")"@,
        TokenErrorView::NoAttrValue(w) => "missing value for attribute "@ + w,
        TokenErrorView::DuplicateAttr(w) => "duplicate attribute "@ + w,
    }
}

impl TokenError {
    /// What is said of the fault in a line whose first word should be one
    /// of `want`.
    pub fn message(&self, want: &str) -> (r: String)
        ensures
            r@ == token_error_text(self@, want@),
    {
        match self {
            TokenError::NoVersion => {
                let mut out = String::from_str("missing version (want ");
                out.append(want);
                out.append(")");
                out
            },
            TokenError::NoCmd => String::from_str("missing command (want \"add\" or \"del\")"),
            TokenError::InvalidCmd(w) => {
                let mut out = String::from_str("invalid command ");
                out.append(w.as_str());
                out.append(" (want \"add\" or \"del\")");
                out
            },
            TokenError::NoAttrValue(w) => {
                let mut out = String::from_str("missing value for attribute ");
                out.append(w.as_str());
                out
            },
            TokenError::DuplicateAttr(w) => {
                let mut out = String::from_str("duplicate attribute ");
                out.append(w.as_str());
                out
            },
        }
    }
}

} // verus!
