//! Characters, words and separated fields of a text.

use vstd::prelude::*;

verus! {

/// Whether `c` separates words: the characters with the Unicode property
/// `White_Space`.
pub open spec fn is_blank(c: char) -> bool {
    let n = c as u32;
    ||| 0x09 <= n <= 0x0d
    ||| n == 0x20
    ||| n == 0x85
    ||| n == 0xa0
    ||| n == 0x1680
    ||| 0x2000 <= n <= 0x200a
    ||| n == 0x2028
    ||| n == 0x2029
    ||| n == 0x202f
    ||| n == 0x205f
    ||| n == 0x3000
}

/// The words of `s`: its longest runs of characters that are not blank, in
/// order. Stated from the left to the right: a blank adds nothing, a
/// character behind a character that is not blank extends the last word, and
/// any other character starts a word.
pub open spec fn words(s: Seq<char>) -> Seq<Seq<char>>
    decreases s.len(),
{
    if s.len() == 0 {
        Seq::empty()
    } else {
        let before = words(s.drop_last());
        if is_blank(s.last()) {
            before
        } else if s.len() >= 2 && !is_blank(s[s.len() - 2]) {
            before.drop_last().push(before.last().push(s.last()))
        } else {
            before.push(seq![s.last()])
        }
    }
}

/// The fields of `s` between the occurrences of `sep`: one more than `sep`
/// occurs, each without `sep`, some of them empty.
pub open spec fn split(s: Seq<char>, sep: char) -> Seq<Seq<char>>
    decreases s.len(),
{
    if s.len() == 0 {
        seq![Seq::empty()]
    } else {
        let before = split(s.drop_last(), sep);
        if s.last() == sep {
            before.push(Seq::empty())
        } else {
            before.drop_last().push(before.last().push(s.last()))
        }
    }
}

/// How often `c` occurs in `s`.
pub open spec fn occurrences(s: Seq<char>, c: char) -> nat
    decreases s.len(),
{
    if s.len() == 0 {
        0
    } else {
        occurrences(s.drop_last(), c) + if s.last() == c {
            1nat
        } else {
            0nat
        }
    }
}

/// The lines of `s`: its fields between line feeds, without the empty field
/// behind a last line feed. An empty text has no line. A carriage return in
/// front of a line feed stays in its line, where it is a blank.
pub open spec fn lines(s: Seq<char>) -> Seq<Seq<char>> {
    let fields = split(s, '\n');
    if fields.last().len() == 0 {
        fields.drop_last()
    } else {
        fields
    }
}

/// Whether `w` can stand in a line as one word: it is not empty and holds
/// no blank.
pub open spec fn is_word(w: Seq<char>) -> bool {
    w.len() > 0 && forall|i: int| 0 <= i < w.len() ==> !is_blank(#[trigger] w[i])
}

/// The words `ws` in one line, with a space between each two.
pub open spec fn join(ws: Seq<Seq<char>>) -> Seq<char>
    decreases ws.len(),
{
    if ws.len() == 0 {
        Seq::empty()
    } else if ws.len() == 1 {
        ws[0]
    } else {
        join(ws.drop_last()).push(' ') + ws.last()
    }
}

/// Whether `c` does not occur in `s`.
pub open spec fn free_of(s: Seq<char>, c: char) -> bool {
    forall|i: int| 0 <= i < s.len() ==> #[trigger] s[i] != c
}

/// What `read` makes of the lines `ls`, in order; the fault of the first
/// line of which it makes nothing.
pub open spec fn collect<T, E>(
    ls: Seq<Seq<char>>,
    read: spec_fn(Seq<char>) -> Result<T, E>,
) -> Result<Seq<T>, E>
    decreases ls.len(),
{
    if ls.len() == 0 {
        Ok(Seq::empty())
    } else {
        match collect(ls.drop_last(), read) {
            Err(e) => Err(e),
            Ok(found) => match read(ls.last()) {
                Err(e) => Err(e),
                Ok(x) => Ok(found.push(x)),
            },
        }
    }
}

/// What each string of `v` holds.
pub open spec fn texts(v: Seq<String>) -> Seq<Seq<char>> {
    Seq::new(v.len(), |i: int| v[i]@)
}

/// A text always has a first field, and one more field than separators.
pub proof fn lemma_split_len(s: Seq<char>, sep: char)
    ensures
        split(s, sep).len() == 1 + occurrences(s, sep),
    decreases s.len(),
{
    if s.len() > 0 {
        lemma_split_len(s.drop_last(), sep);
    }
}

/// A line that was joined from words has these words.
pub proof fn lemma_words_join(ws: Seq<Seq<char>>)
    requires
        forall|i: int| 0 <= i < ws.len() ==> is_word(#[trigger] ws[i]),
    ensures
        words(join(ws)) == ws,
    decreases ws.len(),
{
    if ws.len() == 0 {
    } else if ws.len() == 1 {
        let w = ws[0];
        assert(is_word(w));
        lemma_words_word(w, 0, w.len() as int);
        assert(w.take(w.len() as int) == w);
        assert(w.take(0) == Seq::<char>::empty());
        assert(w.subrange(0, w.len() as int) == w);
        assert(ws == seq![w]);
    } else {
        let before = ws.drop_last();
        let w = ws.last();
        assert(is_word(w));
        assert forall|i: int| 0 <= i < before.len() implies is_word(#[trigger] before[i]) by {
            assert(before[i] == ws[i]);
        }
        lemma_words_join(before);
        let head = join(before).push(' ');
        let s = head + w;
        let start = head.len() as int;
        lemma_words_blank(head, start - 1);
        assert(head.take(start) == head);
        assert(head.take(start - 1) == join(before));
        lemma_words_word(s, start, s.len() as int);
        assert(s.take(s.len() as int) == s);
        assert(s.take(start) == head);
        assert(s.subrange(start, s.len() as int) == w);
        assert(before.push(w) == ws);
    }
}

/// A text without the separator is one field.
pub proof fn lemma_split_whole(w: Seq<char>, sep: char)
    requires
        free_of(w, sep),
    ensures
        split(w, sep) == seq![w],
    decreases w.len(),
{
    if w.len() > 0 {
        let before = w.drop_last();
        assert forall|i: int| 0 <= i < before.len() implies #[trigger] before[i] != sep by {
            assert(before[i] == w[i]);
        }
        lemma_split_whole(before, sep);
        assert(w.last() == w[w.len() - 1]);
        assert(before.push(w.last()) == w);
        assert(seq![before].last() == before);
        assert(seq![before].drop_last() == Seq::<Seq<char>>::empty());
        assert(Seq::<Seq<char>>::empty().push(w) == seq![w]);
    } else {
        assert(w == Seq::<char>::empty());
    }
}

/// The fields of two texts with a separator between them are the fields
/// of the first and then those of the second.
pub proof fn lemma_split_join(x: Seq<char>, y: Seq<char>, sep: char)
    ensures
        split(x.push(sep) + y, sep) == split(x, sep) + split(y, sep),
    decreases y.len(),
{
    let s = x.push(sep) + y;
    lemma_split_len(x, sep);
    if y.len() == 0 {
        assert(s == x.push(sep));
        assert(s.drop_last() == x);
        assert(split(x, sep).push(Seq::<char>::empty()) == split(x, sep) + split(y, sep));
    } else {
        let before = y.drop_last();
        lemma_split_join(x, before, sep);
        lemma_split_len(before, sep);
        assert(s.drop_last() == x.push(sep) + before);
        assert(s.last() == y.last());
        let b = split(x, sep) + split(before, sep);
        if y.last() == sep {
            assert(b.push(Seq::<char>::empty()) == split(x, sep) + split(y, sep));
        } else {
            assert(b.last() == split(before, sep).last());
            assert(b.drop_last() == split(x, sep) + split(before, sep).drop_last());
            assert(b.drop_last().push(b.last().push(y.last())) == split(x, sep) + split(y, sep));
        }
    }
}

/// A fault among the first lines is the fault of all lines.
pub proof fn lemma_collect_fails<T, E>(
    ls: Seq<Seq<char>>,
    read: spec_fn(Seq<char>) -> Result<T, E>,
    k: int,
)
    requires
        0 <= k <= ls.len(),
        collect(ls.take(k), read) is Err,
    ensures
        collect(ls, read) == collect(ls.take(k), read),
    decreases ls.len() - k,
{
    if k == ls.len() {
        assert(ls.take(k) == ls);
    } else {
        assert(ls.drop_last().take(k) == ls.take(k));
        lemma_collect_fails(ls.drop_last(), read, k);
    }
}

/// Lines are read as a whole exactly when each of them is read, and then
/// line by line; else the fault is that of the first line that is not read.
pub proof fn lemma_collect<T, E>(ls: Seq<Seq<char>>, read: spec_fn(Seq<char>) -> Result<T, E>)
    ensures
        collect(ls, read) is Ok <==> forall|i: int|
            0 <= i < ls.len() ==> read(#[trigger] ls[i]) is Ok,
        collect(ls, read) matches Ok(found) ==> found.len() == ls.len() && forall|i: int|
            0 <= i < ls.len() ==> read(#[trigger] ls[i]) == Ok::<T, E>(found[i]),
        collect(ls, read) matches Err(e) ==> exists|k: int|
            0 <= k < ls.len() && read(#[trigger] ls[k]) == Err::<T, E>(e) && forall|i: int|
                0 <= i < k ==> read(#[trigger] ls[i]) is Ok,
    decreases ls.len(),
{
    if ls.len() > 0 {
        let before = ls.drop_last();
        lemma_collect(before, read);
        assert forall|i: int| 0 <= i < before.len() implies before[i] == ls[i] by {}
        match collect(before, read) {
            Ok(found) => {
                assert forall|i: int| 0 <= i < before.len() implies read(
                    #[trigger] ls[i],
                ) is Ok by {
                    assert(read(before[i]) is Ok);
                }
                match read(ls.last()) {
                    Ok(x) => {
                        let all = found.push(x);
                        assert forall|i: int| 0 <= i < ls.len() implies read(#[trigger] ls[i])
                            == Ok::<T, E>(all[i]) by {
                            if i < before.len() {
                                assert(read(before[i]) == Ok::<T, E>(found[i]));
                            }
                        }
                    },
                    Err(e) => {
                        let k = ls.len() - 1;
                        assert(read(ls[k]) == Err::<T, E>(e));
                    },
                }
            },
            Err(e) => {
                let k = choose|k: int|
                    0 <= k < before.len() && read(#[trigger] before[k]) == Err::<T, E>(e)
                        && forall|i: int| 0 <= i < k ==> read(#[trigger] before[i]) is Ok;
                assert(read(ls[k]) == Err::<T, E>(e));
                assert forall|i: int| 0 <= i < k implies read(#[trigger] ls[i]) is Ok by {
                    assert(read(before[i]) is Ok);
                }
            },
        }
    }
}

/// No word is empty, and no word holds a blank.
pub proof fn lemma_words_content(s: Seq<char>)
    ensures
        forall|i: int| 0 <= i < words(s).len() ==> (#[trigger] words(s)[i]).len() > 0,
        forall|i: int, j: int|
            0 <= i < words(s).len() && 0 <= j < words(s)[i].len() ==> !is_blank(words(s)[i][j]),
        s.len() > 0 && !is_blank(s.last()) ==> words(s).len() > 0,
    decreases s.len(),
{
    if s.len() > 0 {
        let before = words(s.drop_last());
        lemma_words_content(s.drop_last());
        if is_blank(s.last()) {
        } else if s.len() >= 2 && !is_blank(s[s.len() - 2]) {
            assert(s.drop_last().last() == s[s.len() - 2]);
            let last = before.last().push(s.last());
            let now = before.drop_last().push(last);
            assert forall|i: int| 0 <= i < now.len() implies (#[trigger] now[i]).len() > 0 by {
                if i < now.len() - 1 {
                    assert(now[i] == before[i]);
                }
            }
            assert forall|i: int, j: int|
                0 <= i < now.len() && 0 <= j < now[i].len() implies !is_blank(now[i][j]) by {
                if i < now.len() - 1 {
                    assert(now[i] == before[i]);
                } else if j < last.len() - 1 {
                    assert(last[j] == before.last()[j]);
                }
            }
        } else {
            let now = before.push(seq![s.last()]);
            assert forall|i: int| 0 <= i < now.len() implies (#[trigger] now[i]).len() > 0 by {
                if i < now.len() - 1 {
                    assert(now[i] == before[i]);
                }
            }
            assert forall|i: int, j: int|
                0 <= i < now.len() && 0 <= j < now[i].len() implies !is_blank(now[i][j]) by {
                if i < now.len() - 1 {
                    assert(now[i] == before[i]);
                }
            }
        }
    }
}

/// A blank adds no word.
proof fn lemma_words_blank(s: Seq<char>, i: int)
    requires
        0 <= i < s.len(),
        is_blank(s[i]),
    ensures
        words(s.take(i + 1)) == words(s.take(i)),
{
    assert(s.take(i + 1).drop_last() == s.take(i));
}

/// Characters that are not blank, behind a blank or at the start, add
/// themselves as one word.
proof fn lemma_words_word(s: Seq<char>, start: int, end: int)
    requires
        0 <= start < end <= s.len(),
        start == 0 || is_blank(s[start - 1]),
        forall|k: int| start <= k < end ==> !is_blank(s[k]),
    ensures
        words(s.take(end)) == words(s.take(start)).push(s.subrange(start, end)),
    decreases end - start,
{
    let t = s.take(end);
    assert(t.drop_last() == s.take(end - 1));
    assert(t.last() == s[end - 1]);
    if end == start + 1 {
        assert(seq![s[start]] == s.subrange(start, end));
    } else {
        lemma_words_word(s, start, end - 1);
        assert(t[t.len() - 2] == s[end - 2]);
        let before = words(s.take(end - 1));
        assert(before.drop_last() == words(s.take(start)));
        assert(s.subrange(start, end - 1).push(s[end - 1]) == s.subrange(start, end));
    }
}

/// A separator ends the last field and begins an empty one; any other
/// character extends the last field.
proof fn lemma_split_step(s: Seq<char>, sep: char, fields: Seq<Seq<char>>, start: int, i: int)
    requires
        0 <= start <= i < s.len(),
        split(s.take(i), sep) == fields.push(s.subrange(start, i)),
    ensures
        s[i] == sep ==> split(s.take(i + 1), sep) == fields.push(s.subrange(start, i)).push(
            s.subrange(i + 1, i + 1),
        ),
        s[i] != sep ==> split(s.take(i + 1), sep) == fields.push(s.subrange(start, i + 1)),
{
    let t = s.take(i + 1);
    assert(t.drop_last() == s.take(i));
    assert(t.last() == s[i]);
    let before = split(s.take(i), sep);
    if s[i] == sep {
        assert(s.subrange(i + 1, i + 1) == Seq::<char>::empty());
    } else {
        assert(before.drop_last() == fields);
        assert(s.subrange(start, i).push(s[i]) == s.subrange(start, i + 1));
    }
}

/// Decides `is_blank`.
pub fn blank(c: char) -> (r: bool)
    ensures
        r == is_blank(c),
{
    let n: u32 = c as u32;
    (0x09 <= n && n <= 0x0d) || n == 0x20 || n == 0x85 || n == 0xa0 || n == 0x1680 || (0x2000 <= n
        && n <= 0x200a) || n == 0x2028 || n == 0x2029 || n == 0x202f || n == 0x205f || n == 0x3000
}

/// The characters of `s`, in order.
pub fn to_chars(s: &str) -> (v: Vec<char>)
    ensures
        v@ == s@,
{
    let mut v: Vec<char> = Vec::new();
    for c in it: s.chars()
        invariant
            it.seq() == s@,
            v@ == it.seq().take(it.index()),
    {
        v.push(c);
    }
    v
}

/// Whether `a` and `b` hold the same characters.
pub fn same_text(a: &str, b: &str) -> (r: bool)
    ensures
        r == (a@ == b@),
{
    let x = to_chars(a);
    let y = to_chars(b);
    if x.len() != y.len() {
        return false;
    }
    let mut i: usize = 0;
    while i < x.len()
        invariant
            i <= x.len(),
            x.len() == y.len(),
            x@ == a@,
            y@ == b@,
            forall|k: int| 0 <= k < i ==> x@[k] == y@[k],
        decreases x.len() - i,
    {
        if x[i] != y[i] {
            assert(a@[i as int] != b@[i as int]);
            return false;
        }
        i += 1;
    }
    assert(x@ =~= y@);
    true
}

/// The words of `line`, in order.
pub fn split_words(line: &str) -> (out: Vec<String>)
    ensures
        texts(out@) == words(line@),
{
    let chars = to_chars(line);
    let n = chars.len();
    let mut out: Vec<String> = Vec::new();
    let mut i: usize = 0;
    assert(line@.take(0) == Seq::<char>::empty());
    while i < n
        invariant
            i <= n,
            n == chars.len(),
            chars@ == line@,
            texts(out@) == words(line@.take(i as int)),
            i == 0 || i == n || is_blank(line@[i - 1]) || is_blank(line@[i as int]),
        decreases n - i,
    {
        if blank(chars[i]) {
            proof {
                lemma_words_blank(line@, i as int);
            }
            i += 1;
        } else {
            let start = i;
            i += 1;
            while i < n && !blank(chars[i])
                invariant
                    start < i <= n,
                    n == chars.len(),
                    chars@ == line@,
                    forall|k: int| start <= k < i ==> !is_blank(line@[k]),
                decreases n - i,
            {
                i += 1;
            }
            let word = line.substring_char(start, i).to_owned();
            proof {
                lemma_words_word(line@, start as int, i as int);
                assert(texts(out@.push(word)) == texts(out@).push(word@));
            }
            out.push(word);
        }
    }
    assert(line@.take(n as int) == line@);
    out
}

/// The fields of `s` between the occurrences of `sep`, in order.
pub fn split_fields(s: &str, sep: char) -> (out: Vec<String>)
    ensures
        texts(out@) == split(s@, sep),
{
    let chars = to_chars(s);
    let n = chars.len();
    let mut out: Vec<String> = Vec::new();
    let mut start: usize = 0;
    let mut i: usize = 0;
    proof {
        assert(s@.take(0) == Seq::<char>::empty());
        assert(s@.subrange(0, 0) == Seq::<char>::empty());
        assert(texts(out@).push(s@.subrange(0, 0)) == seq![Seq::<char>::empty()]);
    }
    while i < n
        invariant
            start <= i <= n,
            n == chars.len(),
            chars@ == s@,
            split(s@.take(i as int), sep) == texts(out@).push(s@.subrange(start as int, i as int)),
        decreases n - i,
    {
        proof {
            lemma_split_step(s@, sep, texts(out@), start as int, i as int);
        }
        if chars[i] == sep {
            let field = s.substring_char(start, i).to_owned();
            proof {
                assert(texts(out@.push(field)) == texts(out@).push(field@));
            }
            out.push(field);
            start = i + 1;
        }
        i += 1;
    }
    let field = s.substring_char(start, n).to_owned();
    proof {
        assert(texts(out@.push(field)) == texts(out@).push(field@));
        assert(s@.take(n as int) == s@);
    }
    out.push(field);
    out
}

/// The lines of `s`, in order.
pub fn split_lines(s: &str) -> (out: Vec<String>)
    ensures
        texts(out@) == lines(s@),
{
    let mut out = split_fields(s, '\n');
    proof {
        lemma_split_len(s@, '\n');
    }
    let n = out.len();
    assert(texts(out@).last() == out@[n - 1]@);
    if out[n - 1].as_str().unicode_len() == 0 {
        let ghost before = out@;
        out.pop();
        assert(texts(out@) == texts(before).drop_last());
    }
    out
}

} // verus!
