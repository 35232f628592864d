//! Strings as sequences of characters.
//!
//! Every contract of this crate speaks of a string as the sequence of its
//! characters. This module holds the operations on strings that the rest of
//! the crate is built from, each with its meaning on such sequences.

use vstd::prelude::*;

verus! {

/// `String::push` appends one character at the end of the string.
pub assume_specification[ String::push ](s: &mut String, c: char)
    ensures
        final(s)@ == old(s)@.push(c),
;

/// The views of a sequence of strings.
pub open spec fn texts(strings: Seq<String>) -> Seq<Seq<char>> {
    Seq::new(strings.len(), |i: int| strings[i]@)
}

/// What one more element adds to the beginning of a sequence.
pub proof fn lemma_take_one_more<A>(s: Seq<A>, i: int)
    requires
        0 <= i < s.len(),
    ensures
        s.take(i + 1) == s.take(i).push(s[i]),
        forall|x: A| #[trigger] s.take(i + 1).contains(x) <==> s.take(i).contains(x) || x == s[i],
{
    assert(s.take(i + 1) =~= s.take(i).push(s[i]));
    lemma_push_contains(s.take(i), s[i]);
}

/// What a sequence contains with one more element.
pub proof fn lemma_push_contains<A>(s: Seq<A>, last: A)
    ensures
        forall|x: A| #[trigger] s.push(last).contains(x) <==> s.contains(x) || x == last,
{
    let longer = s.push(last);
    assert forall|x: A| #[trigger] longer.contains(x) <==> s.contains(x) || x == last by {
        if longer.contains(x) {
            let i = longer.index_of(x);
            if i < s.len() {
                assert(s[i] == x);
            }
        }
        if s.contains(x) {
            assert(longer[s.index_of(x)] == x);
        }
        if x == last {
            assert(longer[s.len() as int] == x);
        }
    }
}

/// The characters of `s`, in order.
pub fn chars_of(s: &str) -> (chars: Vec<char>)
    ensures
        chars@ == s@,
{
    let mut chars: Vec<char> = Vec::new();
    for c in it: s.chars()
        invariant
            it.seq() == s@,
            chars@ == s@.take(it.index()),
    {
        chars.push(c);
        assert(chars@ =~= s@.take(it.index() + 1));
    }
    assert(chars@ =~= s@);
    chars
}

/// The string whose characters are `chars[from..to]`.
pub fn string_of(chars: &[char], from: usize, to: usize) -> (s: String)
    requires
        from <= to <= chars@.len(),
    ensures
        s@ == chars@.subrange(from as int, to as int),
{
    let mut s: String = String::new();
    let mut i: usize = from;
    while i < to
        invariant
            from <= i <= to <= chars@.len(),
            s@ == chars@.subrange(from as int, i as int),
        decreases to - i,
    {
        s.push(chars[i]);
        i += 1;
        assert(s@ =~= chars@.subrange(from as int, i as int));
    }
    s
}

/// Whether two strings hold the same characters.
pub fn same_text(a: &str, b: &str) -> (same: bool)
    ensures
        same == (a@ == b@),
{
    let left: String = a.to_owned();
    let right: String = b.to_owned();
    left == right
}

/// Whether `needle` is one of `strings`.
pub fn contains_text(strings: &[String], needle: &str) -> (found: bool)
    ensures
        found == texts(strings@).contains(needle@),
{
    let ghost all = texts(strings@);
    let mut i: usize = 0;
    while i < strings.len()
        invariant
            i <= strings@.len(),
            all == texts(strings@),
            forall|j: int| 0 <= j < i ==> all[j] != needle@,
        decreases strings@.len() - i,
    {
        if same_text(strings[i].as_str(), needle) {
            assert(all[i as int] == needle@);
            return true;
        }
        i += 1;
    }
    false
}

/// A copy of a list of strings.
pub fn clone_texts(strings: &[String]) -> (copy: Vec<String>)
    ensures
        texts(copy@) == texts(strings@),
{
    let mut copy: Vec<String> = Vec::new();
    let mut i: usize = 0;
    while i < strings.len()
        invariant
            i <= strings@.len(),
            copy@.len() == i,
            forall|j: int| 0 <= j < i ==> copy@[j]@ == strings@[j]@,
        decreases strings@.len() - i,
    {
        copy.push(strings[i].clone());
        i += 1;
    }
    assert(texts(copy@) =~= texts(strings@));
    copy
}

/// The text of an optional string.
pub open spec fn optional(s: Option<String>) -> Option<Seq<char>> {
    match s {
        Some(held) => Some(held@),
        None => None,
    }
}

/// A copy of an optional string.
pub fn clone_optional(s: &Option<String>) -> (copy: Option<String>)
    ensures
        optional(copy) == optional(*s),
{
    match s {
        Some(held) => Some(held.clone()),
        None => None,
    }
}

/// The text of an optional string.
pub open spec fn optional_str(s: Option<&str>) -> Option<Seq<char>> {
    match s {
        Some(held) => Some(held@),
        None => None,
    }
}

/// The pieces of `s` between the occurrences of `sep`: one more piece than
/// there are separators, so that the empty text has one piece, the empty one.
pub open spec fn split(s: Seq<char>, sep: char) -> Seq<Seq<char>>
    decreases s.len(),
{
    if s.len() == 0 {
        seq![Seq::empty()]
    } else {
        let before = split(s.drop_last(), sep);
        if s.last() == sep {
            before.push(Seq::empty())
        } else {
            before.drop_last().push(before.last().push(s.last()))
        }
    }
}

/// The pieces joined again, with `sep` between each two of them.
pub open spec fn join(pieces: Seq<Seq<char>>, sep: char) -> Seq<char>
    decreases pieces.len(),
{
    if pieces.len() == 0 {
        Seq::empty()
    } else if pieces.len() == 1 {
        pieces[0]
    } else {
        join(pieces.drop_last(), sep).push(sep) + pieces.last()
    }
}

/// Splitting loses nothing: the pieces joined again give the text back, and no
/// piece holds the separator.
pub proof fn split_then_join(s: Seq<char>, sep: char)
    ensures
        join(split(s, sep), sep) == s,
        split(s, sep).len() >= 1,
        forall|i: int| 0 <= i < split(s, sep).len() ==> !(#[trigger] split(s, sep)[i]).contains(sep),
    decreases s.len(),
{
    if s.len() > 0 {
        let head = s.drop_last();
        let before = split(head, sep);
        split_then_join(head, sep);
        if s.last() == sep {
            assert(split(s, sep).drop_last() =~= before);
            assert(join(split(s, sep), sep) =~= s);
        } else {
            let whole = split(s, sep);
            assert(whole.drop_last() =~= before.drop_last());
            let piece = before.last().push(s.last());
            assert(whole.last() == piece);
            assert forall|i: int| 0 <= i < whole.len() implies !(#[trigger] whole[i]).contains(
                sep,
            ) by {
                if i < whole.len() - 1 {
                    assert(whole[i] == before[i]);
                } else {
                    assert(!before.last().contains(sep));
                    assert forall|k: int| 0 <= k < piece.len() implies piece[k] != sep by {
                        if k < piece.len() - 1 {
                            assert(before.last().contains(piece[k]));
                        }
                    }
                }
            }
            if whole.len() > 1 {
                assert(join(whole, sep) == join(whole.drop_last(), sep).push(sep) + piece);
            }
            assert(join(whole, sep) =~= join(before, sep).push(s.last()));
            assert(join(whole, sep) =~= s);
        }
    } else {
        assert(split(s, sep)[0] =~= Seq::<char>::empty());
    }
}

/// Splitting a text that is made of two texts with a separator between them
/// gives the pieces of the one, then those of the other.
pub proof fn split_of_joined(a: Seq<char>, b: Seq<char>, sep: char)
    ensures
        split(a.push(sep) + b, sep) == split(a, sep) + split(b, sep),
    decreases b.len(),
{
    let whole = a.push(sep) + b;
    if b.len() == 0 {
        assert(whole.drop_last() =~= a);
        assert(split(whole, sep) =~= split(a, sep) + split(b, sep));
    } else {
        split_of_joined(a, b.drop_last(), sep);
        split_then_join(b.drop_last(), sep);
        assert(whole.drop_last() =~= a.push(sep) + b.drop_last());
        assert(split(whole, sep) =~= split(a, sep) + split(b, sep));
    }
}

/// Texts with the same pieces are the same.
pub proof fn split_is_injective(a: Seq<char>, b: Seq<char>, sep: char)
    requires
        split(a, sep) == split(b, sep),
    ensures
        a == b,
{
    split_then_join(a, sep);
    split_then_join(b, sep);
}

/// A text without the separator is its only piece.
pub proof fn split_without_separator(s: Seq<char>, sep: char)
    requires
        !s.contains(sep),
    ensures
        split(s, sep) == seq![s],
    decreases s.len(),
{
    if s.len() > 0 {
        assert(s.contains(s.last()));
        assert forall|c: char| s.drop_last().contains(c) implies s.contains(c) by {
            let i = choose|i: int| 0 <= i < s.drop_last().len() && s.drop_last()[i] == c;
            assert(s[i] == c);
        }
        split_without_separator(s.drop_last(), sep);
        assert(s.drop_last().push(s.last()) =~= s);
        assert(split(s, sep) =~= seq![s]);
    } else {
        assert(s =~= Seq::empty());
    }
}

/// Splits `s` at every `sep`.
pub fn split_on(s: &str, sep: char) -> (pieces: Vec<String>)
    ensures
        texts(pieces@) == split(s@, sep),
{
    let chars: Vec<char> = chars_of(s);
    let mut pieces: Vec<String> = Vec::new();
    let mut piece: String = String::new();
    let mut i: usize = 0;
    assert(texts(pieces@).push(piece@) =~= split(chars@.take(0), sep));
    while i < chars.len()
        invariant
            i <= chars@.len(),
            texts(pieces@).push(piece@) == split(chars@.take(i as int), sep),
        decreases chars@.len() - i,
    {
        let c: char = chars[i];
        let ghost done = texts(pieces@);
        let ghost current = piece@;
        let ghost head = chars@.take(i as int + 1);
        assert(head.drop_last() =~= chars@.take(i as int));
        assert(split(chars@.take(i as int), sep) == done.push(current));
        assert(done.push(current).drop_last() =~= done);
        if c == sep {
            pieces.push(piece);
            piece = String::new();
            assert(texts(pieces@) =~= done.push(current));
            assert(piece@ =~= Seq::<char>::empty());
        } else {
            piece.push(c);
        }
        i += 1;
    }
    let ghost done = texts(pieces@);
    assert(chars@.take(i as int) =~= s@);
    pieces.push(piece);
    assert(texts(pieces@) =~= done.push(piece@));
    pieces
}

/// What stands before the first `sep` of `s`; all of `s` where there is none.
pub open spec fn until(s: Seq<char>, sep: char) -> Seq<char>
    decreases s.len(),
{
    if s.len() == 0 || s[0] == sep {
        Seq::empty()
    } else {
        seq![s[0]] + until(s.drop_first(), sep)
    }
}

/// What stands behind the first `sep` of `s`; nothing where there is none.
pub open spec fn after(s: Seq<char>, sep: char) -> Seq<char>
    decreases s.len(),
{
    if s.len() == 0 {
        Seq::empty()
    } else if s[0] == sep {
        s.drop_first()
    } else {
        after(s.drop_first(), sep)
    }
}

/// Parts `s` at its first `sep`.
pub fn split_once(s: &str, sep: char) -> (parts: (String, String))
    ensures
        parts.0@ == until(s@, sep),
        parts.1@ == after(s@, sep),
{
    let chars: Vec<char> = chars_of(s);
    let mut i: usize = 0;
    assert(s@.skip(0) =~= s@);
    assert(s@.take(0) + until(s@, sep) =~= until(s@, sep));
    while i < chars.len() && chars[i] != sep
        invariant
            i <= chars@.len(),
            chars@ == s@,
            s@.take(i as int) + until(s@.skip(i as int), sep) == until(s@, sep),
            after(s@.skip(i as int), sep) == after(s@, sep),
        decreases chars@.len() - i,
    {
        let ghost rest = s@.skip(i as int);
        assert(rest.drop_first() =~= s@.skip(i as int + 1));
        assert(s@.take(i as int + 1) + until(s@.skip(i as int + 1), sep) =~= s@.take(i as int)
            + until(rest, sep));
        i += 1;
    }
    let before: String = string_of(&chars, 0, i);
    assert(before@ =~= until(s@, sep));
    if i < chars.len() {
        let behind: String = string_of(&chars, i + 1, chars.len());
        assert(behind@ =~= s@.skip(i as int).drop_first());
        (before, behind)
    } else {
        assert(after(s@.skip(i as int), sep) =~= Seq::empty());
        let behind: String = String::new();
        assert(behind@ =~= Seq::empty());
        (before, behind)
    }
}

/// Whether `prefix` begins `s`.
pub open spec fn begins(s: Seq<char>, prefix: Seq<char>) -> bool {
    prefix.len() <= s.len() && s.take(prefix.len() as int) == prefix
}

/// What follows `prefix` in `s`, where `prefix` begins `s`.
pub fn strip_prefix(s: &str, prefix: &str) -> (rest: Option<String>)
    ensures
        match rest {
            Some(r) => begins(s@, prefix@) && r@ == s@.skip(prefix@.len() as int),
            None => !begins(s@, prefix@),
        },
{
    let chars: Vec<char> = chars_of(s);
    let head: Vec<char> = chars_of(prefix);
    if head.len() > chars.len() {
        return None;
    }
    let mut i: usize = 0;
    while i < head.len()
        invariant
            i <= head@.len() <= chars@.len(),
            chars@ == s@,
            head@ == prefix@,
            forall|j: int| 0 <= j < i ==> chars@[j] == head@[j],
        decreases head@.len() - i,
    {
        if chars[i] != head[i] {
            assert(s@.take(prefix@.len() as int)[i as int] != prefix@[i as int]);
            return None;
        }
        i += 1;
    }
    assert(s@.take(prefix@.len() as int) =~= prefix@);
    let rest: String = string_of(&chars, head.len(), chars.len());
    assert(rest@ =~= s@.skip(prefix@.len() as int));
    Some(rest)
}

/// Unicode white space: the characters with the property `White_Space`.
pub open spec fn is_white(c: char) -> bool {
    ||| '\u{0009}' <= c <= '\u{000D}'
    ||| c == '\u{0020}'
    ||| c == '\u{0085}'
    ||| c == '\u{00A0}'
    ||| c == '\u{1680}'
    ||| '\u{2000}' <= c <= '\u{200A}'
    ||| c == '\u{2028}'
    ||| c == '\u{2029}'
    ||| c == '\u{202F}'
    ||| c == '\u{205F}'
    ||| c == '\u{3000}'
}

/// Whether `c` is white space.
pub fn white(c: char) -> (yes: bool)
    ensures
        yes == is_white(c),
{
    ('\u{0009}' <= c && c <= '\u{000D}') || c == '\u{0020}' || c == '\u{0085}' || c == '\u{00A0}'
        || c == '\u{1680}' || ('\u{2000}' <= c && c <= '\u{200A}') || c == '\u{2028}'
        || c == '\u{2029}' || c == '\u{202F}' || c == '\u{205F}' || c == '\u{3000}'
}

/// `s` without the characters of the class at its start.
pub open spec fn drop_leading(s: Seq<char>, class: spec_fn(char) -> bool) -> Seq<char>
    decreases s.len(),
{
    if s.len() > 0 && class(s[0]) {
        drop_leading(s.drop_first(), class)
    } else {
        s
    }
}

/// `s` without the characters of the class at its end.
pub open spec fn drop_trailing(s: Seq<char>, class: spec_fn(char) -> bool) -> Seq<char>
    decreases s.len(),
{
    if s.len() > 0 && class(s.last()) {
        drop_trailing(s.drop_last(), class)
    } else {
        s
    }
}

/// `s` without the white space at both of its ends.
pub open spec fn trimmed(s: Seq<char>) -> Seq<char> {
    drop_trailing(drop_leading(s, |c: char| is_white(c)), |c: char| is_white(c))
}

/// The class that holds one character only.
pub open spec fn just(edge: char) -> spec_fn(char) -> bool {
    |c: char| c == edge
}

/// `s` without the occurrences of `edge` at both of its ends.
pub open spec fn stripped_of(s: Seq<char>, edge: char) -> Seq<char> {
    drop_trailing(drop_leading(s, just(edge)), just(edge))
}

proof fn lemma_dropping_keeps(
    s: Seq<char>,
    class: spec_fn(char) -> bool,
    kept: spec_fn(char) -> bool,
)
    requires
        forall|i: int| 0 <= i < s.len() ==> kept(#[trigger] s[i]),
    ensures
        forall|i: int|
            0 <= i < drop_leading(s, class).len() ==> kept(#[trigger] drop_leading(s, class)[i]),
        forall|i: int|
            0 <= i < drop_trailing(s, class).len() ==> kept(#[trigger] drop_trailing(s, class)[i]),
    decreases s.len(),
{
    if s.len() > 0 && class(s[0]) {
        assert forall|i: int| 0 <= i < s.drop_first().len() implies kept(
            #[trigger] s.drop_first()[i],
        ) by {
            assert(kept(s[i + 1]));
        }
        lemma_dropping_keeps(s.drop_first(), class, kept);
        assert(drop_leading(s, class) == drop_leading(s.drop_first(), class));
    } else {
        assert(drop_leading(s, class) == s);
    }
    if s.len() > 0 && class(s.last()) {
        lemma_dropping_keeps(s.drop_last(), class, kept);
        assert(drop_trailing(s, class) == drop_trailing(s.drop_last(), class));
    } else {
        assert(drop_trailing(s, class) == s);
    }
}

/// What holds of every character of a text holds of every character that is left
/// when its ends are stripped.
pub proof fn stripping_keeps(s: Seq<char>, edge: char, kept: spec_fn(char) -> bool)
    requires
        forall|i: int| 0 <= i < s.len() ==> kept(#[trigger] s[i]),
    ensures
        forall|i: int|
            0 <= i < stripped_of(s, edge).len() ==> kept(#[trigger] stripped_of(s, edge)[i]),
{
    lemma_dropping_keeps(s, just(edge), kept);
    lemma_dropping_keeps(drop_leading(s, just(edge)), just(edge), kept);
}

proof fn lemma_leading_is_skipped(s: Seq<char>, edge: char) -> (n: int)
    ensures
        0 <= n <= s.len(),
        drop_leading(s, just(edge)) == s.skip(n),
        n < s.len() ==> s[n] != edge,
        forall|i: int| 0 <= i < n ==> #[trigger] s[i] == edge,
    decreases s.len(),
{
    if s.len() > 0 && s[0] == edge {
        let rest = s.drop_first();
        let m = lemma_leading_is_skipped(rest, edge);
        assert(rest.skip(m) =~= s.skip(m + 1));
        assert forall|i: int| 0 <= i < m + 1 implies #[trigger] s[i] == edge by {
            if i > 0 {
                assert(rest[i - 1] == edge);
            }
        }
        m + 1
    } else {
        assert(s.skip(0) =~= s);
        0
    }
}

proof fn lemma_trailing_is_cut(s: Seq<char>, edge: char) -> (n: int)
    ensures
        0 <= n <= s.len(),
        drop_trailing(s, just(edge)) == s.take(n),
        n > 0 ==> s[n - 1] != edge,
        forall|i: int| n <= i < s.len() ==> #[trigger] s[i] == edge,
    decreases s.len(),
{
    if s.len() > 0 && s.last() == edge {
        let rest = s.drop_last();
        let m = lemma_trailing_is_cut(rest, edge);
        assert(rest.take(m) =~= s.take(m));
        assert forall|i: int| m <= i < s.len() implies #[trigger] s[i] == edge by {
            if i < s.len() - 1 {
                assert(rest[i] == edge);
            }
        }
        m
    } else {
        assert(s.take(s.len() as int) =~= s);
        s.len() as int
    }
}

/// A text without its edges is the part of it from its first to its last character
/// that is not the edge.
pub proof fn stripped_is_inner_part(s: Seq<char>, edge: char) -> (part: (int, int))
    ensures
        0 <= part.0 <= part.1 <= s.len(),
        stripped_of(s, edge) == s.subrange(part.0, part.1),
        part.0 < part.1 ==> s[part.0] != edge && s[part.1 - 1] != edge,
        forall|i: int| 0 <= i < s.len() && #[trigger] s[i] != edge ==> part.0 <= i < part.1,
{
    let from = lemma_leading_is_skipped(s, edge);
    let rest = s.skip(from);
    let n = lemma_trailing_is_cut(rest, edge);
    assert(rest.take(n) =~= s.subrange(from, from + n));
    assert forall|i: int| 0 <= i < s.len() && #[trigger] s[i] != edge implies from <= i < from
        + n by {
        if i >= from + n {
            assert(rest[i - from] == edge);
        }
    }
    if n > 0 {
        assert(rest[n - 1] == s[from + n - 1]);
        assert(from < s.len());
    }
    (from, from + n)
}

/// Removes white space from both ends of `s`.
pub fn trim(s: &str) -> (r: String)
    ensures
        r@ == trimmed(s@),
{
    let chars: Vec<char> = chars_of(s);
    let ghost class = |c: char| is_white(c);
    let mut from: usize = 0;
    assert(chars@.skip(0) =~= s@);
    while from < chars.len() && white(chars[from])
        invariant
            from <= chars@.len(),
            class == |c: char| is_white(c),
            drop_leading(chars@.skip(from as int), class) == drop_leading(s@, class),
        decreases chars@.len() - from,
    {
        assert(chars@.skip(from as int).drop_first() =~= chars@.skip(from as int + 1));
        from += 1;
    }
    let mut to: usize = chars.len();
    let ghost head = chars@.skip(from as int);
    assert(drop_leading(s@, class) == head);
    assert(chars@.subrange(from as int, to as int) =~= head);
    while from < to && white(chars[to - 1])
        invariant
            from <= to <= chars@.len(),
            class == |c: char| is_white(c),
            drop_trailing(chars@.subrange(from as int, to as int), class) == drop_trailing(
                head,
                class,
            ),
        decreases to - from,
    {
        assert(chars@.subrange(from as int, to as int).drop_last() =~= chars@.subrange(
            from as int,
            to - 1,
        ));
        to -= 1;
    }
    string_of(&chars, from, to)
}

/// Removes `edge` from both ends of `s`.
pub fn trim_char(s: &str, edge: char) -> (r: String)
    ensures
        r@ == stripped_of(s@, edge),
{
    let chars: Vec<char> = chars_of(s);
    let ghost class = just(edge);
    let mut from: usize = 0;
    assert(chars@.skip(0) =~= s@);
    while from < chars.len() && chars[from] == edge
        invariant
            from <= chars@.len(),
            class == just(edge),
            drop_leading(chars@.skip(from as int), class) == drop_leading(s@, class),
        decreases chars@.len() - from,
    {
        assert(chars@.skip(from as int).drop_first() =~= chars@.skip(from as int + 1));
        from += 1;
    }
    let mut to: usize = chars.len();
    let ghost head = chars@.skip(from as int);
    assert(drop_leading(s@, class) == head);
    assert(chars@.subrange(from as int, to as int) =~= head);
    while from < to && chars[to - 1] == edge
        invariant
            from <= to <= chars@.len(),
            class == just(edge),
            drop_trailing(chars@.subrange(from as int, to as int), class) == drop_trailing(
                head,
                class,
            ),
        decreases to - from,
    {
        assert(chars@.subrange(from as int, to as int).drop_last() =~= chars@.subrange(
            from as int,
            to - 1,
        ));
        to -= 1;
    }
    string_of(&chars, from, to)
}

/// The ASCII lower case of one character.
pub open spec fn lower_char(c: char) -> char {
    if 'A' <= c <= 'Z' {
        (c as u8 + 32) as char
    } else {
        c
    }
}

/// The ASCII lower case of a text.
pub open spec fn lower(s: Seq<char>) -> Seq<char> {
    Seq::new(s.len(), |i: int| lower_char(s[i]))
}

/// Lowers one character.
pub fn to_lower_char(c: char) -> (r: char)
    ensures
        r == lower_char(c),
{
    if 'A' <= c && c <= 'Z' {
        (c as u8 + 32) as char
    } else {
        c
    }
}

/// Lowers the ASCII letters of `s` and keeps everything else.
pub fn to_lower(s: &str) -> (r: String)
    ensures
        r@ == lower(s@),
{
    let chars: Vec<char> = chars_of(s);
    let mut r: String = String::new();
    let mut i: usize = 0;
    while i < chars.len()
        invariant
            i <= chars@.len(),
            chars@ == s@,
            r@ == lower(s@.take(i as int)),
        decreases chars@.len() - i,
    {
        r.push(to_lower_char(chars[i]));
        i += 1;
        assert(r@ =~= lower(s@.take(i as int)));
    }
    assert(s@.take(i as int) =~= s@);
    r
}

/// Whether a text can be the value of an HTTP header: no control characters but tabs.
pub open spec fn is_header_text(s: Seq<char>) -> bool {
    forall|i: int| 0 <= i < s.len() ==> (#[trigger] s[i]) == '\t' || (' ' <= s[i] && s[i] != '\x7f')
}

/// A text between quotation marks, with the escapes of the standard library's
/// `Debug`.
pub uninterp spec fn quoted(s: Seq<char>) -> Seq<char>;

/// Whether a text has only printable ASCII characters, without quotation marks and
/// backslashes.
pub open spec fn is_plain(s: Seq<char>) -> bool {
    forall|i: int|
        0 <= i < s.len() ==> ' ' <= (#[trigger] s[i]) <= '~' && s[i] != '"' && s[i] != '\\'
}

/// A text as it is shown: between quotation marks, as it stands where nothing in it
/// needs an escape.
pub open spec fn shown_quoted(s: Seq<char>) -> Seq<char> {
    if is_plain(s) {
        seq!['"'] + s + seq!['"']
    } else {
        quoted(s)
    }
}

/// The `Debug` output of a `str`: a text that depends on the characters alone, and
/// the text itself between quotation marks where all its characters are printable
/// ASCII and none is a quotation mark or a backslash. How other characters are
/// escaped is not stated.
#[verifier::external_body]
fn debug_of(s: &str) -> (r: String)
    ensures
        r@ == quoted(s@),
        is_plain(s@) ==> r@ == seq!['"'] + s@ + seq!['"'],
{
    format!("{s:?}")
}

/// Shows a text between quotation marks.
pub fn quote(s: &str) -> (r: String)
    ensures
        r@ == shown_quoted(s@),
{
    debug_of(s)
}

/// The digit character of `d`.
pub open spec fn digit(d: nat) -> char {
    (48 + d) as u8 as char
}

/// `n` in decimal, without leading zeros.
pub open spec fn decimal(n: nat) -> Seq<char>
    decreases n,
{
    if n < 10 {
        seq![digit(n)]
    } else {
        decimal(n / 10).push(digit(n % 10))
    }
}

/// Appends `n` in decimal to `out`.
pub fn push_decimal(out: &mut String, n: u64)
    ensures
        final(out)@ == old(out)@ + decimal(n as nat),
    decreases n,
{
    if n >= 10 {
        push_decimal(out, n / 10);
    }
    let ghost before = out@;
    out.push((48 + (n % 10) as u8) as char);
    assert(out@ =~= old(out)@ + decimal(n as nat));
}

/// `n` in decimal.
pub fn to_decimal(n: u64) -> (s: String)
    ensures
        s@ == decimal(n as nat),
{
    let mut s: String = String::new();
    push_decimal(&mut s, n);
    assert(s@ =~= decimal(n as nat));
    s
}

/// The order of texts: by their first difference, a text before its extensions.
pub open spec fn lex_lt(a: Seq<char>, b: Seq<char>) -> bool
    decreases a.len(),
{
    b.len() > 0 && (a.len() == 0 || a[0] < b[0] || (a[0] == b[0] && lex_lt(
        a.drop_first(),
        b.drop_first(),
    )))
}

/// No text comes before itself.
pub proof fn lex_lt_irreflexive(a: Seq<char>)
    ensures
        !lex_lt(a, a),
    decreases a.len(),
{
    if a.len() > 0 {
        lex_lt_irreflexive(a.drop_first());
    }
}

/// The order of texts is transitive.
pub proof fn lex_lt_transitive(a: Seq<char>, b: Seq<char>, c: Seq<char>)
    requires
        lex_lt(a, b),
        lex_lt(b, c),
    ensures
        lex_lt(a, c),
    decreases a.len(),
{
    if a.len() > 0 && a[0] == b[0] && b[0] == c[0] {
        lex_lt_transitive(a.drop_first(), b.drop_first(), c.drop_first());
    }
}

/// Of two different texts one comes before the other.
pub proof fn lex_lt_total(a: Seq<char>, b: Seq<char>)
    ensures
        a == b || lex_lt(a, b) || lex_lt(b, a),
    decreases a.len(),
{
    if a.len() == 0 && b.len() == 0 {
        assert(a =~= b);
    } else if a.len() > 0 && b.len() > 0 && a[0] == b[0] {
        lex_lt_total(a.drop_first(), b.drop_first());
        if a.drop_first() == b.drop_first() {
            assert(seq![a[0]] + a.drop_first() =~= a);
            assert(seq![b[0]] + b.drop_first() =~= b);
        }
    }
}

/// Whether `a` comes before `b`.
pub fn precedes(a: &str, b: &str) -> (before: bool)
    ensures
        before == lex_lt(a@, b@),
{
    let left: Vec<char> = chars_of(a);
    let right: Vec<char> = chars_of(b);
    let mut i: usize = 0;
    assert(left@.skip(0) =~= a@);
    assert(right@.skip(0) =~= b@);
    while i < left.len() && i < right.len() && left[i] == right[i]
        invariant
            i <= left@.len(),
            i <= right@.len(),
            lex_lt(a@, b@) == lex_lt(left@.skip(i as int), right@.skip(i as int)),
        decreases left@.len() - i,
    {
        assert(left@.skip(i as int).drop_first() =~= left@.skip(i as int + 1));
        assert(right@.skip(i as int).drop_first() =~= right@.skip(i as int + 1));
        i += 1;
    }
    i < right.len() && (i >= left.len() || left[i] < right[i])
}

/// The value of a digit in a number system of up to sixteen digits.
pub open spec fn digit_in(c: char, radix: nat) -> Option<nat> {
    let value: int = if '0' <= c <= '9' {
        c as int - 48
    } else if 'a' <= c <= 'f' {
        c as int - 87
    } else if 'A' <= c <= 'F' {
        c as int - 55
    } else {
        16
    };
    if value < radix && value < 16 {
        Some(value as nat)
    } else {
        None
    }
}

/// Whether a text is made of digits alone.
pub open spec fn all_digits(s: Seq<char>, radix: nat) -> bool {
    forall|i: int| 0 <= i < s.len() ==> digit_in(#[trigger] s[i], radix) is Some
}

/// The value of digits.
pub open spec fn digits_value(s: Seq<char>, radix: nat) -> nat
    decreases s.len(),
{
    if s.len() == 0 {
        0
    } else {
        digits_value(s.drop_last(), radix) * radix + match digit_in(s.last(), radix) {
            Some(d) => d,
            None => 0,
        }
    }
}

/// The digits of a number, which a plus sign may lead.
pub open spec fn unsigned_digits(s: Seq<char>) -> Seq<char> {
    if s.len() > 0 && s[0] == '+' {
        s.drop_first()
    } else {
        s
    }
}

/// The natural number that a text stands for: at least one digit, which a plus
/// sign may lead.
pub open spec fn number_in(s: Seq<char>, radix: nat) -> Option<nat> {
    let digits = unsigned_digits(s);
    if digits.len() > 0 && all_digits(digits, radix) {
        Some(digits_value(digits, radix))
    } else {
        None
    }
}

/// The value of a digit.
fn read_digit(c: char, radix: u64) -> (value: Option<u64>)
    requires
        radix <= 16,
    ensures
        match value {
            Some(v) => digit_in(c, radix as nat) == Some(v as nat) && v < radix,
            None => digit_in(c, radix as nat) is None,
        },
{
    let value: u64 = if '0' <= c && c <= '9' {
        c as u64 - 48
    } else if 'a' <= c && c <= 'f' {
        c as u64 - 87
    } else if 'A' <= c && c <= 'F' {
        c as u64 - 55
    } else {
        16
    };
    if value < radix {
        Some(value)
    } else {
        None
    }
}

proof fn lemma_digits_grow(s: Seq<char>, radix: nat, n: int)
    requires
        0 <= n <= s.len(),
        radix >= 1,
    ensures
        digits_value(s.take(n), radix) <= digits_value(s, radix),
    decreases s.len() - n,
{
    if n == s.len() {
        assert(s.take(n) =~= s);
    } else {
        lemma_digits_grow(s, radix, n + 1);
        let shorter = s.take(n + 1).drop_last();
        assert(shorter =~= s.take(n));
        let value = digits_value(shorter, radix);
        assert(value <= value * radix) by (nonlinear_arith)
            requires
                radix >= 1,
        ;
    }
}

/// Reads a natural number up to `max`.
pub fn parse_number(s: &str, radix: u64, max: u64) -> (n: Option<u64>)
    requires
        2 <= radix <= 16,
    ensures
        match n {
            Some(v) => number_in(s@, radix as nat) == Some(v as nat) && v <= max,
            None => match number_in(s@, radix as nat) {
                Some(v) => v > max,
                None => true,
            },
        },
{
    let chars: Vec<char> = chars_of(s);
    let from: usize = if chars.len() > 0 && chars[0] == '+' {
        1
    } else {
        0
    };
    let ghost digits = unsigned_digits(s@);
    assert(digits =~= s@.skip(from as int));
    if from == chars.len() {
        return None;
    }
    let mut value: u64 = 0;
    let mut i: usize = from;
    while i < chars.len()
        invariant
            from <= i <= chars@.len(),
            chars@ == s@,
            2 <= radix <= 16,
            from < chars@.len(),
            digits == unsigned_digits(s@),
            digits == s@.skip(from as int),
            value <= max,
            value == digits_value(digits.take(i - from), radix as nat),
            forall|j: int|
                0 <= j < i - from ==> digit_in(#[trigger] digits[j], radix as nat) is Some,
        decreases chars@.len() - i,
    {
        let c: char = chars[i];
        assert(digits[i - from] == c);
        let d: u64 = match read_digit(c, radix) {
            Some(d) => d,
            None => {
                assert(!all_digits(digits, radix as nat));
                return None;
            },
        };
        let ghost longer = digits.take(i - from + 1);
        assert(longer.drop_last() =~= digits.take(i - from));
        assert(value * radix <= 16 * 0xffff_ffff_ffff_ffff) by (nonlinear_arith)
            requires
                value <= 0xffff_ffff_ffff_ffff,
                radix <= 16,
        ;
        let next: u128 = value as u128 * radix as u128 + d as u128;
        assert(next == digits_value(longer, radix as nat));
        if next > max as u128 {
            proof {
                lemma_digits_grow(digits, radix as nat, i - from + 1);
            }
            return None;
        }
        value = next as u64;
        i += 1;
    }
    assert(digits.take(i - from) =~= digits);
    Some(value)
}

/// Splitting undoes joining, where no piece holds the separator.
pub proof fn split_undoes_join(pieces: Seq<Seq<char>>, sep: char)
    requires
        pieces.len() > 0,
        forall|i: int| 0 <= i < pieces.len() ==> !(#[trigger] pieces[i]).contains(sep),
    ensures
        split(join(pieces, sep), sep) == pieces,
    decreases pieces.len(),
{
    if pieces.len() == 1 {
        split_without_separator(pieces[0], sep);
        assert(pieces =~= seq![pieces[0]]);
    } else {
        let head = pieces.drop_last();
        assert forall|i: int| 0 <= i < head.len() implies !(#[trigger] head[i]).contains(sep) by {
            assert(head[i] == pieces[i]);
        }
        split_undoes_join(head, sep);
        split_without_separator(pieces[pieces.len() - 1], sep);
        split_of_joined(join(head, sep), pieces.last(), sep);
        assert(head + seq![pieces.last()] =~= pieces);
    }
}

/// What stands before the first separator, and what stands behind it; where there is
/// none, all of the text and nothing.
pub proof fn separator_parts_a_text(key: Seq<char>, value: Seq<char>, sep: char)
    requires
        !key.contains(sep),
    ensures
        until(key.push(sep) + value, sep) == key,
        after(key.push(sep) + value, sep) == value,
        until(key, sep) == key,
        after(key, sep).len() == 0,
    decreases key.len(),
{
    let whole = key.push(sep) + value;
    if key.len() == 0 {
        assert(whole.drop_first() =~= value);
        assert(whole.skip(1) =~= value);
        assert(until(whole, sep) =~= key);
        assert(until(key, sep) =~= key);
    } else {
        assert(key.contains(key[0]));
        let rest = key.drop_first();
        assert forall|c: char| rest.contains(c) implies key.contains(c) by {
            let i = rest.index_of(c);
            assert(key[i + 1] == c);
        }
        separator_parts_a_text(rest, value, sep);
        assert(whole.drop_first() =~= rest.push(sep) + value);
        assert(whole.skip(1) =~= rest.push(sep) + value);
        assert(key.skip(1) =~= rest);
        assert(seq![key[0]] + rest =~= key);
        assert(until(whole, sep) =~= key);
        assert(until(key, sep) =~= key);
    }
}

/// Lowering changes capital ASCII letters alone, and each into its small letter.
pub proof fn lowering_changes_capitals_alone(s: Seq<char>, i: int)
    requires
        0 <= i < s.len(),
    ensures
        lower(s).len() == s.len(),
        'A' <= s[i] <= 'Z' ==> lower(s)[i] as int == s[i] as int + 32,
        !('A' <= s[i] <= 'Z') ==> lower(s)[i] == s[i],
        lower(lower(s)) == lower(s),
{
    assert(lower(lower(s)) =~= lower(s));
}

/// Trimming takes white space from both ends of a text and nothing else.
pub proof fn trimming_takes_white_space_at_the_ends(
    before: Seq<char>,
    s: Seq<char>,
    after: Seq<char>,
)
    requires
        forall|i: int| 0 <= i < before.len() ==> is_white(#[trigger] before[i]),
        forall|i: int| 0 <= i < after.len() ==> is_white(#[trigger] after[i]),
        s.len() > 0 ==> !is_white(s[0]) && !is_white(s.last()),
    ensures
        trimmed(before + s + after) == s,
    decreases before.len() + after.len(),
{
    let white = |c: char| is_white(c);
    let whole = before + s + after;
    if before.len() > 0 {
        assert(whole[0] == before[0]);
        let rest = before.drop_first();
        assert forall|i: int| 0 <= i < rest.len() implies is_white(#[trigger] rest[i]) by {
            assert(rest[i] == before[i + 1]);
        }
        trimming_takes_white_space_at_the_ends(rest, s, after);
        assert(whole.drop_first() =~= rest + s + after);
        assert(drop_leading(whole, white) == drop_leading(whole.drop_first(), white));
    } else if s.len() == 0 {
        assert(whole =~= after);
        if after.len() > 0 {
            assert(whole[0] == after[0]);
            let rest = after.drop_first();
            assert forall|i: int| 0 <= i < rest.len() implies is_white(#[trigger] rest[i]) by {
                assert(rest[i] == after[i + 1]);
            }
            trimming_takes_white_space_at_the_ends(before, s, rest);
            assert(whole.drop_first() =~= before + s + rest);
            assert(drop_leading(whole, white) == drop_leading(whole.drop_first(), white));
        } else {
            assert(whole =~= s);
        }
    } else {
        assert(whole[0] == s[0]);
        assert(drop_leading(whole, white) == whole);
        lemma_trailing_white(s, after);
        assert(whole =~= s + after);
    }
}

proof fn lemma_trailing_white(s: Seq<char>, after: Seq<char>)
    requires
        forall|i: int| 0 <= i < after.len() ==> is_white(#[trigger] after[i]),
        s.len() > 0,
        !is_white(s.last()),
    ensures
        drop_trailing(s + after, |c: char| is_white(c)) == s,
    decreases after.len(),
{
    let white = |c: char| is_white(c);
    let whole = s + after;
    if after.len() > 0 {
        assert(whole.last() == after.last());
        assert(is_white(after[after.len() - 1]));
        lemma_trailing_white(s, after.drop_last());
        assert(whole.drop_last() =~= s + after.drop_last());
    } else {
        assert(whole =~= s);
    }
}

/// A decimal number has no leading zeros and is read back as the number.
pub proof fn decimal_is_read_back(n: nat)
    ensures
        decimal(n).len() > 0,
        n > 0 ==> decimal(n)[0] != '0',
        n == 0 ==> decimal(n) == seq!['0'],
        forall|i: int| 0 <= i < decimal(n).len() ==> '0' <= (#[trigger] decimal(n)[i]) <= '9',
        decimal_value(decimal(n)) == n,
    decreases n,
{
    if n >= 10 {
        decimal_is_read_back(n / 10);
        let before = decimal(n / 10);
        let whole = decimal(n);
        assert(whole.drop_last() =~= before);
        assert(whole.last() == digit(n % 10));
        assert(whole[0] == before[0]);
        assert forall|i: int| 0 <= i < whole.len() implies '0' <= (#[trigger] whole[i]) <= '9' by {
            if i < before.len() {
                assert(whole[i] == before[i]);
            }
        }
    } else {
        assert(decimal(n).drop_last() =~= Seq::<char>::empty());
        assert(decimal_value(Seq::<char>::empty()) == 0);
    }
}

/// The number that decimal digits stand for.
pub open spec fn decimal_value(digits: Seq<char>) -> int
    decreases digits.len(),
{
    if digits.len() == 0 {
        0
    } else {
        10 * decimal_value(digits.drop_last()) + (digits.last() as int - '0' as int)
    }
}

proof fn lemma_digits_of_decimal(n: nat)
    ensures
        all_digits(decimal(n), 10),
        digits_value(decimal(n), 10) == n,
    decreases n,
{
    let whole = decimal(n);
    decimal_is_read_back(n);
    assert forall|i: int| 0 <= i < whole.len() implies digit_in(#[trigger] whole[i], 10) is Some by {
        assert('0' <= whole[i] <= '9');
    }
    if n >= 10 {
        lemma_digits_of_decimal(n / 10);
        assert(whole.drop_last() =~= decimal(n / 10));
        assert(whole.last() == digit(n % 10));
        assert(digit_in(digit(n % 10), 10) == Some(n % 10));
    } else {
        assert(whole.drop_last() =~= Seq::<char>::empty());
        assert(digits_value(Seq::<char>::empty(), 10) == 0);
        assert(digit_in(digit(n), 10) == Some(n));
    }
}

/// A number is read from its decimal digits, with a plus sign or without one; a text
/// with any other character is no number, and neither is one without digits.
pub proof fn numbers_are_read(n: nat, before: Seq<char>, c: char, after: Seq<char>)
    ensures
        number_in(decimal(n), 10) == Some(n),
        number_in(seq!['+'] + decimal(n), 10) == Some(n),
        number_in(Seq::empty(), 10) is None,
        number_in(seq!['+'], 10) is None,
        !('0' <= c <= '9') && (before.len() > 0 || c != '+') ==> number_in(
            before.push(c) + after,
            10,
        ) is None,
{
    lemma_digits_of_decimal(n);
    decimal_is_read_back(n);
    let digits = decimal(n);
    assert(digits[0] != '+');
    assert((seq!['+'] + digits).drop_first() =~= digits);
    assert(seq!['+'].drop_first() =~= Seq::<char>::empty());
    if !('0' <= c <= '9') && (before.len() > 0 || c != '+') {
        let whole = before.push(c) + after;
        let rest = unsigned_digits(whole);
        let k = before.len() as int;
        assert(whole[k] == c);
        if whole[0] == '+' {
            assert(rest[k - 1] == c);
        } else {
            assert(rest[k] == c);
        }
        assert(digit_in(c, 10) is None);
    }
}

/// White space is what stands between words: blanks, tabs and line ends are, and no
/// visible ASCII character is.
pub proof fn visible_characters_are_no_white_space(c: char)
    ensures
        '!' <= c <= '~' ==> !is_white(c),
        c == ' ' || c == '\t' || c == '\n' || c == '\r' ==> is_white(c),
        c == '\u{200B}' ==> !is_white(c),
        c == '\u{00A0}' || c == '\u{3000}' || c == '\u{2003}' || c == '\u{2028}' ==> is_white(c),
{
}

/// Texts are ordered by the first character in which they differ, and a text comes
/// before those that go on from it.
pub proof fn texts_are_ordered_by_their_first_difference(
    front: Seq<char>,
    a: char,
    b: char,
    x: Seq<char>,
    y: Seq<char>,
)
    ensures
        a < b ==> lex_lt(front.push(a) + x, front.push(b) + y),
        lex_lt(front, front.push(a) + x),
        !lex_lt(front.push(a) + x, front),
    decreases front.len(),
{
    let l = front.push(a) + x;
    let r = front.push(b) + y;
    if front.len() > 0 {
        let rest = front.drop_first();
        texts_are_ordered_by_their_first_difference(rest, a, b, x, y);
        assert(l.drop_first() =~= rest.push(a) + x);
        assert(r.drop_first() =~= rest.push(b) + y);
        assert(l[0] == front[0] && r[0] == front[0]);
    } else {
        assert(l[0] == a && r[0] == b);
    }
}

/// A text begins with a prefix where it is the prefix and something behind it.
pub proof fn beginnings(prefix: Seq<char>, rest: Seq<char>, s: Seq<char>)
    ensures
        begins(prefix + rest, prefix),
        begins(s, prefix) ==> s == prefix + s.skip(prefix.len() as int),
        s.len() < prefix.len() ==> !begins(s, prefix),
{
    assert((prefix + rest).take(prefix.len() as int) =~= prefix);
    if begins(s, prefix) {
        assert(s =~= s.take(prefix.len() as int) + s.skip(prefix.len() as int));
    }
}

/// A text is plain where each of its characters is a visible one of ASCII or a blank, and
/// neither a quotation mark nor a backslash; it is then shown between quotation marks as
/// it stands.
pub proof fn plain_texts_are_shown_as_they_stand(before: Seq<char>, c: char, after: Seq<char>)
    ensures
        is_plain(before.push(c) + after) <==> is_plain(before) && is_plain(after) && 32 <= c as int
            <= 126 && c as int != 34 && c as int != 92,
        is_plain(before) ==> shown_quoted(before) == seq!['"'] + before + seq!['"'],
        is_plain(Seq::empty()),
{
    let whole = before.push(c) + after;
    let n = before.len() as int;
    assert(whole[n] == c);
    if is_plain(whole) {
        assert forall|i: int| 0 <= i < before.len() implies ' ' <= (#[trigger] before[i]) <= '~'
            && before[i] != '"' && before[i] != '\\' by {
            assert(whole[i] == before[i]);
        }
        assert forall|i: int| 0 <= i < after.len() implies ' ' <= (#[trigger] after[i]) <= '~'
            && after[i] != '"' && after[i] != '\\' by {
            assert(whole[n + 1 + i] == after[i]);
        }
    }
    if is_plain(before) && is_plain(after) && 32 <= c as int <= 126 && c as int != 34 && c as int
        != 92 {
        assert forall|i: int| 0 <= i < whole.len() implies ' ' <= (#[trigger] whole[i]) <= '~'
            && whole[i] != '"' && whole[i] != '\\' by {
            if i < n {
                assert(whole[i] == before[i]);
            } else if i > n {
                assert(whole[i] == after[i - n - 1]);
            }
        }
    }
}

/// A text can be the value of a header where each of its characters is a tab, or none of
/// the control characters.
pub proof fn header_texts_have_no_control_characters(
    before: Seq<char>,
    c: char,
    after: Seq<char>,
)
    ensures
        is_header_text(before.push(c) + after) <==> is_header_text(before) && is_header_text(after)
            && (c as int == 9 || (c as int >= 32 && c as int != 127)),
        is_header_text(Seq::empty()),
{
    let whole = before.push(c) + after;
    let n = before.len() as int;
    assert(whole[n] == c);
    if is_header_text(whole) {
        assert forall|i: int| 0 <= i < before.len() implies (#[trigger] before[i]) == '\t' || (' '
            <= before[i] && before[i] != '\x7f') by {
            assert(whole[i] == before[i]);
        }
        assert forall|i: int| 0 <= i < after.len() implies (#[trigger] after[i]) == '\t' || (' '
            <= after[i] && after[i] != '\x7f') by {
            assert(whole[n + 1 + i] == after[i]);
        }
    }
    if is_header_text(before) && is_header_text(after) && (c as int == 9 || (c as int >= 32
        && c as int != 127)) {
        assert forall|i: int| 0 <= i < whole.len() implies (#[trigger] whole[i]) == '\t' || (' '
            <= whole[i] && whole[i] != '\x7f') by {
            if i < n {
                assert(whole[i] == before[i]);
            } else if i > n {
                assert(whole[i] == after[i - n - 1]);
            }
        }
    }
}

} // verus!
