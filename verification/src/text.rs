//! Text as sequences of characters: white space, trimming, splitting at a
//! separator and joining with one.

use vstd::prelude::*;
use vstd::slice::slice_subrange;

verus! {

/// `String::push` of the standard library: the string afterwards is the
/// string before with the character added at its end.
pub assume_specification[ String::push ](text: &mut String, ch: char)
    ensures
        final(text)@ == old(text)@.push(ch),
;

/// The texts of the strings, one for one.
pub open spec fn string_views(strings: Seq<String>) -> Seq<Seq<char>> {
    Seq::new(strings.len(), |i: int| strings[i]@)
}

/// The characters with the Unicode property `White_Space`.
pub open spec fn is_whitespace(c: char) -> bool {
    ||| '\u{9}' <= c <= '\u{d}'
    ||| c == ' '
    ||| c == '\u{85}'
    ||| c == '\u{a0}'
    ||| c == '\u{1680}'
    ||| '\u{2000}' <= c <= '\u{200a}'
    ||| c == '\u{2028}'
    ||| c == '\u{2029}'
    ||| c == '\u{202f}'
    ||| c == '\u{205f}'
    ||| c == '\u{3000}'
}

/// How many characters of white space the text begins with.
pub open spec fn leading_space(s: Seq<char>) -> nat
    decreases s.len(),
{
    if s.len() > 0 && is_whitespace(s[0]) {
        1 + leading_space(s.drop_first())
    } else {
        0
    }
}

/// How many characters of white space the text ends with.
pub open spec fn trailing_space(s: Seq<char>) -> nat
    decreases s.len(),
{
    if s.len() > 0 && is_whitespace(s.last()) {
        1 + trailing_space(s.drop_last())
    } else {
        0
    }
}

/// The text without the white space at its two ends.
pub open spec fn trim(s: Seq<char>) -> Seq<char> {
    let rest = s.skip(leading_space(s) as int);
    rest.take(rest.len() - trailing_space(rest))
}

/// The text neither begins nor ends with white space.
pub open spec fn is_trimmed(s: Seq<char>) -> bool {
    s.len() > 0 ==> !is_whitespace(s[0]) && !is_whitespace(s.last())
}

/// Where the separator first occurs in the text, or the length of the text
/// where it does not occur.
pub open spec fn first_sep(s: Seq<char>, sep: char) -> nat
    decreases s.len(),
{
    if s.len() == 0 || s[0] == sep {
        0
    } else {
        1 + first_sep(s.drop_first(), sep)
    }
}

/// The pieces of the text between the occurrences of the separator. A text
/// with `n` separators has `n + 1` pieces, empty ones included.
pub open spec fn split(s: Seq<char>, sep: char) -> Seq<Seq<char>>
    decreases s.len(),
{
    let i = first_sep(s, sep) as int;
    if i >= s.len() {
        seq![s]
    } else {
        seq![s.take(i)] + split(s.skip(i + 1), sep)
    }
}

/// The pieces put together with one separator between neighbours.
pub open spec fn join(pieces: Seq<Seq<char>>, sep: char) -> Seq<char>
    decreases pieces.len(),
{
    if pieces.len() == 0 {
        Seq::empty()
    } else if pieces.len() == 1 {
        pieces[0]
    } else {
        join(pieces.drop_last(), sep).push(sep) + pieces.last()
    }
}

/// The separator does not occur in the text.
pub open spec fn free_of(s: Seq<char>, sep: char) -> bool {
    forall|i: int| 0 <= i < s.len() ==> s[i] != sep
}

/// `first_sep` is the least position that holds the separator.
pub proof fn lemma_first_sep(s: Seq<char>, sep: char)
    ensures
        first_sep(s, sep) <= s.len(),
        first_sep(s, sep) < s.len() ==> s[first_sep(s, sep) as int] == sep,
        forall|i: int| 0 <= i < first_sep(s, sep) ==> s[i] != sep,
    decreases s.len(),
{
    if s.len() == 0 || s[0] == sep {
    } else {
        lemma_first_sep(s.drop_first(), sep);
        assert forall|i: int| 0 <= i < first_sep(s, sep) implies s[i] != sep by {
            if i > 0 {
                assert(s.drop_first()[i - 1] == s[i]);
            }
        }
    }
}

/// A position that holds the separator, with none before it, is `first_sep`;
/// so is the length of a text without one.
pub proof fn lemma_first_sep_is(s: Seq<char>, sep: char, at: int)
    requires
        0 <= at <= s.len(),
        at < s.len() ==> s[at] == sep,
        forall|i: int| 0 <= i < at ==> s[i] != sep,
    ensures
        first_sep(s, sep) == at,
{
    lemma_first_sep(s, sep);
    let f = first_sep(s, sep) as int;
    if f < at {
        assert(s[f] == sep);
    } else if at < f {
        assert(s[at] != sep);
    }
}

/// A text without the separator is its own single piece.
pub proof fn lemma_split_free(s: Seq<char>, sep: char)
    requires
        free_of(s, sep),
    ensures
        split(s, sep) == seq![s],
{
    lemma_first_sep_is(s, sep, s.len() as int);
}

/// Splitting a text made of two texts with a separator between them gives
/// the pieces of the first followed by those of the second.
pub proof fn lemma_split_concat(a: Seq<char>, b: Seq<char>, sep: char)
    ensures
        split(a.push(sep) + b, sep) == split(a, sep) + split(b, sep),
    decreases a.len(),
{
    let whole = a.push(sep) + b;
    lemma_first_sep(a, sep);
    let i = first_sep(a, sep) as int;
    assert forall|j: int| 0 <= j < i implies whole[j] != sep by {
        assert(whole[j] == a[j]);
    }
    assert(whole[i] == sep) by {
        if i < a.len() {
            assert(whole[i] == a[i]);
        }
    }
    lemma_first_sep_is(whole, sep, i);
    if i < a.len() {
        lemma_split_concat(a.skip(i + 1), b, sep);
        assert(whole.skip(i + 1) =~= a.skip(i + 1).push(sep) + b);
        assert(whole.take(i) =~= a.take(i));
        assert(split(whole, sep) =~= split(a, sep) + split(b, sep));
    } else {
        assert(whole.skip(i + 1) =~= b);
        assert(whole.take(i) =~= a);
    }
}

/// Splitting what joining gave returns the pieces, where there is at least
/// one piece and none holds the separator.
pub proof fn lemma_split_join(pieces: Seq<Seq<char>>, sep: char)
    requires
        pieces.len() >= 1,
        forall|p: int| 0 <= p < pieces.len() ==> free_of(#[trigger] pieces[p], sep),
    ensures
        split(join(pieces, sep), sep) == pieces,
    decreases pieces.len(),
{
    if pieces.len() == 1 {
        lemma_split_free(pieces[0], sep);
        assert(seq![pieces[0]] =~= pieces);
    } else {
        let front = pieces.drop_last();
        assert forall|p: int| 0 <= p < front.len() implies free_of(#[trigger] front[p], sep) by {
            assert(front[p] == pieces[p]);
        }
        lemma_split_join(front, sep);
        lemma_split_concat(join(front, sep), pieces.last(), sep);
        lemma_split_free(pieces.last(), sep);
        assert(front + seq![pieces.last()] =~= pieces);
    }
}

/// A text that neither begins nor ends with white space is left as it is
/// by trimming.
pub proof fn lemma_trim_trimmed(s: Seq<char>)
    requires
        is_trimmed(s),
    ensures
        trim(s) == s,
{
    assert(s.skip(0) =~= s);
    assert(s.take(s.len() as int) =~= s);
}

/// The text begins with exactly `leading_space` characters of white space.
pub proof fn lemma_leading_space(s: Seq<char>)
    ensures
        leading_space(s) <= s.len(),
        forall|i: int| 0 <= i < leading_space(s) ==> is_whitespace(s[i]),
        leading_space(s) < s.len() ==> !is_whitespace(s[leading_space(s) as int]),
    decreases s.len(),
{
    if s.len() > 0 && is_whitespace(s[0]) {
        lemma_leading_space(s.drop_first());
        assert forall|i: int| 0 <= i < leading_space(s) implies is_whitespace(s[i]) by {
            if i > 0 {
                assert(s.drop_first()[i - 1] == s[i]);
            }
        }
        if leading_space(s) < s.len() {
            assert(s.drop_first()[leading_space(s) - 1] == s[leading_space(s) as int]);
        }
    }
}

/// The text ends with exactly `trailing_space` characters of white space.
pub proof fn lemma_trailing_space(s: Seq<char>)
    ensures
        trailing_space(s) <= s.len(),
        forall|i: int| s.len() - trailing_space(s) <= i < s.len() ==> is_whitespace(s[i]),
        trailing_space(s) < s.len() ==> !is_whitespace(s[s.len() - trailing_space(s) - 1]),
    decreases s.len(),
{
    if s.len() > 0 && is_whitespace(s.last()) {
        lemma_trailing_space(s.drop_last());
        assert forall|i: int| s.len() - trailing_space(s) <= i < s.len() implies is_whitespace(
            s[i],
        ) by {
            if i < s.len() - 1 {
                assert(s.drop_last()[i] == s[i]);
            }
        }
        if trailing_space(s) < s.len() {
            assert(s.drop_last()[s.len() - trailing_space(s) - 1] == s[s.len() - trailing_space(s)
                - 1]);
        }
    }
}

/// A stretch of white space up to a character that is none is the leading
/// white space.
pub proof fn lemma_leading_space_is(s: Seq<char>, n: int)
    requires
        0 <= n <= s.len(),
        forall|i: int| 0 <= i < n ==> is_whitespace(s[i]),
        n < s.len() ==> !is_whitespace(s[n]),
    ensures
        leading_space(s) == n,
{
    lemma_leading_space(s);
    let l = leading_space(s) as int;
    if l < n {
        assert(is_whitespace(s[l]));
    } else if n < l {
        assert(is_whitespace(s[n]));
    }
}

/// A stretch of white space back to a character that is none is the trailing
/// white space.
pub proof fn lemma_trailing_space_is(s: Seq<char>, n: int)
    requires
        0 <= n <= s.len(),
        forall|i: int| s.len() - n <= i < s.len() ==> is_whitespace(s[i]),
        n < s.len() ==> !is_whitespace(s[s.len() - n - 1]),
    ensures
        trailing_space(s) == n,
{
    lemma_trailing_space(s);
    let l = trailing_space(s) as int;
    if l < n {
        assert(is_whitespace(s[s.len() - l - 1]));
    } else if n < l {
        assert(is_whitespace(s[s.len() - n - 1]));
    }
}

/// Tells whether the character is white space.
pub fn is_space(c: char) -> (space: bool)
    ensures
        space == is_whitespace(c),
{
    (c >= '\u{9}' && c <= '\u{d}') || c == ' ' || c == '\u{85}' || c == '\u{a0}' || c == '\u{1680}' || (c
        >= '\u{2000}' && c <= '\u{200a}') || c == '\u{2028}' || c == '\u{2029}' || c == '\u{202f}' || c
        == '\u{205f}' || c == '\u{3000}'
}

/// The characters of a string, one by one.
pub fn chars_of(text: &str) -> (chars: Vec<char>)
    ensures
        chars@ == text@,
{
    let mut chars: Vec<char> = Vec::new();
    for c in it: text.chars()
        invariant
            chars@ == it.seq().take(it.index() as int),
            it.seq() == text@,
    {
        chars.push(c);
    }
    chars
}

/// A string of the given characters.
pub fn string_of(chars: &[char]) -> (text: String)
    ensures
        text@ == chars@,
{
    let mut text = String::new();
    let mut i: usize = 0;
    while i < chars.len()
        invariant
            i <= chars.len(),
            text@ == chars@.take(i as int),
        decreases chars.len() - i,
    {
        text.push(chars[i]);
        assert(chars@.take(i + 1) =~= chars@.take(i as int).push(chars@[i as int]));
        i += 1;
    }
    assert(chars@.take(i as int) =~= chars@);
    text
}

/// Finds the first occurrence of the separator.
pub fn find_sep(chars: &[char], sep: char) -> (at: usize)
    ensures
        at == first_sep(chars@, sep),
        at <= chars.len(),
{
    let mut at: usize = 0;
    while at < chars.len() && chars[at] != sep
        invariant
            at <= chars.len(),
            forall|i: int| 0 <= i < at ==> chars@[i] != sep,
        decreases chars.len() - at,
    {
        at += 1;
    }
    proof {
        lemma_first_sep_is(chars@, sep, at as int);
    }
    at
}

/// The stretch of the text between the white space at its two ends.
pub fn trimmed(chars: &[char]) -> (inner: &[char])
    ensures
        inner@ == trim(chars@),
{
    let mut from: usize = 0;
    while from < chars.len() && is_space(chars[from])
        invariant
            from <= chars.len(),
            forall|i: int| 0 <= i < from ==> is_whitespace(chars@[i]),
        decreases chars.len() - from,
    {
        from += 1;
    }
    let mut to: usize = chars.len();
    while to > from && is_space(chars[to - 1])
        invariant
            from <= to <= chars.len(),
            forall|i: int| to <= i < chars.len() ==> is_whitespace(chars@[i]),
        decreases to,
    {
        to -= 1;
    }
    proof {
        lemma_leading_space_is(chars@, from as int);
        let rest = chars@.skip(from as int);
        assert forall|i: int| rest.len() - (chars.len() - to) <= i < rest.len() implies is_whitespace(
            rest[i],
        ) by {
            assert(rest[i] == chars@[i + from]);
        }
        lemma_trailing_space_is(rest, chars.len() - to);
        assert(rest.take(rest.len() - (chars.len() - to)) =~= chars@.subrange(from as int, to as int));
    }
    slice_subrange(chars, from, to)
}

} // verus!
