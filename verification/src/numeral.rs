//! The written form of a number in a numeric column.
//!
//! ```text
//! Numeral ::= Sign? ( 'inf' | 'infinity' | 'nan' | Number )
//! Number  ::= ( Digit+ | Digit+ '.' Digit* | Digit* '.' Digit+ ) Exp?
//! Exp     ::= 'e' Sign? Digit+
//! Sign    ::= [+-]
//! Digit   ::= [0-9]
//! ```
//!
//! Letters count in either case. This is the form that the standard
//! library's conversion of text to a binary64 number accepts.

use vstd::prelude::*;

verus! {

/// A decimal digit.
pub open spec fn is_digit(c: char) -> bool {
    '0' <= c <= '9'
}

/// A plus or minus sign.
pub open spec fn is_sign(c: char) -> bool {
    c == '+' || c == '-'
}

/// The letter in its small or capital form.
pub open spec fn is_letter(c: char, small: char, capital: char) -> bool {
    c == small || c == capital
}

/// Where the run of digits that starts at `from` ends.
pub open spec fn digits_end(s: Seq<char>, from: int) -> int
    decreases s.len() - from,
{
    if 0 <= from < s.len() && is_digit(s[from]) {
        digits_end(s, from + 1)
    } else {
        from
    }
}

/// The text is `inf`, `infinity` or `nan`, in any mix of cases.
pub open spec fn is_special(s: Seq<char>) -> bool {
    ||| {
        &&& s.len() == 3
        &&& is_letter(s[0], 'i', 'I')
        &&& is_letter(s[1], 'n', 'N')
        &&& is_letter(s[2], 'f', 'F')
    }
    ||| {
        &&& s.len() == 8
        &&& is_letter(s[0], 'i', 'I')
        &&& is_letter(s[1], 'n', 'N')
        &&& is_letter(s[2], 'f', 'F')
        &&& is_letter(s[3], 'i', 'I')
        &&& is_letter(s[4], 'n', 'N')
        &&& is_letter(s[5], 'i', 'I')
        &&& is_letter(s[6], 't', 'T')
        &&& is_letter(s[7], 'y', 'Y')
    }
    ||| {
        &&& s.len() == 3
        &&& is_letter(s[0], 'n', 'N')
        &&& is_letter(s[1], 'a', 'A')
        &&& is_letter(s[2], 'n', 'N')
    }
}

/// From `at` to its end the text is an exponent: the letter `e`, a sign or
/// none, and at least one digit.
pub open spec fn is_exponent(s: Seq<char>, at: int) -> bool {
    &&& 0 <= at < s.len()
    &&& is_letter(s[at], 'e', 'E')
    &&& {
        let digits = if at + 1 < s.len() && is_sign(s[at + 1]) {
            at + 2
        } else {
            at + 1
        };
        digits < digits_end(s, digits) == s.len()
    }
}

/// From `from` to its end the text is a number without sign: digits with at
/// most one point among them, before it, behind it or both, and an exponent
/// or none.
pub open spec fn is_number(s: Seq<char>, from: int) -> bool {
    let point = digits_end(s, from);
    let fraction = if point < s.len() && s[point] == '.' {
        point + 1
    } else {
        point
    };
    let end = digits_end(s, fraction);
    &&& (point - from) + (end - fraction) >= 1
    &&& (end == s.len() || is_exponent(s, end))
}

/// Where the text continues behind its sign, if it has one.
pub open spec fn after_sign(s: Seq<char>) -> int {
    if s.len() > 0 && is_sign(s[0]) {
        1
    } else {
        0
    }
}

/// The text is a numeral.
pub open spec fn is_numeral(s: Seq<char>) -> bool {
    is_special(s.skip(after_sign(s))) || is_number(s, after_sign(s))
}

/// The characters that occur in numerals.
pub open spec fn is_numeral_char(c: char) -> bool {
    ||| is_digit(c)
    ||| is_sign(c)
    ||| c == '.'
    ||| is_letter(c, 'e', 'E')
    ||| is_letter(c, 'i', 'I')
    ||| is_letter(c, 'n', 'N')
    ||| is_letter(c, 'f', 'F')
    ||| is_letter(c, 't', 'T')
    ||| is_letter(c, 'y', 'Y')
    ||| is_letter(c, 'a', 'A')
}

/// The run of digits lies within the text and holds digits only.
pub proof fn lemma_digits_end(s: Seq<char>, from: int)
    requires
        0 <= from <= s.len(),
    ensures
        from <= digits_end(s, from) <= s.len(),
        forall|i: int| from <= i < digits_end(s, from) ==> is_digit(s[i]),
        digits_end(s, from) < s.len() ==> !is_digit(s[digits_end(s, from)]),
    decreases s.len() - from,
{
    if from < s.len() && is_digit(s[from]) {
        lemma_digits_end(s, from + 1);
    }
}

/// A numeral is not empty and holds only the characters of numerals.
pub proof fn lemma_numeral_chars(s: Seq<char>)
    requires
        is_numeral(s),
    ensures
        s.len() > 0,
        forall|i: int| 0 <= i < s.len() ==> is_numeral_char(#[trigger] s[i]),
{
    let start = after_sign(s);
    let body = s.skip(start);
    if is_special(body) {
        assert forall|i: int| 0 <= i < s.len() implies is_numeral_char(#[trigger] s[i]) by {
            if i >= start {
                assert(body[i - start] == s[i]);
            }
        }
    } else {
        let point = digits_end(s, start);
        lemma_digits_end(s, start);
        let fraction = if point < s.len() && s[point] == '.' {
            point + 1
        } else {
            point
        };
        lemma_digits_end(s, fraction);
        let end = digits_end(s, fraction);
        if end < s.len() {
            let digits = if end + 1 < s.len() && is_sign(s[end + 1]) {
                end + 2
            } else {
                end + 1
            };
            lemma_digits_end(s, digits);
        }
    }
}

/// Tells whether the character is a decimal digit.
pub fn is_digit_char(c: char) -> (digit: bool)
    ensures
        digit == is_digit(c),
{
    c >= '0' && c <= '9'
}

/// Finds the end of the run of digits that starts at `from`.
fn skip_digits(chars: &[char], from: usize) -> (end: usize)
    requires
        from <= chars.len(),
    ensures
        end == digits_end(chars@, from as int),
        from <= end <= chars.len(),
{
    let mut end = from;
    while end < chars.len() && is_digit_char(chars[end])
        invariant
            from <= end <= chars.len(),
            digits_end(chars@, from as int) == digits_end(chars@, end as int),
        decreases chars.len() - end,
    {
        end += 1;
    }
    end
}

/// Tells whether the character is the letter, small or capital.
fn letter(c: char, small: char, capital: char) -> (same: bool)
    ensures
        same == is_letter(c, small, capital),
{
    c == small || c == capital
}

/// Tells whether the text from `from` on is `inf`, `infinity` or `nan`.
fn special_from(chars: &[char], from: usize) -> (special: bool)
    requires
        from <= chars.len(),
    ensures
        special == is_special(chars@.skip(from as int)),
{
    let ghost body = chars@.skip(from as int);
    assert(forall|i: int| 0 <= i < body.len() ==> body[i] == chars@[from + i]);
    let rest = chars.len() - from;
    if rest == 3 {
        (letter(chars[from], 'i', 'I') && letter(chars[from + 1], 'n', 'N') && letter(
            chars[from + 2],
            'f',
            'F',
        )) || (letter(chars[from], 'n', 'N') && letter(chars[from + 1], 'a', 'A') && letter(
            chars[from + 2],
            'n',
            'N',
        ))
    } else if rest == 8 {
        letter(chars[from], 'i', 'I') && letter(chars[from + 1], 'n', 'N') && letter(
            chars[from + 2],
            'f',
            'F',
        ) && letter(chars[from + 3], 'i', 'I') && letter(chars[from + 4], 'n', 'N') && letter(
            chars[from + 5],
            'i',
            'I',
        ) && letter(chars[from + 6], 't', 'T') && letter(chars[from + 7], 'y', 'Y')
    } else {
        false
    }
}

/// Tells whether the text from `from` on is a number without sign.
fn number_from(chars: &[char], from: usize) -> (number: bool)
    requires
        from <= chars.len(),
    ensures
        number == is_number(chars@, from as int),
{
    let point = skip_digits(chars, from);
    let fraction = if point < chars.len() && chars[point] == '.' {
        point + 1
    } else {
        point
    };
    let end = skip_digits(chars, fraction);
    if (point - from) + (end - fraction) < 1 {
        return false;
    }
    if end == chars.len() {
        return true;
    }
    if !letter(chars[end], 'e', 'E') {
        return false;
    }
    let digits = if end + 1 < chars.len() && (chars[end + 1] == '+' || chars[end + 1] == '-') {
        end + 2
    } else {
        end + 1
    };
    let last = skip_digits(chars, digits);
    digits < last && last == chars.len()
}

/// Tells whether the text is a numeral.
pub fn is_numeral_text(chars: &[char]) -> (numeral: bool)
    ensures
        numeral == is_numeral(chars@),
{
    let start: usize = if chars.len() > 0 && (chars[0] == '+' || chars[0] == '-') {
        1
    } else {
        0
    };
    special_from(chars, start) || number_from(chars, start)
}

} // verus!
