//! Character classes and small string helpers shared by the parser and the
//! persistence codec: ASCII whitespace, decimal digits, the character class
//! allowed in a task title, trimming, and appending single characters to a
//! `String`.

use vstd::prelude::*;

verus! {

/// ASCII whitespace, the characters trimmed from user input.
pub open spec fn is_space(c: char) -> bool {
    c == ' ' || c == '\t' || c == '\n' || c == '\r'
}

/// Decimal digit.
pub open spec fn is_digit(c: char) -> bool {
    48 <= (c as u32) && (c as u32) <= 57
}

/// Numeric value of a decimal digit character.
pub open spec fn digit_val(c: char) -> int {
    (c as u32) - 48
}

/// The digit character for a value in `0 ..= 9`.
pub open spec fn digit_char(d: int) -> char {
    if d == 0 {
        '0'
    } else if d == 1 {
        '1'
    } else if d == 2 {
        '2'
    } else if d == 3 {
        '3'
    } else if d == 4 {
        '4'
    } else if d == 5 {
        '5'
    } else if d == 6 {
        '6'
    } else if d == 7 {
        '7'
    } else if d == 8 {
        '8'
    } else {
        '9'
    }
}

pub proof fn lemma_digit_char_val(d: int)
    requires
        0 <= d <= 9,
    ensures
        is_digit(digit_char(d)),
        digit_val(digit_char(d)) == d,
{
}

/// The characters a task title may contain: letters, digits, and the
/// punctuation set `- _ ? . < >` together with the space.
pub open spec fn is_title_char(c: char) -> bool {
    ||| 65 <= (c as u32) && (c as u32) <= 90
    ||| 97 <= (c as u32) && (c as u32) <= 122
    ||| is_digit(c)
    ||| c == '-'
    ||| c == '_'
    ||| c == '?'
    ||| c == '.'
    ||| c == '<'
    ||| c == '>'
    ||| c == ' '
}

pub fn check_space(c: char) -> (r: bool)
    ensures
        r == is_space(c),
{
    c == ' ' || c == '\t' || c == '\n' || c == '\r'
}

pub fn check_digit(c: char) -> (r: bool)
    ensures
        r == is_digit(c),
{
    let u = c as u32;
    48 <= u && u <= 57
}

pub fn check_title_char(c: char) -> (r: bool)
    ensures
        r == is_title_char(c),
{
    let u = c as u32;
    (65 <= u && u <= 90) || (97 <= u && u <= 122) || (48 <= u && u <= 57) || c == '-' || c == '_'
        || c == '?' || c == '.' || c == '<' || c == '>' || c == ' '
}

pub fn digit_value(c: char) -> (v: u32)
    requires
        is_digit(c),
    ensures
        v == digit_val(c),
        v <= 9,
{
    (c as u32) - 48
}

pub fn digit_to_char(d: u32) -> (c: char)
    requires
        d <= 9,
    ensures
        c == digit_char(d as int),
{
    match d {
        0 => '0',
        1 => '1',
        2 => '2',
        3 => '3',
        4 => '4',
        5 => '5',
        6 => '6',
        7 => '7',
        8 => '8',
        _ => '9',
    }
}

/// Index of the first character at or after `i` that is not whitespace.
pub open spec fn first_non_space(s: Seq<char>, i: int) -> int
    decreases s.len() - i,
{
    if 0 <= i && i < s.len() && is_space(s[i]) {
        first_non_space(s, i + 1)
    } else {
        i
    }
}

/// End (exclusive) of the last non-whitespace character strictly before `j`.
pub open spec fn last_non_space_end(s: Seq<char>, j: int) -> int
    decreases j,
{
    if 0 < j && j <= s.len() && is_space(s[j - 1]) {
        last_non_space_end(s, j - 1)
    } else {
        j
    }
}

/// The input with leading and trailing ASCII whitespace removed.
pub open spec fn trim(s: Seq<char>) -> Seq<char> {
    let a = first_non_space(s, 0);
    let b = last_non_space_end(s, s.len() as int);
    if a <= b {
        s.subrange(a, b)
    } else {
        Seq::empty()
    }
}

proof fn lemma_first_non_space_bounds(s: Seq<char>, i: int)
    requires
        0 <= i <= s.len(),
    ensures
        i <= first_non_space(s, i) <= s.len(),
    decreases s.len() - i,
{
    if i < s.len() && is_space(s[i]) {
        lemma_first_non_space_bounds(s, i + 1);
    }
}

proof fn lemma_last_non_space_end_bounds(s: Seq<char>, j: int)
    requires
        0 <= j <= s.len(),
    ensures
        0 <= last_non_space_end(s, j) <= j,
    decreases j,
{
    if 0 < j && is_space(s[j - 1]) {
        lemma_last_non_space_end_bounds(s, j - 1);
    }
}

/// A slice holding `s` without its leading and trailing whitespace.
pub fn trim_str(s: &str) -> (r: &str)
    ensures
        r@ == trim(s@),
{
    let len = s.unicode_len();
    let mut a: usize = 0;
    while a < len && check_space(s.get_char(a))
        invariant
            0 <= a <= len,
            len == s@.len(),
            first_non_space(s@, 0) == first_non_space(s@, a as int),
        decreases len - a,
    {
        a = a + 1;
    }
    proof {
        lemma_first_non_space_bounds(s@, a as int);
        assert(first_non_space(s@, a as int) == a as int);
    }
    let mut b: usize = len;
    while b > 0 && check_space(s.get_char(b - 1))
        invariant
            0 <= b <= len,
            len == s@.len(),
            last_non_space_end(s@, len as int) == last_non_space_end(s@, b as int),
        decreases b,
    {
        b = b - 1;
    }
    proof {
        lemma_last_non_space_end_bounds(s@, b as int);
        assert(last_non_space_end(s@, b as int) == b as int);
    }
    if a <= b {
        s.substring_char(a, b)
    } else {
        proof {
            reveal_strlit("");
            assert(trim(s@) =~= Seq::<char>::empty());
        }
        ""
    }
}

/// Relies on `String::push`: appends exactly the one character.
#[verifier::external_body]
pub fn push_char(s: &mut String, c: char)
    ensures
        final(s)@ == old(s)@.push(c),
{
    s.push(c);
}

} // verus!
