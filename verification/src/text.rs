//! Character-level helpers: whitespace detection for blank-entry filtering
//! and decimal rendering of 1-based display indices.

use vstd::prelude::*;

verus! {

/// The characters with the Unicode `White_Space` property.
pub open spec fn is_whitespace_char(c: char) -> bool {
    c == ' ' || c == '\t' || c == '\n' || c == '\u{000B}' || c == '\u{000C}' || c == '\r'
        || c == '\u{0085}' || c == '\u{00A0}' || c == '\u{1680}' || c == '\u{2000}'
        || c == '\u{2001}' || c == '\u{2002}' || c == '\u{2003}' || c == '\u{2004}'
        || c == '\u{2005}' || c == '\u{2006}' || c == '\u{2007}' || c == '\u{2008}'
        || c == '\u{2009}' || c == '\u{200A}' || c == '\u{2028}' || c == '\u{2029}'
        || c == '\u{202F}' || c == '\u{205F}' || c == '\u{3000}'
}

/// A text is blank when every character of it is whitespace; in particular
/// the empty text is blank.  Blank entries are never stored as tasks.
pub open spec fn is_blank(s: Seq<char>) -> bool {
    forall|i: int| 0 <= i < s.len() ==> is_whitespace_char(#[trigger] s[i])
}

/// Decides whether one character has the Unicode `White_Space` property.
pub fn whitespace_char(c: char) -> (r: bool)
    ensures
        r == is_whitespace_char(c),
{
    c == ' ' || c == '\t' || c == '\n' || c == '\u{000B}' || c == '\u{000C}' || c == '\r'
        || c == '\u{0085}' || c == '\u{00A0}' || c == '\u{1680}' || c == '\u{2000}'
        || c == '\u{2001}' || c == '\u{2002}' || c == '\u{2003}' || c == '\u{2004}'
        || c == '\u{2005}' || c == '\u{2006}' || c == '\u{2007}' || c == '\u{2008}'
        || c == '\u{2009}' || c == '\u{200A}' || c == '\u{2028}' || c == '\u{2029}'
        || c == '\u{202F}' || c == '\u{205F}' || c == '\u{3000}'
}

/// Decides whether a text is blank (empty or whitespace only).
pub fn blank(s: &str) -> (r: bool)
    ensures
        r == is_blank(s@),
{
    let n = s.unicode_len();
    let mut i: usize = 0;
    while i < n
        invariant
            n == s@.len(),
            i <= n,
            forall|j: int| 0 <= j < i ==> is_whitespace_char(#[trigger] s@[j]),
        decreases n - i,
    {
        if !whitespace_char(s.get_char(i)) {
            return false;
        }
        i = i + 1;
    }
    true
}

/// The decimal digit character for a value below ten.
pub open spec fn digit_char(d: nat) -> char {
    if d == 0 {
        '0'
    } else if d == 1 {
        '1'
    } else if d == 2 {
        '2'
    } else if d == 3 {
        '3'
    } else if d == 4 {
        '4'
    } else if d == 5 {
        '5'
    } else if d == 6 {
        '6'
    } else if d == 7 {
        '7'
    } else if d == 8 {
        '8'
    } else {
        '9'
    }
}

/// The canonical decimal rendering of a natural number: no sign, no
/// leading zero except for the number zero itself.
pub open spec fn dec_str(n: nat) -> Seq<char>
    decreases n,
{
    if n < 10 {
        seq![digit_char(n)]
    } else {
        dec_str(n / 10).push(digit_char(n % 10))
    }
}

/// Every character of a decimal rendering is a digit; in particular the
/// rendering never equals a word such as a selector keyword.
pub proof fn lemma_dec_str_digits(n: nat)
    ensures
        dec_str(n).len() >= 1,
        forall|i: int|
            0 <= i < dec_str(n).len() ==> exists|d: nat| d < 10 && #[trigger] dec_str(n)[i]
                == digit_char(d),
    decreases n,
{
    if n < 10 {
        assert(dec_str(n)[0] == digit_char(n));
    } else {
        lemma_dec_str_digits(n / 10);
        assert forall|i: int| 0 <= i < dec_str(n).len() implies exists|d: nat| d < 10
            && #[trigger] dec_str(n)[i] == digit_char(d) by {
            if i < dec_str(n).len() - 1 {
                assert(dec_str(n)[i] == dec_str(n / 10)[i]);
            } else {
                assert(n % 10 < 10);
                assert(dec_str(n)[i] == digit_char(n % 10));
            }
        }
    }
}

/// The digit character for a value below ten.
pub fn digit(d: usize) -> (r: char)
    requires
        d < 10,
    ensures
        r == digit_char(d as nat),
{
    if d == 0 {
        '0'
    } else if d == 1 {
        '1'
    } else if d == 2 {
        '2'
    } else if d == 3 {
        '3'
    } else if d == 4 {
        '4'
    } else if d == 5 {
        '5'
    } else if d == 6 {
        '6'
    } else if d == 7 {
        '7'
    } else if d == 8 {
        '8'
    } else {
        '9'
    }
}

/// The decimal rendering of `n`, as characters.
pub fn dec_chars(n: usize) -> (r: Vec<char>)
    ensures
        r@ == dec_str(n as nat),
    decreases n,
{
    if n < 10 {
        let mut v: Vec<char> = Vec::new();
        v.push(digit(n));
        v
    } else {
        let mut v = dec_chars(n / 10);
        v.push(digit(n % 10));
        v
    }
}

/// Whether a character is a decimal digit.
pub open spec fn is_digit_char(c: char) -> bool {
    c == '0' || c == '1' || c == '2' || c == '3' || c == '4' || c == '5' || c == '6' || c == '7'
        || c == '8' || c == '9'
}

/// The count of leading decimal digits of a text.
pub open spec fn digit_run(s: Seq<char>) -> int
    decreases s.len(),
{
    if s.len() == 0 {
        0
    } else if !is_digit_char(s[0]) {
        0
    } else {
        1 + digit_run(s.drop_first())
    }
}

/// The digit run ends exactly where the digits end.
pub proof fn lemma_digit_run_at(s: Seq<char>, k: int)
    requires
        0 <= k <= s.len(),
        forall|j: int| 0 <= j < k ==> is_digit_char(#[trigger] s[j]),
        k < s.len() ==> !is_digit_char(s[k]),
    ensures
        digit_run(s) == k,
    decreases s.len(),
{
    if s.len() == 0 {
    } else if k == 0 {
    } else {
        assert(is_digit_char(s[0]));
        assert(forall|j: int|
            0 <= j < k - 1 ==> (#[trigger] s.drop_first()[j]) == s[j + 1]);
        if k - 1 < s.drop_first().len() {
            assert(s.drop_first()[k - 1] == s[k]);
        }
        lemma_digit_run_at(s.drop_first(), k - 1);
    }
}

/// Decides whether a character is a decimal digit.
pub fn digit_test(c: char) -> (r: bool)
    ensures
        r == is_digit_char(c),
{
    c == '0' || c == '1' || c == '2' || c == '3' || c == '4' || c == '5' || c == '6' || c == '7'
        || c == '8' || c == '9'
}

/// A copy of the characters between two positions.
pub fn copy_range(chars: &Vec<char>, a: usize, b: usize) -> (r: Vec<char>)
    requires
        a <= b <= chars@.len(),
    ensures
        r@ == chars@.subrange(a as int, b as int),
{
    let mut r: Vec<char> = Vec::new();
    let mut i: usize = a;
    while i < b
        invariant
            a <= i <= b <= chars@.len(),
            r@ == chars@.subrange(a as int, i as int),
        decreases b - i,
    {
        r.push(chars[i]);
        i = i + 1;
        proof {
            assert(r@ =~= chars@.subrange(a as int, i as int));
        }
    }
    r
}

/// Relies on `String: FromIterator<char>`: collecting characters yields the
/// string that holds exactly those characters in order.
#[verifier::external_body]
pub fn chars_to_string(v: &Vec<char>) -> (r: String)
    ensures
        r@ == v@,
{
    v.iter().collect()
}

/// The characters of a text, as a vector.
pub fn string_to_chars(s: &str) -> (r: Vec<char>)
    ensures
        r@ == s@,
{
    let n = s.unicode_len();
    let mut v: Vec<char> = Vec::new();
    let mut i: usize = 0;
    while i < n
        invariant
            n == s@.len(),
            i <= n,
            v@ == s@.subrange(0, i as int),
        decreases n - i,
    {
        v.push(s.get_char(i));
        i = i + 1;
        proof {
            assert(v@ =~= s@.subrange(0, i as int));
        }
    }
    proof {
        assert(v@ =~= s@);
    }
    v
}

} // verus!
