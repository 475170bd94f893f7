//! Character-level helpers shared by the parsers: what counts as white space,
//! and access to the characters of a string.

use vstd::prelude::*;

verus! {

/// The characters that carry Unicode's `White_Space` property.
pub open spec fn is_white_space(c: char) -> bool {
    let u = c as u32;
    ||| 0x09 <= u <= 0x0d
    ||| u == 0x20
    ||| u == 0x85
    ||| u == 0xa0
    ||| u == 0x1680
    ||| 0x2000 <= u <= 0x200a
    ||| u == 0x2028
    ||| u == 0x2029
    ||| u == 0x202f
    ||| u == 0x205f
    ||| u == 0x3000
}

/// `char::is_whitespace`, which the standard library documents as testing the
/// Unicode `White_Space` property; the contract lists that property's characters.
#[verifier::external_body]
pub fn char_is_whitespace(c: char) -> (r: bool)
    ensures
        r == is_white_space(c),
{
    c.is_whitespace()
}

/// The characters of a string, in order.
pub fn str_chars(s: &str) -> (v: Vec<char>)
    ensures
        v@ == s@,
{
    let mut v: Vec<char> = Vec::new();
    for c in it: s.chars()
        invariant
            v@ == it.seq().take(it.index() as int),
    {
        v.push(c);
    }
    v
}

} // verus!

verus! {

/// `String::push`: appends one character.
#[verifier::external_body]
pub fn push_char(s: &mut String, c: char)
    ensures
        final(s)@ == old(s)@.push(c),
{
    s.push(c);
}

/// Appends `n` copies of `c`.
pub fn push_repeat(s: &mut String, c: char, n: usize)
    ensures
        final(s)@ == old(s)@ + Seq::new(n as nat, |i: int| c),
{
    let mut k: usize = 0;
    while k < n
        invariant
            k <= n,
            s@ == old(s)@ + Seq::new(k as nat, |i: int| c),
        decreases n - k,
    {
        push_char(s, c);
        k = k + 1;
        assert(s@ =~= old(s)@ + Seq::new(k as nat, |i: int| c));
    }
}

/// Appends the characters of `t`.
pub fn push_text(s: &mut String, t: &str)
    ensures
        final(s)@ == old(s)@ + t@,
{
    let cs = str_chars(t);
    let mut i: usize = 0;
    while i < cs.len()
        invariant
            i <= cs@.len(),
            cs@ == t@,
            s@ == old(s)@ + t@.take(i as int),
        decreases cs@.len() - i,
    {
        push_char(s, cs[i]);
        assert(t@.take(i + 1) =~= t@.take(i as int).push(t@[i as int]));
        i = i + 1;
    }
    assert(t@.take(i as int) =~= t@);
}

} // verus!

verus! {

/// The decimal digits of `n`, most significant first, without leading zeros.
pub open spec fn decimal(n: nat) -> Seq<char>
    decreases n,
{
    if n < 10 {
        seq![digit_char(n)]
    } else {
        decimal(n / 10).push(digit_char(n % 10))
    }
}

/// The ASCII digit for `d < 10`.
pub open spec fn digit_char(d: nat) -> char {
    (('0' as u32) + d) as char
}

/// `s` followed by the decimal digits of `n`.
pub fn push_decimal(s: &mut String, n: usize)
    ensures
        final(s)@ == old(s)@ + decimal(n as nat),
{
    push_decimal_u64(s, n as u64);
}

/// `s` followed by the decimal digits of `n`.
pub fn push_decimal_u64(s: &mut String, n: u64)
    ensures
        final(s)@ == old(s)@ + decimal(n as nat),
    decreases n,
{
    if n >= 10 {
        push_decimal_u64(s, n / 10);
    }
    let d = (n % 10) as usize;
    let c = char_from_digit(d);
    push_char(s, c);
    proof {
        if n >= 10 {
            assert(old(s)@ + decimal((n / 10) as nat) + seq![c] =~= old(s)@ + decimal(n as nat));
        } else {
            assert(old(s)@ + seq![c] =~= old(s)@ + decimal(n as nat));
        }
    }
}

/// `n` in decimal, with a `-` in front when it is negative.
pub open spec fn signed_text(n: int) -> Seq<char> {
    if n < 0 { seq!['-'] + decimal((-n) as nat) } else { decimal(n as nat) }
}

/// The size of a negative `i64`.
pub(crate) fn magnitude(n: i64) -> (m: u64)
    ensures
        m as int == (if n < 0 { -n } else { n as int }),
{
    if n < 0 {
        let k: i64 = -(n + 1);
        (k as u64) + 1
    } else {
        n as u64
    }
}

/// Appends `n` in decimal, with its sign when negative.
pub fn push_signed(s: &mut String, n: i64)
    ensures
        final(s)@ == old(s)@ + signed_text(n as int),
{
    if n < 0 {
        push_char(s, '-');
        let m = magnitude(n);
        push_decimal_u64(s, m);
        assert(final(s)@ =~= old(s)@ + signed_text(n as int));
    } else {
        push_decimal_u64(s, n as u64);
    }
}

/// The ASCII digit character for `d`.
fn char_from_digit(d: usize) -> (c: char)
    requires
        d < 10,
    ensures
        c == digit_char(d as nat),
{
    if d == 0 { '0' } else if d == 1 { '1' } else if d == 2 { '2' } else if d == 3 { '3' }
    else if d == 4 { '4' } else if d == 5 { '5' } else if d == 6 { '6' } else if d == 7 { '7' }
    else if d == 8 { '8' } else { '9' }
}

} // verus!

verus! {

/// The value of a string of ASCII digits.
pub open spec fn digits_value(s: Seq<char>) -> nat
    decreases s.len(),
{
    if s.len() == 0 { 0 } else { 10 * digits_value(s.drop_last()) + ((s.last() as u32) - ('0' as u32)) as nat }
}

/// Every character is an ASCII digit.
pub open spec fn all_digits(s: Seq<char>) -> bool {
    forall|i: int| 0 <= i < s.len() ==> '0' <= #[trigger] s[i] <= '9'
}

/// What `usize::from_str` reads: an optional `+` then at least one ASCII digit,
/// with a value that fits.
pub open spec fn unsigned_decimal(s: Seq<char>) -> Option<nat> {
    let t = if s.len() > 0 && s[0] == '+' { s.drop_first() } else { s };
    if t.len() > 0 && all_digits(t) && digits_value(t) <= usize::MAX {
        Some(digits_value(t))
    } else {
        None
    }
}

/// The number that a signed decimal reads: an optional `+` or `-`, then at
/// least one ASCII digit and nothing else.
pub open spec fn signed_decimal(s: Seq<char>) -> Option<int> {
    if s.len() > 0 && (s[0] == '+' || s[0] == '-') {
        let t = s.drop_first();
        if t.len() > 0 && all_digits(t) {
            Some(if s[0] == '-' { -(digits_value(t) as int) } else { digits_value(t) as int })
        } else {
            None
        }
    } else if s.len() > 0 && all_digits(s) {
        Some(digits_value(s) as int)
    } else {
        None
    }
}

/// `usize::from_str`, which the standard library documents as reading an optional
/// `+` followed by decimal digits, failing on anything else or on overflow.
#[verifier::external_body]
pub(crate) fn usize_from_decimal(s: &str) -> (r: Option<usize>)
    ensures
        match unsigned_decimal(s@) {
            Some(v) => r == Some(v as usize),
            None => r is None,
        },
{
    s.parse::<usize>().ok()
}

/// `i8::from_str_radix(s, 10)`, which the standard library documents as reading an
/// optional sign followed by decimal digits, failing on anything else or on a value
/// outside `i8`.
#[verifier::external_body]
pub(crate) fn i8_from_decimal(s: &str) -> (r: Option<i8>)
    ensures
        match signed_decimal(s@) {
            Some(v) => if -128 <= v <= 127 { r == Some(v as i8) } else { r is None },
            None => r is None,
        },
{
    i8::from_str_radix(s, 10).ok()
}

/// `i64::from_str`, which the standard library documents as reading an optional
/// sign followed by decimal digits, failing on anything else or on a value
/// outside `i64`.
#[verifier::external_body]
pub(crate) fn i64_from_decimal(s: &str) -> (r: Option<i64>)
    ensures
        match signed_decimal(s@) {
            Some(v) => if i64::MIN <= v <= i64::MAX { r == Some(v as i64) } else { r is None },
            None => r is None,
        },
{
    s.parse::<i64>().ok()
}

/// The text without the white space at either end.
pub open spec fn trimmed(s: Seq<char>) -> Seq<char> {
    let a = first_non_space(s, 0);
    let b = last_non_space_end(s, s.len());
    if a < b { s.subrange(a as int, b as int) } else { Seq::empty() }
}

/// The first index at or after `i` whose character is not white space.
pub open spec fn first_non_space(s: Seq<char>, i: nat) -> nat
    decreases s.len() - i,
{
    if i < s.len() && is_white_space(s[i as int]) { first_non_space(s, i + 1) } else { i }
}

/// The end of the text up to `j` once white space at its end is dropped.
pub open spec fn last_non_space_end(s: Seq<char>, j: nat) -> nat
    decreases j,
{
    if j > 0 && j <= s.len() && is_white_space(s[j - 1]) { last_non_space_end(s, (j - 1) as nat) } else { j }
}

/// The text without white space at either end, as `str::trim` gives it.
pub fn trim_text(s: &str) -> (t: String)
    ensures
        t@ == trimmed(s@),
{
    let cs = str_chars(s);
    let n = cs.len();
    let mut a: usize = 0;
    while a < n && char_is_whitespace(cs[a])
        invariant
            a <= n,
            n == cs@.len(),
            cs@ == s@,
            first_non_space(s@, 0) == first_non_space(s@, a as nat),
        decreases n - a,
    {
        a = a + 1;
    }
    let mut b: usize = n;
    while b > 0 && char_is_whitespace(cs[b - 1])
        invariant
            b <= n,
            n == cs@.len(),
            cs@ == s@,
            last_non_space_end(s@, s@.len()) == last_non_space_end(s@, b as nat),
        decreases b,
    {
        b = b - 1;
    }
    let mut t = String::new();
    if a < b {
        let mut i: usize = a;
        while i < b
            invariant
                a <= i <= b <= n,
                n == cs@.len(),
                cs@ == s@,
                t@ == s@.subrange(a as int, i as int),
            decreases b - i,
        {
            push_char(&mut t, cs[i]);
            assert(s@.subrange(a as int, i + 1) =~= s@.subrange(a as int, i as int).push(s@[i as int]));
            i = i + 1;
        }
    } else {
        assert(t@ =~= Seq::<char>::empty());
    }
    t
}

} // verus!
