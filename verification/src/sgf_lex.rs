//! The tokens of the Smart Game Format (SGF).
//!
//! Six tokens are recognised, numbered as the parser refers to them:
//!
//! * 0: a property, one or more upper-case ASCII letters followed by one or more
//!   values, each `[`, any characters other than `]`, and `]`, with white space
//!   allowed between values (e.g. `KM[6.5]`, `AB[dd][pp]`),
//! * 1: `;`,  2: `(`,  3: `)`,  4: `[`,  5: `]`.
//!
//! White space between tokens is skipped.  Token positions are byte offsets
//! into the UTF-8 text.

use vstd::prelude::*;
use crate::text::{char_is_whitespace, is_white_space, push_char, str_chars};

verus! {

/// The number of bytes that UTF-8 uses for `c`.
pub open spec fn utf8_len(c: char) -> nat {
    let u = c as u32;
    if u < 0x80 { 1 } else if u < 0x800 { 2 } else if u < 0x10000 { 3 } else { 4 }
}

/// The number of bytes that UTF-8 uses for `s`.
pub open spec fn byte_len(s: Seq<char>) -> nat
    decreases s.len(),
{
    if s.len() == 0 { 0 } else { byte_len(s.drop_last()) + utf8_len(s.last()) }
}

/// An upper-case ASCII letter.
pub open spec fn is_upper(c: char) -> bool {
    'A' <= c <= 'Z'
}

/// The first index at or after `i` whose character is not white space.
pub open spec fn skip_ws(s: Seq<char>, i: nat) -> nat
    decreases s.len() - i,
{
    if i < s.len() && is_white_space(s[i as int]) { skip_ws(s, i + 1) } else { i }
}

/// The first index at or after `i` whose character is not an upper-case letter.
pub open spec fn upper_run_end(s: Seq<char>, i: nat) -> nat
    decreases s.len() - i,
{
    if i < s.len() && is_upper(s[i as int]) { upper_run_end(s, i + 1) } else { i }
}

/// The first index at or after `i` that holds `]`, or the length if there is none.
pub open spec fn close_bracket(s: Seq<char>, i: nat) -> nat
    decreases s.len() - i,
{
    if i < s.len() && s[i as int] != ']' { close_bracket(s, i + 1) } else { i }
}

/// The end of the values of a property whose values so far end just before `e`:
/// further values `[...]` may follow, after white space.
pub open spec fn values_end(s: Seq<char>, e: nat) -> nat
    decreases s.len() - e,
{
    let w = skip_ws(s, e);
    if w < s.len() && s[w as int] == '[' {
        let c = close_bracket(s, w + 1);
        if c < s.len() && c + 1 > e { values_end(s, c + 1) } else { e }
    } else {
        e
    }
}

/// The kind of the token that starts at `i` and the index just past it.
pub open spec fn token_at(s: Seq<char>, i: nat) -> Option<(nat, nat)> {
    if i >= s.len() {
        None
    } else {
        let c = s[i as int];
        if c == ';' { Some((1nat, i + 1)) }
        else if c == '(' { Some((2nat, i + 1)) }
        else if c == ')' { Some((3nat, i + 1)) }
        else if c == '[' { Some((4nat, i + 1)) }
        else if c == ']' { Some((5nat, i + 1)) }
        else if is_upper(c) {
            let k = upper_run_end(s, i);
            if k < s.len() && s[k as int] == '[' {
                let e = close_bracket(s, k + 1);
                if e < s.len() { Some((0nat, values_end(s, e + 1))) } else { None }
            } else {
                None
            }
        } else {
            None
        }
    }
}

/// A token as the specification sees it: kind, first and last-plus-one character index.
pub struct SpecToken {
    pub kind: nat,
    pub start: nat,
    pub end: nat,
}

/// The tokens of `s` from index `i` on, and the index of the first character
/// that starts no token, if lexing stops there.
pub open spec fn lex_from(s: Seq<char>, i: nat) -> (Seq<SpecToken>, Option<nat>)
    decreases s.len() - i,
{
    let j = skip_ws(s, i);
    if j >= s.len() {
        (Seq::empty(), None)
    } else {
        match token_at(s, j) {
            Some((kind, e)) => if e > i && e <= s.len() {
                let (rest, err) = lex_from(s, e);
                (seq![SpecToken { kind, start: j, end: e }] + rest, err)
            } else {
                (Seq::empty(), None)
            },
            None => (Seq::empty(), Some(j)),
        }
    }
}

/// A token: its kind and its text.
#[derive(Clone, Debug, PartialEq, Eq)]
pub struct Token(pub usize, pub String);

/// Cuts a text into tokens, one at a time.
pub struct __Matcher {
    text: Vec<char>,
    consumed: usize,
    consumed_bytes: usize,
}

impl __Matcher {
    /// The characters being cut.
    pub closed spec fn chars(&self) -> Seq<char> {
        self.text@
    }

    /// The character index at which cutting resumes.
    pub closed spec fn position(&self) -> nat {
        self.consumed as nat
    }

    /// The matcher is consistent: its byte offset is that of its character index.
    pub closed spec fn wf(&self) -> bool {
        &&& self.consumed <= self.text@.len()
        &&& self.consumed_bytes == byte_len(self.text@.take(self.consumed as int))
        &&& byte_len(self.text@) <= usize::MAX
    }

    /// A matcher at the start of `s`.
    pub fn new(s: &str) -> (m: __Matcher)
        ensures
            m.wf(),
            m.chars() == s@,
            m.position() == 0,
            byte_len(m.chars()) <= usize::MAX,
    {
        let _bytes = str_byte_len(s);
        let text = str_chars(s);
        let m = __Matcher { text, consumed: 0, consumed_bytes: 0 };
        assert(m.text@.take(0) =~= Seq::<char>::empty());
        m
    }

    /// The next token with its byte offsets, `None` at the end of the text, or an
    /// error with the byte offset of a character that starts no token.
    pub fn next(&mut self) -> (r: Option<Result<(usize, Token, usize), usize>>)
        requires
            old(self).wf(),
        ensures
            final(self).wf(),
            final(self).chars() == old(self).chars(),
            ({
                let s = old(self).chars();
                let (toks, err) = lex_from(s, old(self).position());
                match r {
                    None => toks.len() == 0 && err is None,
                    Some(Err(loc)) => toks.len() == 0 && err == Some(skip_ws(s, old(self).position()))
                        && loc == byte_len(s.take(skip_ws(s, old(self).position()) as int))
                        && final(self).position() == old(self).position(),
                    Some(Ok((start, tok, end))) => toks.len() > 0
                        && tok.0 == toks[0].kind
                        && tok.1@ == s.subrange(toks[0].start as int, toks[0].end as int)
                        && start == byte_len(s.take(toks[0].start as int))
                        && end == byte_len(s.take(toks[0].end as int))
                        && final(self).position() == toks[0].end
                        && lex_from(s, final(self).position()) == (toks.drop_first(), err),
                }
            }),
    {
        proof { lemma_byte_len_mono(self.text@, self.consumed as nat, self.text@.len()); }
        let n = self.text.len();
        let mut j = self.consumed;
        let mut jb = self.consumed_bytes;
        while j < n && char_is_whitespace(self.text[j])
            invariant
                self.wf(),
                n == self.text@.len(),
                self.consumed <= j <= n,
                skip_ws(self.text@, self.consumed as nat) == skip_ws(self.text@, j as nat),
                jb == byte_len(self.text@.take(j as int)),
                byte_len(self.text@) <= usize::MAX,
            decreases n - j,
        {
            proof { lemma_byte_len_step(self.text@, j as nat); lemma_byte_len_mono(self.text@, (j + 1) as nat, n as nat); }
            jb = jb + char_utf8_len(self.text[j]);
            j = j + 1;
        }
        let ghost s = self.text@;
        if j >= n {
            self.consumed = j;
            self.consumed_bytes = jb;
            return None;
        }
        let c = self.text[j];
        let mut e: usize = j + 1;
        let mut kind: usize = 0;
        let mut ok = true;
        if c == ';' { kind = 1; }
        else if c == '(' { kind = 2; }
        else if c == ')' { kind = 3; }
        else if c == '[' { kind = 4; }
        else if c == ']' { kind = 5; }
        else if 'A' <= c && c <= 'Z' {
            let mut k = j;
            while k < n && 'A' <= self.text[k] && self.text[k] <= 'Z'
                invariant
                    j <= k <= n,
                    n == self.text@.len(),
                    upper_run_end(self.text@, j as nat) == upper_run_end(self.text@, k as nat),
                decreases n - k,
            {
                k = k + 1;
            }
            if k < n && self.text[k] == '[' {
                let mut b = k + 1;
                while b < n && self.text[b] != ']'
                    invariant
                        k + 1 <= b <= n,
                        n == self.text@.len(),
                        close_bracket(self.text@, (k + 1) as nat) == close_bracket(self.text@, b as nat),
                    decreases n - b,
                {
                    b = b + 1;
                }
                if b < n {
                    e = b + 1;
                    let ghost first = e as nat;
                    loop
                        invariant
                            first <= e <= n,
                            n == self.text@.len(),
                            values_end(self.text@, first) == values_end(self.text@, e as nat),
                        ensures
                            first <= e <= n,
                            values_end(self.text@, first) == e as nat,
                        decreases n - e,
                    {
                        let mut w = e;
                        while w < n && char_is_whitespace(self.text[w])
                            invariant
                                e <= w <= n,
                                n == self.text@.len(),
                                skip_ws(self.text@, e as nat) == skip_ws(self.text@, w as nat),
                            decreases n - w,
                        {
                            w = w + 1;
                        }
                        assert(skip_ws(self.text@, w as nat) == w as nat);
                        if w < n && self.text[w] == '[' {
                            let mut c = w + 1;
                            while c < n && self.text[c] != ']'
                                invariant
                                    w + 1 <= c <= n,
                                    n == self.text@.len(),
                                    close_bracket(self.text@, (w + 1) as nat) == close_bracket(self.text@, c as nat),
                                decreases n - c,
                            {
                                c = c + 1;
                            }
                            assert(close_bracket(self.text@, c as nat) == c as nat);
                            if c < n {
                                e = c + 1;
                            } else {
                                break;
                            }
                        } else {
                            break;
                        }
                    }
                } else {
                    ok = false;
                }
            } else {
                ok = false;
            }
        } else {
            ok = false;
        }
        if !ok {
            proof {
                assert(skip_ws(s, old(self).consumed as nat) == j as nat);
                assert(token_at(s, j as nat) is None);
                assert(lex_from(s, old(self).consumed as nat).1 == Some(j as nat));
            }
            return Some(Err(jb));
        }
        // The token is text[j..e].
        let mut text = String::new();
        let mut eb = jb;
        let mut t = j;
        while t < e
            invariant
                j <= t <= e,
                e <= n,
                n == self.text@.len(),
                text@ == self.text@.subrange(j as int, t as int),
                eb == byte_len(self.text@.take(t as int)),
                byte_len(self.text@) <= usize::MAX,
            decreases e - t,
        {
            proof { lemma_byte_len_step(self.text@, t as nat); lemma_byte_len_mono(self.text@, (t + 1) as nat, n as nat); }
            push_char(&mut text, self.text[t]);
            assert(self.text@.subrange(j as int, t + 1) =~= self.text@.subrange(j as int, t as int).push(self.text@[t as int]));
            eb = eb + char_utf8_len(self.text[t]);
            t = t + 1;
        }
        self.consumed = e;
        self.consumed_bytes = eb;
        proof {
            let (toks, err) = lex_from(s, old(self).consumed as nat);
            assert(skip_ws(s, old(self).consumed as nat) == j as nat);
            assert(token_at(s, j as nat) == Some((kind as nat, e as nat)));
            let (rest, err2) = lex_from(s, e as nat);
            assert(toks =~= seq![SpecToken { kind: kind as nat, start: j as nat, end: e as nat }] + rest);
            assert(toks.drop_first() =~= rest);
        }
        Some(Ok((jb, Token(kind, text), eb)))
    }
}

/// `str::len`, which the standard library documents as the length of the text in
/// bytes: the size of its UTF-8 encoding.
#[verifier::external_body]
fn str_byte_len(s: &str) -> (n: usize)
    ensures
        n as nat == byte_len(s@),
{
    s.len()
}

/// The bytes that UTF-8 uses for `c`.
pub(crate) fn char_utf8_len(c: char) -> (n: usize)
    ensures
        n == utf8_len(c),
{
    let u = c as u32;
    if u < 0x80 { 1 } else if u < 0x800 { 2 } else if u < 0x10000 { 3 } else { 4 }
}

proof fn lemma_byte_len_step(s: Seq<char>, i: nat)
    requires
        i < s.len(),
    ensures
        byte_len(s.take(i as int + 1)) == byte_len(s.take(i as int)) + utf8_len(s[i as int]),
{
    assert(s.take(i as int + 1).drop_last() =~= s.take(i as int));
}

proof fn lemma_byte_len_mono(s: Seq<char>, i: nat, j: nat)
    requires
        i <= j <= s.len(),
    ensures
        byte_len(s.take(i as int)) <= byte_len(s.take(j as int)),
        byte_len(s.take(s.len() as int)) == byte_len(s),
    decreases j - i,
{
    assert(s.take(s.len() as int) =~= s);
    if i < j {
        lemma_byte_len_mono(s, i, (j - 1) as nat);
        lemma_byte_len_step(s, (j - 1) as nat);
    }
}

} // verus!
