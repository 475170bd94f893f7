//! Go game records in the Smart Game Format (SGF).
//!
//! The grammar that is read:
//!
//! ```text
//! Collection = GameTree*
//! GameTree   = "(" Node+ GameTree* ")"
//! Node       = ";" Property*
//! Property   = ident "[" value "]"      (one token, see `sgf_lex`)
//! ```

use vstd::prelude::*;
use crate::sgf_lex::{byte_len, lex_from, upper_run_end, close_bracket, skip_ws, is_upper, utf8_len, char_utf8_len, SpecToken, Token, __Matcher};
use crate::text::{char_is_whitespace, push_char, str_chars, unsigned_decimal, usize_from_decimal};

verus! {

/// A token as the parser sees it: its kind and its text.
pub type TokenView = (nat, Seq<char>);

/// A property as an identifier and a value.
pub type PairView = (Seq<char>, Seq<char>);

/// The kind of token `i`, or 6 past the end.
pub open spec fn kind_at(ts: Seq<TokenView>, i: nat) -> nat {
    if i < ts.len() { ts[i as int].0 } else { 6 }
}

/// The first index at or after `i` that is not a property token.
pub open spec fn props_end(ts: Seq<TokenView>, i: nat) -> nat
    decreases ts.len() - i,
{
    if i < ts.len() && ts[i as int].0 == 0 { props_end(ts, i + 1) } else { i }
}

/// The index of the `[` that opens the last value of a property token, searching
/// from the value that opens at `o`.
pub open spec fn last_open(text: Seq<char>, o: nat) -> nat
    decreases text.len() - o,
{
    let c = close_bracket(text, o + 1);
    let w = skip_ws(text, c + 1);
    if c + 1 < text.len() && w < text.len() && text[w as int] == '[' && w > o { last_open(text, w) } else { o }
}

/// The identifier and last value of a property token `IDENT[value]...[value]`.
pub open spec fn prop_pair(text: Seq<char>) -> PairView {
    let k = upper_run_end(text, 0);
    let o = last_open(text, k) as int;
    if o + 2 <= text.len() { (text.take(k as int), text.subrange(o + 1, text.len() - 1)) } else { (text.take(k as int), Seq::empty()) }
}

/// The properties of the node whose `;` is token `i`.
pub open spec fn node_at(ts: Seq<TokenView>, i: nat) -> Seq<PairView> {
    let e = props_end(ts, i + 1);
    Seq::new((e - (i + 1)) as nat, |k: int| prop_pair(ts[i + 1 + k].1))
}

/// The nodes that start at token `i`, one per `;`.
pub open spec fn nodes_from(ts: Seq<TokenView>, i: nat) -> Seq<Seq<PairView>>
    decreases ts.len() - i,
{
    if kind_at(ts, i) == 1 {
        let e = props_end(ts, i + 1);
        if e > i && e <= ts.len() { seq![node_at(ts, i)] + nodes_from(ts, e) } else { Seq::empty() }
    } else {
        Seq::empty()
    }
}

/// The index just past the nodes that start at token `i`.
pub open spec fn nodes_end(ts: Seq<TokenView>, i: nat) -> nat
    decreases ts.len() - i,
{
    if kind_at(ts, i) == 1 {
        let e = props_end(ts, i + 1);
        if e > i && e <= ts.len() { nodes_end(ts, e) } else { i }
    } else {
        i
    }
}

/// The value of the last property named `key`.
pub open spec fn last_value(pairs: Seq<PairView>, key: Seq<char>) -> Option<Seq<char>>
    decreases pairs.len(),
{
    if pairs.len() == 0 {
        None
    } else if pairs.last().0 == key {
        Some(pairs.last().1)
    } else {
        last_value(pairs.drop_last(), key)
    }
}

/// The value of the first node (in order) that has a property named `key`.
pub open spec fn first_node_value(nodes: Seq<Seq<PairView>>, key: Seq<char>) -> Option<Seq<char>>
    decreases nodes.len(),
{
    if nodes.len() == 0 {
        None
    } else if last_value(nodes[0], key) is Some {
        last_value(nodes[0], key)
    } else {
        first_node_value(nodes.drop_first(), key)
    }
}

pub open spec fn key_km() -> Seq<char> { seq!['K', 'M'] }
pub open spec fn key_sz() -> Seq<char> { seq!['S', 'Z'] }
pub open spec fn key_ha() -> Seq<char> { seq!['H', 'A'] }

/// The komi as written in the first node, `0.0` if it gives none.
pub open spec fn komi_text(nodes: Seq<Seq<PairView>>) -> Seq<char> {
    match last_value(nodes[0], key_km()) { Some(v) => v, None => seq!['0', '.', '0'] }
}

/// The first index at or after `i` whose character is not an ASCII digit.
pub open spec fn digits_end(s: Seq<char>, i: nat) -> nat
    decreases s.len() - i,
{
    if i < s.len() && '0' <= s[i as int] <= '9' { digits_end(s, i + 1) } else { i }
}

/// The text spells the word whose small letters are `lo` and whose capitals are
/// `up`, each letter in either case.
pub open spec fn spells(t: Seq<char>, lo: Seq<char>, up: Seq<char>) -> bool {
    &&& t.len() == lo.len()
    &&& forall|i: int| 0 <= i < t.len() ==> #[trigger] t[i] == lo[i] || t[i] == up[i]
}

/// The text is one of the words `inf`, `infinity` and `nan`, in any case.
pub open spec fn is_float_word(t: Seq<char>) -> bool {
    ||| spells(t, seq!['i', 'n', 'f'], seq!['I', 'N', 'F'])
    ||| spells(t, seq!['i', 'n', 'f', 'i', 'n', 'i', 't', 'y'], seq!['I', 'N', 'F', 'I', 'N', 'I', 'T', 'Y'])
    ||| spells(t, seq!['n', 'a', 'n'], seq!['N', 'A', 'N'])
}

/// The text is a number as a floating-point reader takes it: an optional sign,
/// then either one of the words `inf`, `infinity` and `nan` in any case, or
/// digits with an optional fraction (at least one digit in all) and an optional
/// exponent `e` or `E` with an optional sign and at least one digit.
pub open spec fn is_number_text(s: Seq<char>) -> bool {
    let a: nat = if s.len() > 0 && (s[0] == '+' || s[0] == '-') { 1 } else { 0 };
    let b = digits_end(s, a);
    let has_point = b < s.len() && s[b as int] == '.';
    let c = if has_point { digits_end(s, b + 1) } else { b };
    let digits = if has_point { (b - a) + (c - (b + 1)) } else { b - a };
    ||| is_float_word(s.skip(a as int))
    ||| {
        &&& digits > 0
        &&& if c < s.len() && (s[c as int] == 'e' || s[c as int] == 'E') {
            let e1: nat = if c + 1 < s.len() && (s[c + 1 as int] == '+' || s[c + 1 as int] == '-') { c + 2 } else { c + 1 };
            let e2 = digits_end(s, e1);
            e2 > e1 && e2 == s.len()
        } else {
            c == s.len()
        }
    }
}

/// The index of the first character at or after `i` that is not a digit.
fn skip_digits(cs: &Vec<char>, i: usize) -> (j: usize)
    requires
        i <= cs@.len(),
    ensures
        j as nat == digits_end(cs@, i as nat),
        i <= j <= cs@.len(),
{
    let mut j = i;
    while j < cs.len() && '0' <= cs[j] && cs[j] <= '9'
        invariant
            i <= j <= cs@.len(),
            digits_end(cs@, i as nat) == digits_end(cs@, j as nat),
        decreases cs@.len() - j,
    {
        j = j + 1;
    }
    j
}

/// Whether `cs` from index `from` on spells the word whose small letters are
/// `lo` and whose capitals are `up`.
fn spells_from(cs: &Vec<char>, from: usize, lo: &Vec<char>, up: &Vec<char>) -> (b: bool)
    requires
        from <= cs@.len(),
        lo@.len() == up@.len(),
    ensures
        b == spells(cs@.skip(from as int), lo@, up@),
{
    let t = Ghost(cs@.skip(from as int));
    if cs.len() - from != lo.len() {
        return false;
    }
    let mut i: usize = 0;
    while i < lo.len()
        invariant
            t@ == cs@.skip(from as int),
            t@.len() == lo@.len(),
            lo@.len() == up@.len(),
            from + lo@.len() == cs@.len(),
            from + lo.len() == cs.len(),
            i <= lo@.len(),
            forall|k: int| 0 <= k < i ==> #[trigger] t@[k] == lo@[k] || t@[k] == up@[k],
        decreases lo@.len() - i,
    {
        let c = cs[from + i];
        assert(c == t@[i as int]);
        if c != lo[i] && c != up[i] {
            return false;
        }
        i = i + 1;
    }
    true
}

/// Whether `cs` from index `from` on is one of the words `inf`, `infinity` and
/// `nan`, in any case.
fn float_word_from(cs: &Vec<char>, from: usize) -> (b: bool)
    requires
        from <= cs@.len(),
    ensures
        b == is_float_word(cs@.skip(from as int)),
{
    let inf_lo = str_chars("inf");
    let inf_up = str_chars("INF");
    let infinity_lo = str_chars("infinity");
    let infinity_up = str_chars("INFINITY");
    let nan_lo = str_chars("nan");
    let nan_up = str_chars("NAN");
    proof {
        reveal_strlit("inf");
        reveal_strlit("INF");
        reveal_strlit("infinity");
        reveal_strlit("INFINITY");
        reveal_strlit("nan");
        reveal_strlit("NAN");
        assert(inf_lo@ =~= seq!['i', 'n', 'f']);
        assert(inf_up@ =~= seq!['I', 'N', 'F']);
        assert(infinity_lo@ =~= seq!['i', 'n', 'f', 'i', 'n', 'i', 't', 'y']);
        assert(infinity_up@ =~= seq!['I', 'N', 'F', 'I', 'N', 'I', 'T', 'Y']);
        assert(nan_lo@ =~= seq!['n', 'a', 'n']);
        assert(nan_up@ =~= seq!['N', 'A', 'N']);
    }
    spells_from(cs, from, &inf_lo, &inf_up) || spells_from(cs, from, &infinity_lo, &infinity_up)
        || spells_from(cs, from, &nan_lo, &nan_up)
}

/// Whether the text is a number, as `is_number_text` says.
fn number_text(text: &String) -> (b: bool)
    ensures
        b == is_number_text(text@),
{
    let cs = str_chars(text.as_str());
    let n = cs.len();
    let a: usize = if n > 0 && (cs[0] == '+' || cs[0] == '-') { 1 } else { 0 };
    if float_word_from(&cs, a) {
        return true;
    }
    let b = skip_digits(&cs, a);
    let has_point = b < n && cs[b] == '.';
    let c = if has_point { skip_digits(&cs, b + 1) } else { b };
    let digits: usize = if has_point { (b - a) + (c - (b + 1)) } else { b - a };
    if digits == 0 {
        return false;
    }
    if c < n && (cs[c] == 'e' || cs[c] == 'E') {
        let e1: usize = if c + 1 < n && (cs[c + 1] == '+' || cs[c + 1] == '-') { c + 2 } else { c + 1 };
        let e2 = skip_digits(&cs, e1);
        e2 > e1 && e2 == n
    } else {
        c == n
    }
}

/// The board size as written in the first node, `19` if it gives none.
pub open spec fn size_text(nodes: Seq<Seq<PairView>>) -> Seq<char> {
    match last_value(nodes[0], key_sz()) { Some(v) => v, None => seq!['1', '9'] }
}

/// The handicap as written in the first node that gives one, `0` if none does.
pub open spec fn handicap_text(nodes: Seq<Seq<PairView>>) -> Seq<char> {
    match first_node_value(nodes, key_ha()) { Some(v) => v, None => seq!['0'] }
}

/// A game tree as the specification sees it.
pub struct SpecTree {
    pub komi: Seq<char>,
    pub size: nat,
    pub handicap: nat,
    pub nodes: Seq<Seq<PairView>>,
    pub children: Seq<SpecTree>,
}

/// Why reading stops: at a token (an index equal to the number of tokens means the
/// end of the tokens), or at a size or handicap that is not a number.
pub enum SpecFail {
    At(nat),
    Number(Seq<char>),
}

/// The game tree whose `(` is token `i`, and the index just past its `)`.
pub open spec fn tree_result(ts: Seq<TokenView>, i: nat) -> Result<(SpecTree, nat), SpecFail>
    decreases ts.len() - i, 0nat,
{
    if kind_at(ts, i + 1) != 1 {
        Err(SpecFail::At(i + 1))
    } else {
        let ne = nodes_end(ts, i + 1);
        let nodes = nodes_from(ts, i + 1);
        if ne <= i || ne > ts.len() {
            Err(SpecFail::At(i + 1))
        } else {
            match children_result(ts, ne) {
                Err(f) => Err(f),
                Ok((cs, ce)) => if kind_at(ts, ce) != 3 {
                    Err(SpecFail::At(ce))
                } else {
                    let size = unsigned_decimal(size_text(nodes));
                    let handicap = unsigned_decimal(handicap_text(nodes));
                    if !is_number_text(komi_text(nodes)) {
                        Err(SpecFail::Number(komi_text(nodes)))
                    } else if size is None {
                        Err(SpecFail::Number(size_text(nodes)))
                    } else if handicap is None {
                        Err(SpecFail::Number(handicap_text(nodes)))
                    } else {
                        Ok((SpecTree {
                            komi: komi_text(nodes),
                            size: size->0,
                            handicap: handicap->0,
                            nodes,
                            children: cs,
                        }, ce + 1))
                    }
                },
            }
        }
    }
}

/// The game trees that start at token `j`, and the index just past them.
pub open spec fn children_result(ts: Seq<TokenView>, j: nat) -> Result<(Seq<SpecTree>, nat), SpecFail>
    decreases ts.len() - j, 1nat,
{
    if kind_at(ts, j) == 2 && j < ts.len() {
        match tree_result(ts, j) {
            Err(f) => Err(f),
            Ok((t, k)) => if k > j && k <= ts.len() {
                match children_result(ts, k) {
                    Err(f) => Err(f),
                    Ok((cs, e)) => Ok((seq![t] + cs, e)),
                }
            } else {
                Err(SpecFail::At(j))
            },
        }
    } else {
        Ok((Seq::empty(), j))
    }
}

/// The whole collection: game trees up to the end of the tokens.
pub open spec fn collection_result(ts: Seq<TokenView>) -> Result<Seq<SpecTree>, SpecFail> {
    match children_result(ts, 0) {
        Err(f) => Err(f),
        Ok((cs, e)) => if e == ts.len() { Ok(cs) } else { Err(SpecFail::At(e)) },
    }
}

/// The properties of a node, in the order in which they were written.
#[derive(Clone, Debug)]
pub struct Properties {
    pub pairs: Vec<(String, String)>,
}

/// The identifier and value of each property.
pub open spec fn pairs_view(ps: Seq<(String, String)>) -> Seq<PairView> {
    Seq::new(ps.len(), |i: int| (ps[i].0@, ps[i].1@))
}

impl Properties {
    pub open spec fn view(&self) -> Seq<PairView> {
        pairs_view(self.pairs@)
    }

    /// The value of the last property named `key`, as a map that keeps the last
    /// write would hold it.
    pub fn get(&self, key: &str) -> (r: Option<&String>)
        ensures
            match (r, last_value(self.view(), key@)) {
                (Some(v), Some(w)) => v@ == w,
                (None, None) => true,
                _ => false,
            },
    {
        let k = String::from_str(key);
        let mut i = self.pairs.len();
        assert(self.view().take(i as int) =~= self.view());
        while i > 0
            invariant
                i <= self.pairs@.len(),
                k@ == key@,
                last_value(self.view(), key@) == last_value(self.view().take(i as int), key@),
            decreases i,
        {
            assert(self.view().take(i as int).drop_last() =~= self.view().take(i - 1));
            if self.pairs[i - 1].0 == k {
                return Some(&self.pairs[i - 1].1);
            }
            i = i - 1;
        }
        None
    }
}

/// One node of a game: its properties.
#[derive(Clone, Debug)]
pub struct Node {
    pub properties: Properties,
}

/// A game tree: komi, board size and handicap read from its nodes, the nodes
/// of its main sequence, and its variations.
#[derive(Debug)]
pub struct GameTree {
    pub komi: String,
    pub size: usize,
    pub handicap: usize,
    pub sequence: Vec<Node>,
    pub children: Vec<GameTree>,
}

/// The nodes of a tree as property lists.
pub open spec fn nodes_view(ns: Seq<Node>) -> Seq<Seq<PairView>> {
    Seq::new(ns.len(), |i: int| ns[i].properties.view())
}

/// A game tree as the specification sees it.
pub open spec fn tree_view(t: GameTree) -> SpecTree
    decreases t,
{
    SpecTree {
        komi: t.komi@,
        size: t.size as nat,
        handicap: t.handicap as nat,
        nodes: nodes_view(t.sequence@),
        children: Seq::new(t.children@.len(), |i: int|
            if 0 <= i < t.children@.len() { tree_view(t.children@[i]) } else { arbitrary() }),
    }
}

/// Game trees as the specification sees them.
pub open spec fn trees_view(ts: Seq<GameTree>) -> Seq<SpecTree> {
    Seq::new(ts.len(), |i: int| tree_view(ts[i]))
}

/// Why a collection could not be read.
#[derive(Clone, Debug, PartialEq, Eq)]
pub enum SgfError {
    /// A character at this byte offset starts no token.
    InvalidToken { location: usize },
    /// This token (with its byte offsets) cannot continue the text; `None` means
    /// that the text ended too early.
    UnrecognizedToken { token: Option<(usize, Token, usize)> },
    /// A board size or handicap that is not a number.
    InvalidNumber { value: String },
}

/// Where reading stopped, in terms of the tokens.
enum Fail {
    At(usize),
    Number(String),
}

/// The tokens as the parser sees them.
pub open spec fn toks_view(v: Seq<(usize, Token, usize)>) -> Seq<TokenView> {
    Seq::new(v.len(), |i: int| (v[i].1.0 as nat, v[i].1.1@))
}

spec fn fail_matches(f: Fail, g: SpecFail) -> bool {
    match (f, g) {
        (Fail::At(a), SpecFail::At(b)) => a == b,
        (Fail::Number(v), SpecFail::Number(w)) => v@ == w,
        _ => false,
    }
}

/// Prepends trees to a result of `children_result`.
pub open spec fn prepend(acc: Seq<SpecTree>, r: Result<(Seq<SpecTree>, nat), SpecFail>) -> Result<(Seq<SpecTree>, nat), SpecFail> {
    match r {
        Ok((cs, e)) => Ok((acc + cs, e)),
        Err(f) => Err(f),
    }
}

fn kind_of(toks: &Vec<(usize, Token, usize)>, i: usize) -> (k: usize)
    ensures
        k == kind_at(toks_view(toks@), i as nat),
{
    if i < toks.len() { toks[i].1.0 } else { 6 }
}

/// The identifier and value of a property token.
fn split_property(text: &String) -> (r: (String, String))
    ensures
        (r.0@, r.1@) == prop_pair(text@),
{
    let cs = str_chars(text.as_str());
    let n = cs.len();
    let mut k: usize = 0;
    while k < n && 'A' <= cs[k] && cs[k] <= 'Z'
        invariant
            k <= n,
            n == cs@.len(),
            cs@ == text@,
            upper_run_end(text@, 0) == upper_run_end(text@, k as nat),
        decreases n - k,
    {
        k = k + 1;
    }
    let mut key = String::new();
    let mut i: usize = 0;
    while i < k
        invariant
            i <= k <= n,
            n == cs@.len(),
            cs@ == text@,
            key@ == text@.take(i as int),
        decreases k - i,
    {
        push_char(&mut key, cs[i]);
        assert(text@.take(i + 1) =~= text@.take(i as int).push(text@[i as int]));
        i = i + 1;
    }
    let mut o: usize = k;
    loop
        invariant
            k <= o <= n,
            n == cs@.len(),
            cs@ == text@,
            last_open(text@, k as nat) == last_open(text@, o as nat),
        ensures
            k <= o <= n,
            last_open(text@, k as nat) == o as nat,
        decreases n - o,
    {
        if o >= n {
            assert(close_bracket(text@, (o + 1) as nat) == (o + 1) as nat);
            break;
        }
        let mut c = o + 1;
        while c < n && cs[c] != ']'
            invariant
                o + 1 <= c <= n,
                n == cs@.len(),
                cs@ == text@,
                close_bracket(text@, (o + 1) as nat) == close_bracket(text@, c as nat),
            decreases n - c,
        {
            c = c + 1;
        }
        assert(close_bracket(text@, c as nat) == c as nat);
        if c >= n - 1 {
            break;
        }
        let mut w = c + 1;
        while w < n && char_is_whitespace(cs[w])
            invariant
                c + 1 <= w <= n,
                n == cs@.len(),
                cs@ == text@,
                skip_ws(text@, (c + 1) as nat) == skip_ws(text@, w as nat),
            decreases n - w,
        {
            w = w + 1;
        }
        assert(skip_ws(text@, w as nat) == w as nat);
        if w < n && cs[w] == '[' && w > o {
            o = w;
        } else {
            break;
        }
    }
    let mut value = String::new();
    if n >= 2 && o <= n - 2 {
        let mut j: usize = o + 1;
        while j < n - 1
            invariant
                o + 1 <= j <= n - 1,
                n == cs@.len(),
                cs@ == text@,
                value@ == text@.subrange(o + 1, j as int),
            decreases n - 1 - j,
        {
            push_char(&mut value, cs[j]);
            assert(text@.subrange(o + 1, j + 1) =~= text@.subrange(o + 1, j as int).push(text@[j as int]));
            j = j + 1;
        }
    } else {
        assert(value@ =~= Seq::<char>::empty());
    }
    (key, value)
}

/// The node whose `;` is token `i`, and the index just past its properties.
fn parse_node(toks: &Vec<(usize, Token, usize)>, i: usize) -> (r: (Node, usize))
    requires
        i < toks@.len(),
        kind_at(toks_view(toks@), i as nat) == 1,
    ensures
        r.0.properties.view() == node_at(toks_view(toks@), i as nat),
        r.1 == props_end(toks_view(toks@), (i + 1) as nat),
        i < r.1 <= toks@.len(),
{
    let ghost ts = toks_view(toks@);
    let _n = toks.len();
    let mut pairs: Vec<(String, String)> = Vec::new();
    let mut j = i + 1;
    while j < toks.len() && toks[j].1.0 == 0
        invariant
            i + 1 <= j <= toks@.len(),
            ts == toks_view(toks@),
            props_end(ts, (i + 1) as nat) == props_end(ts, j as nat),
            pairs_view(pairs@) =~= Seq::new((j - (i + 1)) as nat, |k: int| prop_pair(ts[i + 1 + k].1)),
        decreases toks@.len() - j,
    {
        let pair = split_property(&toks[j].1.1);
        let ghost before = pairs@;
        pairs.push(pair);
        proof {
            assert(ts[j as int].1 == toks@[j as int].1.1@);
            assert(pairs_view(pairs@) =~= pairs_view(before).push(prop_pair(ts[j as int].1)));
        }
        j = j + 1;
    }
    (Node { properties: Properties { pairs } }, j)
}

/// The first node value of `key` among `nodes`, as `first_node_value` gives it.
fn first_value<'a>(nodes: &'a Vec<Node>, key: &str) -> (r: Option<&'a String>)
    ensures
        match (r, first_node_value(nodes_view(nodes@), key@)) {
            (Some(v), Some(w)) => v@ == w,
            (None, None) => true,
            _ => false,
        },
{
    let mut i: usize = 0;
    assert(nodes_view(nodes@).skip(0) =~= nodes_view(nodes@));
    while i < nodes.len()
        invariant
            i <= nodes@.len(),
            first_node_value(nodes_view(nodes@), key@) == first_node_value(nodes_view(nodes@).skip(i as int), key@),
        decreases nodes@.len() - i,
    {
        assert(nodes_view(nodes@).skip(i as int)[0] == nodes@[i as int].properties.view());
        assert(nodes_view(nodes@).skip(i as int).drop_first() =~= nodes_view(nodes@).skip(i + 1));
        match nodes[i].properties.get(key) {
            Some(v) => { return Some(v); }
            None => {}
        }
        i = i + 1;
    }
    None
}

/// One unfolding of `tree_result` once the nodes have been read.
proof fn lemma_tree_unfold(ts: Seq<TokenView>, i: nat, ne: nat)
    requires
        kind_at(ts, i + 1) == 1,
        nodes_end(ts, i + 1) == ne,
        i < ne <= ts.len(),
    ensures
        tree_result(ts, i) == (match children_result(ts, ne) {
            Err(f) => Err(f),
            Ok((cs, ce)) => if kind_at(ts, ce) != 3 {
                Err(SpecFail::At(ce))
            } else {
                let nodes = nodes_from(ts, i + 1);
                let size = unsigned_decimal(size_text(nodes));
                let handicap = unsigned_decimal(handicap_text(nodes));
                if !is_number_text(komi_text(nodes)) {
                    Err(SpecFail::Number(komi_text(nodes)))
                } else if size is None {
                    Err(SpecFail::Number(size_text(nodes)))
                } else if handicap is None {
                    Err(SpecFail::Number(handicap_text(nodes)))
                } else {
                    Ok((SpecTree {
                        komi: komi_text(nodes),
                        size: size->0,
                        handicap: handicap->0,
                        nodes,
                        children: cs,
                    }, ce + 1))
                }
            },
        }),
{
}

/// The game tree whose `(` is token `i`.
fn parse_tree(toks: &Vec<(usize, Token, usize)>, i: usize) -> (r: Result<(GameTree, usize), Fail>)
    requires
        i < toks@.len(),
        kind_at(toks_view(toks@), i as nat) == 2,
    ensures
        match (r, tree_result(toks_view(toks@), i as nat)) {
            (Ok((t, e)), Ok((st, se))) => tree_view(t) == st && e == se,
            (Err(f), Err(g)) => fail_matches(f, g),
            _ => false,
        },
    decreases toks@.len() - i,
{
    let ghost ts = toks_view(toks@);
    let _n = toks.len();
    if kind_of(toks, i + 1) != 1 {
        return Err(Fail::At(i + 1));
    }
    proof { reveal_strlit("KM"); reveal_strlit("0.0"); reveal_strlit("SZ"); reveal_strlit("19"); reveal_strlit("HA"); reveal_strlit("0"); }
    let mut sequence: Vec<Node> = Vec::new();
    let mut j = i + 1;
    while kind_of(toks, j) == 1
        invariant
            i + 1 <= j <= toks@.len(),
            ts == toks_view(toks@),
            nodes_from(ts, (i + 1) as nat) == nodes_view(sequence@) + nodes_from(ts, j as nat),
            nodes_end(ts, (i + 1) as nat) == nodes_end(ts, j as nat),
            j > i + 1 ==> sequence@.len() > 0,
            j == i + 1 ==> kind_at(ts, j as nat) == 1,
        decreases toks@.len() - j,
    {
        let (node, e) = parse_node(toks, j);
        proof {
            assert(nodes_from(ts, j as nat) == seq![node_at(ts, j as nat)] + nodes_from(ts, e as nat));
            assert(nodes_view(sequence@.push(node)) =~= nodes_view(sequence@) + seq![node_at(ts, j as nat)]);
        }
        sequence.push(node);
        j = e;
    }
    assert(nodes_from(ts, j as nat) =~= Seq::<Seq<PairView>>::empty());
    assert(nodes_view(sequence@) + Seq::<Seq<PairView>>::empty() =~= nodes_view(sequence@));
    let ne = j;
    assert(nodes_end(ts, (i + 1) as nat) == ne);
    assert(nodes_from(ts, (i + 1) as nat) == nodes_view(sequence@));
    proof { lemma_tree_unfold(ts, i as nat, ne as nat); }
    let mut children: Vec<GameTree> = Vec::new();
    let mut k = ne;
    loop
        invariant_except_break
            i < ne <= k <= toks@.len(),
            ts == toks_view(toks@),
            kind_at(ts, (i + 1) as nat) == 1,
            nodes_end(ts, (i + 1) as nat) == ne,
            nodes_from(ts, (i + 1) as nat) == nodes_view(sequence@),
            children_result(ts, ne as nat) == prepend(trees_view(children@), children_result(ts, k as nat)),
        ensures
            i < ne <= k <= toks@.len(),
            kind_at(ts, (i + 1) as nat) == 1,
            nodes_end(ts, (i + 1) as nat) == ne,
            nodes_from(ts, (i + 1) as nat) == nodes_view(sequence@),
            children_result(ts, ne as nat) == prepend(trees_view(children@), Ok((Seq::<SpecTree>::empty(), k as nat))),
        decreases toks@.len() - k,
    {
        if kind_of(toks, k) == 2 && k < toks.len() {
            match parse_tree(toks, k) {
                Err(f) => {
                    proof {
                        assert(tree_result(ts, k as nat) is Err);
                        assert(children_result(ts, k as nat) is Err);
                        assert(children_result(ts, k as nat)->Err_0 == tree_result(ts, k as nat)->Err_0);
                        assert(children_result(ts, ne as nat) is Err);
                        assert(children_result(ts, ne as nat)->Err_0 == tree_result(ts, k as nat)->Err_0);
                        lemma_tree_unfold(ts, i as nat, ne as nat);
                        assert(tree_result(ts, i as nat) is Err);
                    }
                    return Err(f);
                }
                Ok((t, k2)) => {
                    if k2 > k && k2 <= toks.len() {
                        proof {
                            assert(trees_view(children@.push(t)) =~= trees_view(children@) + seq![tree_view(t)]);
                            match children_result(ts, k2 as nat) {
                                Ok((cs, e)) => {
                                    assert(trees_view(children@) + (seq![tree_view(t)] + cs) =~= trees_view(children@.push(t)) + cs);
                                }
                                Err(_) => {}
                            }
                        }
                        children.push(t);
                        k = k2;
                    } else {
                        return Err(Fail::At(k));
                    }
                }
            }
        } else {
            assert(trees_view(children@) + Seq::<SpecTree>::empty() =~= trees_view(children@));
            break;
        }
    }
    proof {
        lemma_tree_unfold(ts, i as nat, ne as nat);
        reveal_strlit("KM"); reveal_strlit("0.0"); reveal_strlit("SZ"); reveal_strlit("19"); reveal_strlit("HA"); reveal_strlit("0");
    }
    if kind_of(toks, k) != 3 {
        return Err(Fail::At(k));
    }
    let ghost nodes = nodes_view(sequence@);
    let ghost cs = trees_view(children@);
    assert(nodes.len() > 0);
    assert(nodes[0] == sequence@[0].properties.view());
    let komi = match sequence[0].properties.get("KM") {
        Some(v) => v.clone(),
        None => String::from_str("0.0"),
    };
    let sz_text = match sequence[0].properties.get("SZ") {
        Some(v) => v.clone(),
        None => String::from_str("19"),
    };
    proof {
        assert("SZ"@ =~= key_sz());
        assert("19"@ =~= seq!['1', '9']);
        assert("HA"@ =~= key_ha());
        assert("0"@ =~= seq!['0']);
        assert("KM"@ =~= key_km());
        assert("0.0"@ =~= seq!['0', '.', '0']);
    }
    assert(sz_text@ == size_text(nodes));
    assert(komi@ == komi_text(nodes));
    if !number_text(&komi) {
        return Err(Fail::Number(komi));
    }
    let ha_text = match first_value(&sequence, "HA") {
        Some(v) => v.clone(),
        None => String::from_str("0"),
    };
    assert(ha_text@ == handicap_text(nodes));
    let size = match usize_from_decimal(sz_text.as_str()) {
        Some(v) => v,
        None => { return Err(Fail::Number(sz_text)); }
    };
    let handicap = match usize_from_decimal(ha_text.as_str()) {
        Some(v) => v,
        None => { return Err(Fail::Number(ha_text)); }
    };
    let tree = GameTree { komi, size, handicap, sequence, children };
    proof {
        let st = tree_view(tree);
        assert(st.children =~= cs);
    }
    Ok((tree, k + 1))
}


/// The tokens with byte offsets are those of the lexer specification, in order.
pub open spec fn toks_match(toks: Seq<(usize, Token, usize)>, lt: Seq<SpecToken>, s: Seq<char>) -> bool {
    &&& toks.len() == lt.len()
    &&& forall|i: int| 0 <= i < toks.len() ==> {
        &&& #[trigger] toks[i].1.0 as nat == lt[i].kind
        &&& toks[i].1.1@ == s.subrange(lt[i].start as int, lt[i].end as int)
        &&& toks[i].0 == byte_len(s.take(lt[i].start as int))
        &&& toks[i].2 == byte_len(s.take(lt[i].end as int))
    }
}

/// The spec view of the tokens that the lexer yields for `s`.
pub open spec fn lexed_tokens(s: Seq<char>) -> Seq<TokenView> {
    let (lt, _) = lex_from(s, 0);
    Seq::new(lt.len(), |i: int| (lt[i].kind, s.subrange(lt[i].start as int, lt[i].end as int)))
}

/// What reading the text `s` gives: the trees that the grammar reads, or the
/// error at the token, the end of the text, the character or the number where
/// reading stops.
pub open spec fn parse_outcome(s: Seq<char>, r: Result<Vec<GameTree>, SgfError>) -> bool {
    let (lt, lerr) = lex_from(s, 0);
    let ts = lexed_tokens(s);
    match (r, collection_result(ts)) {
        (Ok(v), Ok(sts)) => trees_view(v@) == sts,
        (Err(SgfError::UnrecognizedToken { token: Some((a, tok, b)) }), Err(SpecFail::At(k))) =>
            k < ts.len() && tok.0 as nat == ts[k as int].0 && tok.1@ == ts[k as int].1
            && a == byte_len(s.take(lt[k as int].start as int))
            && b == byte_len(s.take(lt[k as int].end as int)),
        (Err(SgfError::UnrecognizedToken { token: None }), Err(SpecFail::At(k))) =>
            k == ts.len() && lerr is None,
        (Err(SgfError::InvalidToken { location }), Err(SpecFail::At(k))) =>
            k == ts.len() && lerr is Some && location == byte_len(s.take(lerr->0 as int)),
        (Err(SgfError::InvalidNumber { value }), Err(SpecFail::Number(w))) => value@ == w,
        _ => false,
    }
}

/// Reads a collection of game trees.  On failure the error names the first token
/// that cannot continue the text, the end of the text, the first character that
/// starts no token, or a komi, size or handicap that is not a number.
#[allow(non_snake_case)]
#[verifier::spinoff_prover]
pub fn parse_Collection(input: &str) -> (r: Result<Vec<GameTree>, SgfError>)
    ensures
        parse_outcome(input@, r),
{
    let ghost s = input@;
    let mut matcher = __Matcher::new(input);
    let mut toks: Vec<(usize, Token, usize)> = Vec::new();
    let mut lexerr: Option<usize> = None;
    let ghost mut prefix: Seq<SpecToken> = Seq::empty();
    proof {
        assert(prefix + lex_from(s, 0).0 =~= lex_from(s, 0).0);
    }
    loop
        invariant_except_break
            matcher.wf(),
            matcher.chars() == s,
            byte_len(s) <= usize::MAX,
            lexerr is None,
            lex_from(s, 0).0 == prefix + lex_from(s, matcher.position()).0,
            lex_from(s, 0).1 == lex_from(s, matcher.position()).1,
            toks_match(toks@, prefix, s),
        ensures
            lex_from(s, 0).0 == prefix,
            toks_match(toks@, prefix, s),
            match lexerr {
                None => lex_from(s, 0).1 is None,
                Some(loc) => lex_from(s, 0).1 is Some && loc == byte_len(s.take(lex_from(s, 0).1->0 as int)),
            },
        decreases s.len() - matcher.position(),
    {
        let ghost before = matcher.position();
        proof { lemma_lex_progress(s, before); }
        match matcher.next() {
            None => {
                assert(lex_from(s, before).1 is None);
                assert(prefix + lex_from(s, before).0 =~= prefix);
                break;
            }
            Some(Err(loc)) => {
                assert(prefix + lex_from(s, before).0 =~= prefix);
                lexerr = Some(loc);
                break;
            }
            Some(Ok(t)) => {
                let ghost first_tok = lex_from(s, before).0[0];
                let ghost old_prefix = prefix;
                proof {
                    let rest = lex_from(s, before).0;
                    assert(prefix + rest =~= prefix.push(rest[0]) + rest.drop_first());
                    prefix = prefix.push(rest[0]);
                }
                let ghost old_toks = toks@;
                toks.push(t);
                proof {
                    assert forall|i: int| 0 <= i < toks@.len() implies {
                        &&& #[trigger] toks@[i].1.0 as nat == prefix[i].kind
                        &&& toks@[i].1.1@ == s.subrange(prefix[i].start as int, prefix[i].end as int)
                        &&& toks@[i].0 == byte_len(s.take(prefix[i].start as int))
                        &&& toks@[i].2 == byte_len(s.take(prefix[i].end as int))
                    } by {
                        if i < old_toks.len() {
                            assert(toks@[i] == old_toks[i]);
                            assert(prefix[i] == old_prefix[i]);
                            assert(old_toks[i].1.0 as nat == old_prefix[i].kind);
                            assert(toks@[i].1.1@ =~= s.subrange(prefix[i].start as int, prefix[i].end as int));
                        } else {
                            assert(toks@[i] == t);
                            assert(prefix[i] == first_tok);
                            assert(t.1.1@ =~= s.subrange(first_tok.start as int, first_tok.end as int));
                        }
                    }
                }
            }
        }
    }
    let ghost ts = toks_view(toks@);
    assert(ts =~= lexed_tokens(s));
    let mut trees: Vec<GameTree> = Vec::new();
    let mut k: usize = 0;
    let mut failure: Option<Fail> = None;
    loop
        invariant_except_break
            k <= toks@.len(),
            ts == toks_view(toks@),
            children_result(ts, 0) == prepend(trees_view(trees@), children_result(ts, k as nat)),
            failure is None,
        ensures
            k <= toks@.len(),
            match failure {
                None => children_result(ts, 0) == prepend(trees_view(trees@), Ok((Seq::<SpecTree>::empty(), k as nat))),
                Some(f) => exists|g: SpecFail| children_result(ts, 0) == Err::<(Seq<SpecTree>, nat), SpecFail>(g) && fail_matches(f, g),
            },
        decreases toks@.len() - k,
    {
        if kind_of(&toks, k) == 2 && k < toks.len() {
            match parse_tree(&toks, k) {
                Err(f) => {
                    proof {
                        let g = tree_result(ts, k as nat)->Err_0;
                        assert(children_result(ts, k as nat) == Err::<(Seq<SpecTree>, nat), SpecFail>(g));
                        assert(children_result(ts, 0) == Err::<(Seq<SpecTree>, nat), SpecFail>(g));
                        assert(fail_matches(f, g));
                    }
                    failure = Some(f);
                    break;
                }
                Ok((t, k2)) => {
                    if k2 > k && k2 <= toks.len() {
                        proof {
                            assert(trees_view(trees@.push(t)) =~= trees_view(trees@) + seq![tree_view(t)]);
                            match children_result(ts, k2 as nat) {
                                Ok((cs, e)) => {
                                    assert(trees_view(trees@) + (seq![tree_view(t)] + cs) =~= trees_view(trees@.push(t)) + cs);
                                }
                                Err(_) => {}
                            }
                        }
                        trees.push(t);
                        k = k2;
                    } else {
                        proof {
                            assert(children_result(ts, k as nat) == Err::<(Seq<SpecTree>, nat), SpecFail>(SpecFail::At(k as nat)));
                            assert(children_result(ts, 0) == Err::<(Seq<SpecTree>, nat), SpecFail>(SpecFail::At(k as nat)));
                            assert(fail_matches(Fail::At(k), SpecFail::At(k as nat)));
                        }
                        failure = Some(Fail::At(k));
                        break;
                    }
                }
            }
        } else {
            assert(children_result(ts, k as nat) == Ok::<(Seq<SpecTree>, nat), SpecFail>((Seq::empty(), k as nat)));
            assert(trees_view(trees@) + Seq::<SpecTree>::empty() =~= trees_view(trees@));
            break;
        }
    }
    assert(trees_view(trees@) + Seq::<SpecTree>::empty() =~= trees_view(trees@));
    let ghost mut gfail = SpecFail::At(0);
    let fail = match failure {
        Some(f) => {
            proof {
                gfail = choose|g: SpecFail| children_result(ts, 0) == Err::<(Seq<SpecTree>, nat), SpecFail>(g) && fail_matches(f, g);
            }
            f
        }
        None => {
            if k == toks.len() {
                assert(collection_result(ts) == Ok::<Seq<SpecTree>, SpecFail>(trees_view(trees@)));
                return Ok(trees);
            }
            assert(collection_result(ts) == Err::<Seq<SpecTree>, SpecFail>(SpecFail::At(k as nat)));
            proof { gfail = SpecFail::At(k as nat); }
            Fail::At(k)
        }
    };
    assert(collection_result(ts) == Err::<Seq<SpecTree>, SpecFail>(gfail) && fail_matches(fail, gfail));
    proof { lemma_children_bounds(ts, 0); }
    match fail {
        Fail::Number(value) => Err(SgfError::InvalidNumber { value }),
        Fail::At(at) => {
            if at < toks.len() {
                let (a, tok, b) = &toks[at];
                let t = Token(tok.0, tok.1.clone());
                Err(SgfError::UnrecognizedToken { token: Some((*a, t, *b)) })
            } else {
                match lexerr {
                    Some(location) => Err(SgfError::InvalidToken { location }),
                    None => Err(SgfError::UnrecognizedToken { token: None }),
                }
            }
        }
    }
}

/// Reading a tree never points past the end of the tokens.
proof fn lemma_tree_bounds(ts: Seq<TokenView>, i: nat)
    requires
        i < ts.len(),
    ensures
        match tree_result(ts, i) {
            Ok((_, e)) => e <= ts.len(),
            Err(SpecFail::At(k)) => k <= ts.len(),
            Err(SpecFail::Number(_)) => true,
        },
    decreases ts.len() - i, 0nat,
{
    if kind_at(ts, i + 1) == 1 {
        let ne = nodes_end(ts, i + 1);
        if i < ne <= ts.len() {
            lemma_children_bounds(ts, ne);
        }
    }
}

/// Reading the trees that start at `j` never points past the end of the tokens.
proof fn lemma_children_bounds(ts: Seq<TokenView>, j: nat)
    requires
        j <= ts.len(),
    ensures
        match children_result(ts, j) {
            Ok((_, e)) => e <= ts.len(),
            Err(SpecFail::At(k)) => k <= ts.len(),
            Err(SpecFail::Number(_)) => true,
        },
    decreases ts.len() - j, 1nat,
{
    if kind_at(ts, j) == 2 && j < ts.len() {
        lemma_tree_bounds(ts, j);
        match tree_result(ts, j) {
            Ok((_, k)) => {
                if k > j && k <= ts.len() {
                    lemma_children_bounds(ts, k);
                }
            }
            Err(_) => {}
        }
    }
}

/// Each call of the lexer consumes input, so the loop over it ends.
proof fn lemma_lex_progress(s: Seq<char>, i: nat)
    ensures
        lex_from(s, i).0.len() > 0 ==> i < lex_from(s, i).0[0].end <= s.len(),
{
}

} // verus!

verus! {

/// A point as its two SGF coordinate letters, column first.
#[derive(Clone, Copy, Debug, PartialEq, Eq, Structural)]
pub struct Point(pub char, pub char);

/// The colour that a move or a set-up property gives a point.
#[derive(Clone, Copy, Debug, PartialEq, Eq, Structural)]
pub enum PointColor {
    Black,
    White,
    Empty,
}

/// Both coordinate letters of the point are `a`..`s`.
pub open spec fn is_column_letter_point(p: Point) -> bool {
    'a' <= p.0 <= 's' && 'a' <= p.1 <= 's'
}

/// One of the two players.
#[derive(Clone, Copy, Debug, PartialEq, Eq, Structural)]
pub enum PlayerColor {
    Black,
    White,
}

/// A coloured point.
#[derive(Clone, Copy, Debug, PartialEq, Eq, Structural)]
pub struct Stone {
    pub color: PointColor,
    pub point: Point,
}

/// What a node of a game record does: a play (`B`, `W`), a pass, or a set-up
/// stone (`AB`, `AW`) that overwrites the point without any capture.
#[derive(Clone, Copy, Debug, PartialEq, Eq, Structural)]
pub enum Move {
    Of(Stone),
    Pass,
    Add(Stone),
}

pub open spec fn key_ab() -> Seq<char> { seq!['A', 'B'] }
pub open spec fn key_aw() -> Seq<char> { seq!['A', 'W'] }
pub open spec fn key_b() -> Seq<char> { seq!['B'] }
pub open spec fn key_w() -> Seq<char> { seq!['W'] }

/// A play value that means a pass: empty, `tt` or `TT`.
pub open spec fn is_pass_value(v: Seq<char>) -> bool {
    ||| v.len() == 0
    ||| v.len() >= 2 && v[0] == 't' && v[1] == 't'
    ||| v.len() >= 2 && v[0] == 'T' && v[1] == 'T'
}

/// A play value that can be read: empty, or at least two characters of which the
/// first two bytes of the UTF-8 text are whole characters.
pub open spec fn readable_move(v: Seq<char>) -> bool {
    ||| v.len() == 0
    ||| v.len() >= 2 && (utf8_len(v[0]) == 2 || (utf8_len(v[0]) == 1 && utf8_len(v[1]) == 1))
}

/// The point named by the first two characters of a value.
pub open spec fn point_of(v: Seq<char>) -> Point {
    Point(v[0], v[1])
}

/// A play of `color` with value `v`.
pub open spec fn play_of(color: PointColor, v: Seq<char>) -> Move {
    if is_pass_value(v) { Move::Pass } else { Move::Of(Stone { color, point: point_of(v) }) }
}

/// The move that a node records, if any: a black set-up stone first, then a white
/// one, then a black play, then a white play.
pub open spec fn node_move(pairs: Seq<PairView>) -> Option<Move> {
    match last_value(pairs, key_ab()) {
        Some(v) => Some(Move::Add(Stone { color: PointColor::Black, point: point_of(v) })),
        None => match last_value(pairs, key_aw()) {
            Some(v) => Some(Move::Add(Stone { color: PointColor::White, point: point_of(v) })),
            None => match last_value(pairs, key_b()) {
                Some(v) => Some(play_of(PointColor::Black, v)),
                None => match last_value(pairs, key_w()) {
                    Some(v) => Some(play_of(PointColor::White, v)),
                    None => None,
                },
            },
        },
    }
}

/// The value that `node_move` reads can be read: a set-up value has two
/// characters, a play value is `readable_move`.
pub open spec fn node_readable(pairs: Seq<PairView>) -> bool {
    match last_value(pairs, key_ab()) {
        Some(v) => v.len() >= 2,
        None => match last_value(pairs, key_aw()) {
            Some(v) => v.len() >= 2,
            None => match last_value(pairs, key_b()) {
                Some(v) => readable_move(v),
                None => match last_value(pairs, key_w()) {
                    Some(v) => readable_move(v),
                    None => true,
                },
            },
        },
    }
}

/// The moves of a sequence of nodes, in order, skipping nodes without one.
pub open spec fn moves_of(nodes: Seq<Seq<PairView>>) -> Seq<Move>
    decreases nodes.len(),
{
    if nodes.len() == 0 {
        Seq::empty()
    } else {
        moves_of(nodes.drop_last()) + match node_move(nodes.last()) {
            Some(m) => seq![m],
            None => Seq::empty(),
        }
    }
}

/// Every node of the sequence can be read as a move.
pub open spec fn nodes_readable(nodes: Seq<Seq<PairView>>) -> bool {
    forall|i: int| 0 <= i < nodes.len() ==> node_readable(#[trigger] nodes[i])
}

/// The moves of the main line: the tree's own moves, then those of its first
/// variation, and so on, stopping at a tree without nodes.
pub open spec fn main_line_of(t: SpecTree) -> Seq<Move>
    decreases t,
{
    if t.nodes.len() == 0 {
        Seq::empty()
    } else if t.children.len() == 0 {
        moves_of(t.nodes)
    } else {
        moves_of(t.nodes) + main_line_of(t.children[0])
    }
}

/// Every node on the main line can be read as a move.
pub open spec fn main_line_readable(t: SpecTree) -> bool
    decreases t,
{
    t.nodes.len() == 0 || (nodes_readable(t.nodes) && (t.children.len() == 0 || main_line_readable(t.children[0])))
}

impl GameTree {
    /// Whether a play value means a pass.
    fn is_pass(val: &str) -> (r: bool)
        requires
            readable_move(val@),
        ensures
            r == is_pass_value(val@),
    {
        let cs = str_chars(val);
        cs.len() == 0 || (cs[0] == 't' && cs[1] == 't') || (cs[0] == 'T' && cs[1] == 'T')
    }

    /// The point named by the first two characters of a value.
    fn point(string: &String) -> (p: Point)
        requires
            string@.len() >= 2,
        ensures
            p == point_of(string@),
    {
        let cs = str_chars(string.as_str());
        Point(cs[0], cs[1])
    }

    /// The play of `color` that value `mv` records.
    fn play_move(color: PointColor, mv: &String) -> (m: Move)
        requires
            readable_move(mv@),
        ensures
            m == play_of(color, mv@),
    {
        if Self::is_pass(mv.as_str()) {
            Move::Pass
        } else {
            Move::Of(Stone { color, point: Self::point(mv) })
        }
    }

    /// The move that one node records, if any.
    fn node_move(n: &Node) -> (m: Option<Move>)
        requires
            node_readable(n.properties.view()),
        ensures
            m == node_move(n.properties.view()),
    {
        proof { reveal_strlit("AB"); reveal_strlit("AW"); reveal_strlit("B"); reveal_strlit("W"); }
        assert("AB"@ =~= key_ab());
        assert("AW"@ =~= key_aw());
        assert("B"@ =~= key_b());
        assert("W"@ =~= key_w());
        if let Some(add) = n.properties.get("AB") {
            return Some(Move::Add(Stone { color: PointColor::Black, point: Self::point(add) }));
        }
        if let Some(add) = n.properties.get("AW") {
            return Some(Move::Add(Stone { color: PointColor::White, point: Self::point(add) }));
        }
        if let Some(mv) = n.properties.get("B") {
            return Some(Self::play_move(PointColor::Black, mv));
        }
        if let Some(mv) = n.properties.get("W") {
            return Some(Self::play_move(PointColor::White, mv));
        }
        None
    }

    /// The moves of a sequence of nodes, in order.
    fn moves(sequence: &Vec<Node>) -> (v: Vec<Move>)
        requires
            nodes_readable(nodes_view(sequence@)),
        ensures
            v@ == moves_of(nodes_view(sequence@)),
    {
        let mut v: Vec<Move> = Vec::new();
        let mut i: usize = 0;
        while i < sequence.len()
            invariant
                i <= sequence@.len(),
                nodes_readable(nodes_view(sequence@)),
                v@ == moves_of(nodes_view(sequence@).take(i as int)),
            decreases sequence@.len() - i,
        {
            let ghost ns = nodes_view(sequence@);
            assert(ns.take(i + 1).drop_last() =~= ns.take(i as int));
            assert(ns[i as int] == sequence@[i as int].properties.view());
            match Self::node_move(&sequence[i]) {
                Some(m) => { v.push(m); }
                None => {}
            }
            i = i + 1;
        }
        assert(nodes_view(sequence@).take(i as int) =~= nodes_view(sequence@));
        v
    }

    /// Appends the moves of the main line to `out`.
    fn main_line_onto(&self, out: &mut Vec<Move>)
        requires
            main_line_readable(tree_view(*self)),
        ensures
            final(out)@ == old(out)@ + main_line_of(tree_view(*self)),
        decreases self,
    {
        let ghost t = tree_view(*self);
        assert(t.nodes == nodes_view(self.sequence@));
        if self.sequence.len() == 0 {
            assert(old(out)@ + Seq::<Move>::empty() =~= old(out)@);
            return;
        }
        let mut mv = Self::moves(&self.sequence);
        out.append(&mut mv);
        if self.children.len() == 0 {
            return;
        }
        assert(t.children[0] == tree_view(self.children@[0]));
        self.children[0].main_line_onto(out);
        assert(old(out)@ + main_line_of(t) =~= old(out)@ + moves_of(t.nodes) + main_line_of(t.children[0]));
    }

    /// Whether a play value can be read as a move.
    fn value_readable(v: &String) -> (b: bool)
        ensures
            b == readable_move(v@),
    {
        let cs = str_chars(v.as_str());
        if cs.len() == 0 {
            return true;
        }
        if cs.len() < 2 {
            return false;
        }
        let a = char_utf8_len(cs[0]);
        a == 2 || (a == 1 && char_utf8_len(cs[1]) == 1)
    }

    /// Whether the move of a node, if it has one, can be read.
    fn node_is_readable(n: &Node) -> (b: bool)
        ensures
            b == node_readable(n.properties.view()),
    {
        proof { reveal_strlit("AB"); reveal_strlit("AW"); reveal_strlit("B"); reveal_strlit("W"); }
        assert("AB"@ =~= key_ab());
        assert("AW"@ =~= key_aw());
        assert("B"@ =~= key_b());
        assert("W"@ =~= key_w());
        if let Some(add) = n.properties.get("AB") {
            return add.as_str().unicode_len() >= 2;
        }
        if let Some(add) = n.properties.get("AW") {
            return add.as_str().unicode_len() >= 2;
        }
        if let Some(mv) = n.properties.get("B") {
            return Self::value_readable(mv);
        }
        if let Some(mv) = n.properties.get("W") {
            return Self::value_readable(mv);
        }
        true
    }

    /// Whether every node of the main line can be read as a move, as `main_line`
    /// needs.
    pub fn main_line_is_readable(&self) -> (b: bool)
        ensures
            b == main_line_readable(tree_view(*self)),
        decreases self,
    {
        let ghost t = tree_view(*self);
        assert(t.nodes == nodes_view(self.sequence@));
        if self.sequence.len() == 0 {
            return true;
        }
        let mut i: usize = 0;
        while i < self.sequence.len()
            invariant
                i <= self.sequence@.len(),
                t == tree_view(*self),
                t.nodes == nodes_view(self.sequence@),
                forall|k: int| 0 <= k < i ==> node_readable(#[trigger] t.nodes[k]),
            decreases self.sequence@.len() - i,
        {
            assert(t.nodes[i as int] == self.sequence@[i as int].properties.view());
            if !Self::node_is_readable(&self.sequence[i]) {
                assert(!nodes_readable(t.nodes));
                return false;
            }
            i = i + 1;
        }
        assert(nodes_readable(t.nodes));
        if self.children.len() == 0 {
            return true;
        }
        assert(t.children[0] == tree_view(self.children@[0]));
        self.children[0].main_line_is_readable()
    }

    /// The moves of the main line: this tree's moves, then those of its first
    /// variation, and so on.
    pub fn main_line(&self) -> (v: Vec<Move>)
        requires
            main_line_readable(tree_view(*self)),
        ensures
            v@ == main_line_of(tree_view(*self)),
    {
        let mut v: Vec<Move> = Vec::new();
        self.main_line_onto(&mut v);
        assert(Seq::<Move>::empty() + main_line_of(tree_view(*self)) =~= main_line_of(tree_view(*self)));
        v
    }
}

} // verus!
