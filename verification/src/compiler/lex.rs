use vstd::prelude::*;
use crate::text::chars_of;

verus! {

/// Unicode `White_Space`, the characters that `char::is_whitespace` accepts.
pub open spec fn is_ws(c: char) -> bool {
    let u = c as u32;
    ||| 0x09 <= u <= 0x0d
    ||| u == 0x20
    ||| u == 0x85
    ||| u == 0xa0
    ||| u == 0x1680
    ||| 0x2000 <= u <= 0x200a
    ||| u == 0x2028
    ||| u == 0x2029
    ||| u == 0x202f
    ||| u == 0x205f
    ||| u == 0x3000
}

pub open spec fn ascii_digit(c: char) -> bool {
    '0' <= c <= '9'
}

pub open spec fn ascii_alpha(c: char) -> bool {
    ('a' <= c <= 'z') || ('A' <= c <= 'Z')
}

pub open spec fn ident_start(c: char) -> bool {
    ascii_alpha(c) || c == '_'
}

pub open spec fn ident_char(c: char) -> bool {
    ident_start(c) || ascii_digit(c)
}

/// An identifier: an ASCII letter or `_`, then ASCII letters, digits or `_`.
pub open spec fn ident_ok(s: Seq<char>) -> bool {
    &&& s.len() > 0
    &&& ident_start(s[0])
    &&& forall|i: int| 1 <= i < s.len() ==> ident_char(#[trigger] s[i])
}

/// End of the run of whitespace that starts at `i`.
pub open spec fn ws_run(s: Seq<char>, i: int) -> int
    decreases s.len() - i,
{
    if 0 <= i < s.len() && is_ws(s[i]) {
        ws_run(s, i + 1)
    } else {
        i
    }
}

/// Start of the run of whitespace that ends just before `j`.
pub open spec fn ws_run_back(s: Seq<char>, j: int) -> int
    decreases j,
{
    if 0 < j <= s.len() && is_ws(s[j - 1]) {
        ws_run_back(s, j - 1)
    } else {
        j
    }
}

/// `s` without leading whitespace.
pub open spec fn trim_start(s: Seq<char>) -> Seq<char> {
    s.skip(ws_run(s, 0))
}

/// `s` without trailing whitespace.
pub open spec fn trim_end(s: Seq<char>) -> Seq<char> {
    s.take(ws_run_back(s, s.len() as int))
}

/// `s` without leading or trailing whitespace (what `str::trim` returns).
pub open spec fn trimmed(s: Seq<char>) -> Seq<char> {
    trim_end(trim_start(s))
}

/// First index at or after `i` holding `c`, or the length.
pub open spec fn find_char(s: Seq<char>, c: char, i: int) -> int
    decreases s.len() - i,
{
    if i < 0 || i >= s.len() {
        s.len() as int
    } else if s[i] == c {
        i
    } else {
        find_char(s, c, i + 1)
    }
}

/// First index at or after `i` where the two-character pattern `a b`
/// starts, or the length.
pub open spec fn find_pair(s: Seq<char>, a: char, b: char, i: int) -> int
    decreases s.len() - i,
{
    if i < 0 || i + 1 >= s.len() {
        s.len() as int
    } else if s[i] == a && s[i + 1] == b {
        i
    } else {
        find_pair(s, a, b, i + 1)
    }
}

/// `s` begins with `p`.
pub open spec fn has_prefix(s: Seq<char>, p: Seq<char>) -> bool {
    p.len() <= s.len() && s.take(p.len() as int) == p
}

/// The part of a line before its first `//`.
pub open spec fn cut_comment(s: Seq<char>) -> Seq<char> {
    s.take(find_pair(s, '/', '/', 0))
}

proof fn lemma_ws_run(s: Seq<char>, i: int)
    requires
        0 <= i <= s.len(),
    ensures
        i <= ws_run(s, i) <= s.len(),
        forall|k: int| i <= k < ws_run(s, i) ==> is_ws(#[trigger] s[k]),
        ws_run(s, i) < s.len() ==> !is_ws(s[ws_run(s, i)]),
    decreases s.len() - i,
{
    if i < s.len() && is_ws(s[i]) {
        lemma_ws_run(s, i + 1);
    }
}

pub(crate) proof fn lemma_find_char(s: Seq<char>, c: char, i: int)
    requires
        0 <= i <= s.len(),
    ensures
        i <= find_char(s, c, i) <= s.len(),
        forall|k: int| i <= k < find_char(s, c, i) ==> #[trigger] s[k] != c,
        find_char(s, c, i) < s.len() ==> s[find_char(s, c, i)] == c,
    decreases s.len() - i,
{
    if i < s.len() && s[i] != c {
        lemma_find_char(s, c, i + 1);
    }
}

pub(crate) proof fn lemma_find_pair(s: Seq<char>, a: char, b: char, i: int)
    requires
        0 <= i <= s.len(),
    ensures
        i <= find_pair(s, a, b, i) <= s.len(),
        find_pair(s, a, b, i) < s.len() ==> find_pair(s, a, b, i) + 1 < s.len() && s[find_pair(s, a, b, i)] == a
            && s[find_pair(s, a, b, i) + 1] == b,
    decreases s.len() - i,
{
    if i + 1 < s.len() && !(s[i] == a && s[i + 1] == b) {
        lemma_find_pair(s, a, b, i + 1);
    }
}

/// `s` without leading whitespace.
pub fn trim_start_str(s: &str) -> (r: &str)
    ensures
        r@ == trim_start(s@),
{
    let c = chars_of(s);
    let mut i: usize = 0;
    while i < c.len() && is_whitespace(c[i])
        invariant
            c@ == s@,
            i <= c@.len(),
            ws_run(s@, i as int) == ws_run(s@, 0),
        decreases c@.len() - i,
    {
        i = i + 1;
    }
    s.substring_char(i, c.len())
}

/// `s` without trailing whitespace.
pub fn trim_end_str(s: &str) -> (r: &str)
    ensures
        r@ == trim_end(s@),
{
    let c = chars_of(s);
    let mut j: usize = c.len();
    while j > 0 && is_whitespace(c[j - 1])
        invariant
            c@ == s@,
            j <= c@.len(),
            ws_run_back(s@, j as int) == ws_run_back(s@, s@.len() as int),
        decreases j,
    {
        j = j - 1;
    }
    s.substring_char(0, j)
}

/// `s` without leading or trailing whitespace.
pub fn trim_str(s: &str) -> (r: &str)
    ensures
        r@ == trimmed(s@),
{
    trim_end_str(trim_start_str(s))
}

/// Whether `c` is Unicode white space.
pub fn is_whitespace(c: char) -> (b: bool)
    ensures
        b == is_ws(c),
{
    let u = c as u32;
    (0x09 <= u && u <= 0x0d) || u == 0x20 || u == 0x85 || u == 0xa0 || u == 0x1680 || (0x2000 <= u && u
        <= 0x200a) || u == 0x2028 || u == 0x2029 || u == 0x202f || u == 0x205f || u == 0x3000
}

pub fn is_ascii_digit(c: char) -> (b: bool)
    ensures
        b == ascii_digit(c),
{
    '0' <= c && c <= '9'
}

pub fn is_ident_start(c: char) -> (b: bool)
    ensures
        b == ident_start(c),
{
    ('a' <= c && c <= 'z') || ('A' <= c && c <= 'Z') || c == '_'
}

pub fn is_ident_char(c: char) -> (b: bool)
    ensures
        b == ident_char(c),
{
    is_ident_start(c) || is_ascii_digit(c)
}

/// Whether `s` is an identifier: an ASCII letter or `_`, then ASCII letters,
/// digits or `_`.
pub fn is_ident(s: &str) -> (b: bool)
    ensures
        b == ident_ok(s@),
{
    let c = chars_of(s);
    if c.len() == 0 || !is_ident_start(c[0]) {
        return false;
    }
    let mut i: usize = 1;
    while i < c.len()
        invariant
            c@ == s@,
            1 <= i <= c@.len(),
            ident_start(c@[0]),
            forall|k: int| 1 <= k < i ==> ident_char(#[trigger] c@[k]),
        decreases c@.len() - i,
    {
        if !is_ident_char(c[i]) {
            return false;
        }
        i = i + 1;
    }
    true
}

/// The part of a line before its first `//` comment marker.
pub fn strip_comment(line: &str) -> (r: &str)
    ensures
        r@ == cut_comment(line@),
{
    let c = chars_of(line);
    let mut i: usize = 0;
    while i < c.len() && i + 1 < c.len() && !(c[i] == '/' && c[i + 1] == '/')
        invariant
            c@ == line@,
            i <= c@.len(),
            find_pair(line@, '/', '/', i as int) == find_pair(line@, '/', '/', 0),
        decreases c@.len() - i,
    {
        i = i + 1;
    }
    let end = if i < c.len() && i + 1 < c.len() {
        i
    } else {
        c.len()
    };
    line.substring_char(0, end)
}

/// Position of the first `c` at or after `from` in `s`, or the length.
pub fn find_char_from(s: &Vec<char>, c: char, from: usize) -> (r: usize)
    requires
        from <= s@.len(),
    ensures
        r == find_char(s@, c, from as int),
{
    let mut i = from;
    while i < s.len() && s[i] != c
        invariant
            from <= i <= s@.len(),
            find_char(s@, c, i as int) == find_char(s@, c, from as int),
        decreases s@.len() - i,
    {
        i = i + 1;
    }
    i
}

/// Position of the first `a b` pair at or after `from` in `s`, or the length.
pub fn find_pair_from(s: &Vec<char>, a: char, b: char, from: usize) -> (r: usize)
    requires
        from <= s@.len(),
    ensures
        r == find_pair(s@, a, b, from as int),
{
    let mut i = from;
    while i < s.len() && i + 1 < s.len() && !(s[i] == a && s[i + 1] == b)
        invariant
            from <= i <= s@.len(),
            find_pair(s@, a, b, i as int) == find_pair(s@, a, b, from as int),
        decreases s@.len() - i,
    {
        i = i + 1;
    }
    if i < s.len() && i + 1 < s.len() {
        i
    } else {
        s.len()
    }
}

/// Whether `s` begins with `p`.
pub fn starts_with(s: &str, p: &str) -> (b: bool)
    ensures
        b == has_prefix(s@, p@),
{
    let x = chars_of(s);
    let y = chars_of(p);
    if y.len() > x.len() {
        return false;
    }
    let mut i: usize = 0;
    while i < y.len()
        invariant
            x@ == s@,
            y@ == p@,
            y@.len() <= x@.len(),
            i <= y@.len(),
            forall|k: int| 0 <= k < i ==> x@[k] == y@[k],
        decreases y@.len() - i,
    {
        if x[i] != y[i] {
            assert(s@.take(p@.len() as int)[i as int] != p@[i as int]);
            return false;
        }
        i = i + 1;
    }
    assert(s@.take(p@.len() as int) =~= p@);
    true
}

pub open spec fn all_digits(s: Seq<char>) -> bool {
    forall|i: int| 0 <= i < s.len() ==> ascii_digit(#[trigger] s[i])
}

/// Decimal value of a digit string.
pub open spec fn digits_value(s: Seq<char>) -> int
    decreases s.len(),
{
    if s.len() == 0 {
        0
    } else {
        10 * digits_value(s.drop_last()) + (s.last() as int - '0' as int)
    }
}

/// What `i64::from_str` accepts: an optional sign, then at least one
/// decimal digit, within the range of `i64`.
pub open spec fn i64_of(s: Seq<char>) -> Option<i64> {
    if s.len() == 0 {
        None
    } else {
        let m = if s[0] == '-' || s[0] == '+' {
            s.drop_first()
        } else {
            s
        };
        if m.len() == 0 || !all_digits(m) {
            None
        } else if s[0] == '-' {
            if digits_value(m) <= 0x8000_0000_0000_0000 {
                Some((-digits_value(m)) as i64)
            } else {
                None
            }
        } else if digits_value(m) <= 0x7fff_ffff_ffff_ffff {
            Some(digits_value(m) as i64)
        } else {
            None
        }
    }
}

proof fn lemma_digits_grow(m: Seq<char>, k: int)
    requires
        all_digits(m),
        0 <= k <= m.len(),
    ensures
        0 <= digits_value(m.take(k)) <= digits_value(m),
    decreases m.len() - k,
{
    if k < m.len() {
        lemma_digits_grow(m, k + 1);
        assert(m.take(k + 1).drop_last() =~= m.take(k));
        assert(ascii_digit(m[k]));
        lemma_digits_nonneg(m.take(k));
    } else {
        assert(m.take(k) =~= m);
        lemma_digits_nonneg(m);
    }
}

proof fn lemma_digits_nonneg(m: Seq<char>)
    requires
        all_digits(m),
    ensures
        digits_value(m) >= 0,
    decreases m.len(),
{
    if m.len() > 0 {
        assert(all_digits(m.drop_last())) by {
            assert forall|i: int| 0 <= i < m.drop_last().len() implies ascii_digit(#[trigger] m.drop_last()[i]) by {
                assert(m.drop_last()[i] == m[i]);
            }
        }
        lemma_digits_nonneg(m.drop_last());
        assert(ascii_digit(m[m.len() - 1]));
    }
}

/// Parses a signed decimal `i64` as `i64::from_str` does.
pub fn parse_i64(s: &str) -> (r: Option<i64>)
    ensures
        r == i64_of(s@),
{
    let c = chars_of(s);
    if c.len() == 0 {
        return None;
    }
    let neg = c[0] == '-';
    let start: usize = if c[0] == '-' || c[0] == '+' {
        1
    } else {
        0
    };
    let ghost m = if c@[0] == '-' || c@[0] == '+' {
        s@.drop_first()
    } else {
        s@
    };
    assert(m =~= s@.skip(start as int));
    if start == c.len() {
        return None;
    }
    let limit: u128 = if neg {
        0x8000_0000_0000_0000
    } else {
        0x7fff_ffff_ffff_ffff
    };
    let mut v: u128 = 0;
    let mut i: usize = start;
    assert(m.take(0) =~= Seq::<char>::empty());
    while i < c.len()
        invariant
            c@ == s@,
            start <= i <= c@.len(),
            start < c@.len(),
            m =~= s@.skip(start as int),
            m == (if s@[0] == '-' || s@[0] == '+' {
                s@.drop_first()
            } else {
                s@
            }),
            neg == (s@[0] == '-'),
            limit == (if neg {
                0x8000_0000_0000_0000int
            } else {
                0x7fff_ffff_ffff_ffffint
            }),
            v == digits_value(m.take(i - start)),
            v <= limit,
            all_digits(m.take(i - start)),
        decreases c@.len() - i,
    {
        let d = c[i];
        if !is_ascii_digit(d) {
            assert(m[i - start] == d);
            return None;
        }
        assert(m.take(i - start + 1).drop_last() =~= m.take(i - start));
        assert(m.take(i - start + 1).last() == d);
        assert(all_digits(m.take(i - start + 1))) by {
            assert forall|k: int| 0 <= k < m.take(i - start + 1).len() implies ascii_digit(
                #[trigger] m.take(i - start + 1)[k],
            ) by {
                if k < i - start {
                    assert(m.take(i - start + 1)[k] == m.take(i - start)[k]);
                }
            }
        }
        v = v * 10 + ((d as u32) - ('0' as u32)) as u128;
        if v > limit {
            proof {
                if all_digits(m) {
                    lemma_digits_grow(m, i - start + 1);
                }
            }
            return None;
        }
        i = i + 1;
    }
    assert(m.take(i - start) =~= m);
    if neg {
        Some((0 - (v as i128)) as i64)
    } else {
        Some(v as i64)
    }
}

/// A lexical token of an evolve expression.
#[derive(Debug)]
pub enum Tok {
    Ident(String),
    /// A numeric literal, as written.
    Num(String),
    Plus,
    Minus,
    Star,
    LParen,
    RParen,
}

pub enum TokView {
    Ident(Seq<char>),
    Num(Seq<char>),
    Plus,
    Minus,
    Star,
    LParen,
    RParen,
}

impl View for Tok {
    type V = TokView;

    open spec fn view(&self) -> TokView {
        match self {
            Tok::Ident(s) => TokView::Ident(s@),
            Tok::Num(s) => TokView::Num(s@),
            Tok::Plus => TokView::Plus,
            Tok::Minus => TokView::Minus,
            Tok::Star => TokView::Star,
            Tok::LParen => TokView::LParen,
            Tok::RParen => TokView::RParen,
        }
    }
}

pub open spec fn toks_view(ts: Seq<Tok>) -> Seq<TokView> {
    ts.map_values(|t: Tok| t@)
}

pub open spec fn num_char(c: char) -> bool {
    ascii_digit(c) || c == '.'
}

/// End of the run of identifier (or number) characters starting at `i`.
pub open spec fn run_end(s: Seq<char>, i: int, ident: bool) -> int
    decreases s.len() - i,
{
    if 0 <= i < s.len() && (if ident {
        ident_char(s[i])
    } else {
        num_char(s[i])
    }) {
        run_end(s, i + 1, ident)
    } else {
        i
    }
}

/// What `f64::from_str` accepts of a run of digits and points: at least one
/// digit and at most one point.
pub open spec fn number_ok(t: Seq<char>) -> bool {
    &&& find_char(t, '.', find_char(t, '.', 0) + 1) == t.len()
    &&& exists|i: int| 0 <= i < t.len() && ascii_digit(#[trigger] t[i])
}

pub open spec fn cons_tok(t: TokView, r: Result<Seq<TokView>, Seq<char>>) -> Result<Seq<TokView>, Seq<char>> {
    match r {
        Ok(ts) => Ok(seq![t] + ts),
        Err(m) => Err(m),
    }
}

/// Tokens of an expression, or the message of the first lexical error.
pub open spec fn tokens_of(s: Seq<char>) -> Result<Seq<TokView>, Seq<char>>
    decreases s.len(),
{
    if s.len() == 0 {
        Ok(Seq::empty())
    } else {
        let c = s[0];
        if c == ' ' || c == '\t' {
            tokens_of(s.drop_first())
        } else if c == '+' {
            cons_tok(TokView::Plus, tokens_of(s.drop_first()))
        } else if c == '-' {
            cons_tok(TokView::Minus, tokens_of(s.drop_first()))
        } else if c == '*' {
            cons_tok(TokView::Star, tokens_of(s.drop_first()))
        } else if c == '(' {
            cons_tok(TokView::LParen, tokens_of(s.drop_first()))
        } else if c == ')' {
            cons_tok(TokView::RParen, tokens_of(s.drop_first()))
        } else if num_char(c) || ident_start(c) {
            let ident = !num_char(c);
            let k = run_end(s, 1, ident);
            let t = s.take(k);
            if !(1 <= k <= s.len()) {
                Err(Seq::empty())
            } else if !ident && !number_ok(t) {
                Err("invalid number `"@ + t + "`"@)
            } else {
                cons_tok(
                    if ident {
                        TokView::Ident(t)
                    } else {
                        TokView::Num(t)
                    },
                    tokens_of(s.skip(k)),
                )
            }
        } else {
            Err("unexpected character `"@ + seq![c] + "`"@)
        }
    }
}

pub open spec fn prefixed(pre: Seq<TokView>, r: Result<Seq<TokView>, Seq<char>>) -> Result<Seq<TokView>, Seq<char>> {
    match r {
        Ok(ts) => Ok(pre + ts),
        Err(m) => Err(m),
    }
}

proof fn lemma_ident_run(a: Seq<char>, rest: Seq<char>, i: int)
    requires
        ident_ok(a),
        1 <= i <= a.len(),
        rest.len() == 0 || !ident_char(rest[0]),
    ensures
        run_end(a + rest, i, true) == a.len(),
    decreases a.len() - i,
{
    if i < a.len() {
        assert((a + rest)[i] == a[i]);
        lemma_ident_run(a, rest, i + 1);
    } else if rest.len() > 0 {
        assert((a + rest)[i] == rest[0]);
    }
}

/// An identifier ended by a character that cannot continue it is one token.
pub proof fn lemma_ident_token(a: Seq<char>, rest: Seq<char>)
    requires
        ident_ok(a),
        rest.len() == 0 || !ident_char(rest[0]),
    ensures
        tokens_of(a + rest) == cons_tok(TokView::Ident(a), tokens_of(rest)),
{
    let s = a + rest;
    assert(s[0] == a[0]);
    lemma_ident_run(a, rest, 1);
    assert(s.take(a.len() as int) =~= a);
    assert(s.skip(a.len() as int) =~= rest);
}

proof fn lemma_run_shift(s: Seq<char>, i: int, j: int, ident: bool)
    requires
        0 <= i <= s.len(),
        0 <= j,
    ensures
        run_end(s.skip(i), j, ident) + i == run_end(s, i + j, ident),
    decreases s.len() - i - j,
{
    if i + j < s.len() {
        assert(s.skip(i)[j] == s[i + j]);
        lemma_run_shift(s, i, j + 1, ident);
    }
}

pub fn is_num_char(c: char) -> (b: bool)
    ensures
        b == num_char(c),
{
    is_ascii_digit(c) || c == '.'
}

/// Whether `c` continues an identifier (or a number).
fn in_run(c: char, ident: bool) -> (b: bool)
    ensures
        b == (if ident {
            ident_char(c)
        } else {
            num_char(c)
        }),
{
    if ident {
        is_ident_char(c)
    } else {
        is_num_char(c)
    }
}

/// Whether a run of digits and points reads as a number.
fn number_text_ok(t: &str) -> (b: bool)
    ensures
        b == number_ok(t@),
{
    let c = chars_of(t);
    let first = find_char_from(&c, '.', 0);
    proof {
        lemma_find_char(t@, '.', 0);
    }
    let single = if first == c.len() {
        true
    } else {
        find_char_from(&c, '.', first + 1) == c.len()
    };
    let mut i: usize = 0;
    while i < c.len()
        invariant
            c@ == t@,
            i <= c@.len(),
            single == (find_char(t@, '.', find_char(t@, '.', 0) + 1) == t@.len()),
            forall|k: int| 0 <= k < i ==> !ascii_digit(#[trigger] t@[k]),
        decreases c@.len() - i,
    {
        if is_ascii_digit(c[i]) {
            assert(ascii_digit(t@[i as int]));
            return single;
        }
        i = i + 1;
    }
    false
}

/// Splits an expression into tokens.
pub fn tokenize(input: &str) -> (r: Result<Vec<Tok>, String>)
    ensures
        match tokens_of(input@) {
            Ok(ts) => r matches Ok(v) && toks_view(v@) == ts,
            Err(m) => r matches Err(e) && e@ == m,
        },
{
    let c = chars_of(input);
    let ghost s = input@;
    let mut out: Vec<Tok> = Vec::new();
    let mut i: usize = 0;
    assert(s.skip(0) =~= s);
    assert(toks_view(out@) + Seq::<TokView>::empty() =~= Seq::<TokView>::empty());
    while i < c.len()
        invariant
            c@ == s,
            s == input@,
            i <= c@.len(),
            tokens_of(s) == prefixed(toks_view(out@), tokens_of(s.skip(i as int))),
        decreases c@.len() - i,
    {
        let ghost t = s.skip(i as int);
        let ghost pre = toks_view(out@);
        assert(t[0] == c@[i as int]);
        assert(t.drop_first() =~= s.skip(i + 1));
        let ch = c[i];
        let single = if ch == '+' {
            Some(Tok::Plus)
        } else if ch == '-' {
            Some(Tok::Minus)
        } else if ch == '*' {
            Some(Tok::Star)
        } else if ch == '(' {
            Some(Tok::LParen)
        } else if ch == ')' {
            Some(Tok::RParen)
        } else {
            None
        };
        if ch == ' ' || ch == '\t' {
            i = i + 1;
        } else if let Some(tok) = single {
            let ghost tv = tok@;
            out.push(tok);
            proof {
                assert(toks_view(out@) =~= pre.push(tv));
                assert(tokens_of(t) == cons_tok(tv, tokens_of(s.skip(i + 1))));
                match tokens_of(s.skip(i + 1)) {
                    Ok(rest) => {
                        assert(pre + (seq![tv] + rest) =~= pre.push(tv) + rest);
                    },
                    Err(_) => {},
                }
            }
            i = i + 1;
        } else if is_num_char(ch) || is_ident_start(ch) {
            let ident = !is_num_char(ch);
            let mut j = i + 1;
            while j < c.len() && in_run(c[j], ident)
                invariant
                    c@ == s,
                    i < j <= c@.len(),
                    run_end(s, j as int, ident) == run_end(s, i + 1, ident),
                decreases c@.len() - j,
            {
                j = j + 1;
            }
            let text = input.substring_char(i, j);
            proof {
                lemma_run_shift(s, i as int, 1, ident);
                assert(run_end(t, 1, ident) == j - i);
                assert(t.take(j - i) =~= s.subrange(i as int, j as int));
                assert(t.skip(j - i) =~= s.skip(j as int));
            }
            if !ident && !number_text_ok(text) {
                let mut msg = String::from_str("invalid number `");
                msg.append(text);
                msg.append("`");
                return Err(msg);
            }
            let word = String::from_str(text);
            let tok = if ident {
                Tok::Ident(word)
            } else {
                Tok::Num(word)
            };
            let ghost tv = tok@;
            out.push(tok);
            proof {
                assert(toks_view(out@) =~= pre.push(tv));
                assert(tokens_of(t) == cons_tok(tv, tokens_of(s.skip(j as int))));
                match tokens_of(s.skip(j as int)) {
                    Ok(rest) => {
                        assert(pre + (seq![tv] + rest) =~= pre.push(tv) + rest);
                    },
                    Err(_) => {},
                }
            }
            i = j;
        } else {
            let mut msg = String::from_str("unexpected character `");
            msg.append(input.substring_char(i, i + 1));
            msg.append("`");
            assert(s.subrange(i as int, i + 1) =~= seq![ch]);
            return Err(msg);
        }
    }
    assert(s.skip(i as int) =~= Seq::<char>::empty());
    assert(toks_view(out@) + Seq::<TokView>::empty() =~= toks_view(out@));
    Ok(out)
}

} // verus!
