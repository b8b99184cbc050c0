//! The outer lexer: turns `rsx! { ... }` source into tokens, checking element and
//! attribute names against a [`Directory`] as they are scanned.
use vstd::prelude::*;
use crate::ast::{Segment, Values};
use crate::directory::Directory;
use crate::text::{chars_of, substring};
use crate::values::{is_word, is_word_char, lemma_value_lex_err, lex_values_in, run_end, run_end_of, value_lex};

verus! {

/// A token of the outer syntax.
#[derive(Clone, Debug, PartialEq)]
pub enum Token<'a> {
    Values(Values<'a>),
    Attribute(&'a str),
    Element(&'a str),
    Rsx,
    OpeningBrace,
    ClosingBrace,
    QuestionMark,
    Comma,
    Pound,
}

pub enum TokenView {
    Values(Seq<Segment>),
    Attribute(Seq<char>),
    Element(Seq<char>),
    Rsx,
    OpeningBrace,
    ClosingBrace,
    QuestionMark,
    Comma,
    Pound,
}

impl<'a> View for Token<'a> {
    type V = TokenView;

    open spec fn view(&self) -> TokenView {
        match self {
            Token::Values(v) => TokenView::Values(v@),
            Token::Attribute(a) => TokenView::Attribute(a@),
            Token::Element(e) => TokenView::Element(e@),
            Token::Rsx => TokenView::Rsx,
            Token::OpeningBrace => TokenView::OpeningBrace,
            Token::ClosingBrace => TokenView::ClosingBrace,
            Token::QuestionMark => TokenView::QuestionMark,
            Token::Comma => TokenView::Comma,
            Token::Pound => TokenView::Pound,
        }
    }
}

/// A token with the characters `start..end` of the source it was read from.
#[derive(Clone, Debug, PartialEq)]
pub struct Spanned<'a> {
    pub token: Token<'a>,
    pub start: usize,
    pub end: usize,
}

pub struct SpannedView {
    pub token: TokenView,
    pub start: int,
    pub end: int,
}

impl<'a> View for Spanned<'a> {
    type V = SpannedView;

    open spec fn view(&self) -> SpannedView {
        SpannedView { token: self.token@, start: self.start as int, end: self.end as int }
    }
}

/// Why a source was refused.
#[derive(Clone, Copy, Debug, PartialEq)]
pub enum ErrorKind<'a> {
    /// Characters that no lexical rule matches.
    LexError,
    /// A string literal that is still open where the source ends.
    UnterminatedLiteral,
    /// An element tag that the directory does not list.
    UnknownElement(&'a str),
    /// An attribute name that no directory entry carries.
    UnknownAttribute(&'a str),
    /// A token where the grammar expects another, or the end of the source too early.
    StructuralError,
}

pub enum ErrorKindView {
    LexError,
    UnterminatedLiteral,
    UnknownElement(Seq<char>),
    UnknownAttribute(Seq<char>),
    StructuralError,
}

impl<'a> View for ErrorKind<'a> {
    type V = ErrorKindView;

    open spec fn view(&self) -> ErrorKindView {
        match self {
            ErrorKind::LexError => ErrorKindView::LexError,
            ErrorKind::UnterminatedLiteral => ErrorKindView::UnterminatedLiteral,
            ErrorKind::UnknownElement(n) => ErrorKindView::UnknownElement(n@),
            ErrorKind::UnknownAttribute(n) => ErrorKindView::UnknownAttribute(n@),
            ErrorKind::StructuralError => ErrorKindView::StructuralError,
        }
    }
}

/// A refusal: its kind, the offending characters, and the position where they start,
/// counted both in characters and in bytes of the UTF-8 source.
#[derive(Clone, Copy, Debug, PartialEq)]
pub struct ParseError<'a> {
    pub kind: ErrorKind<'a>,
    pub span: &'a str,
    pub offset: usize,
    pub byte_offset: usize,
}

/// Length in bytes of the UTF-8 encoding of `s`.
pub open spec fn utf8_len(s: Seq<char>) -> nat {
    vstd::utf8::encode_utf8(s).len()
}

/// `e` points into `src`: its span is the source's characters from its offset on, and
/// its byte offset is the encoded length of what comes before.
pub open spec fn located<'a>(e: ParseError<'a>, src: &'a str) -> bool {
    &&& e.span@ == src@.subrange(e.offset as int, e.offset + e.span@.len())
    &&& e.byte_offset == utf8_len(src@.subrange(0, e.offset as int)) as usize
}

pub struct ErrorView {
    pub kind: ErrorKindView,
    pub start: int,
    pub end: int,
}

impl<'a> View for ParseError<'a> {
    type V = ErrorView;

    open spec fn view(&self) -> ErrorView {
        ErrorView {
            kind: self.kind@,
            start: self.offset as int,
            end: self.offset + self.span@.len(),
        }
    }
}

pub open spec fn is_space(c: char) -> bool {
    c == ' ' || c == '\t' || c == '\n' || c == '\x0C'
}

/// Identifier characters of the outer syntax: word characters and `#`.
pub open spec fn is_ident_char(c: char) -> bool {
    is_word_char(c) || c == '#'
}

/// First position at or after `i` that is not white space.
pub open spec fn skip_space(s: Seq<char>, i: int) -> int
    decreases s.len() - i,
{
    if 0 <= i < s.len() && is_space(s[i]) {
        skip_space(s, i + 1)
    } else {
        i
    }
}

/// End of the run of identifier characters that starts at `i`.
pub open spec fn ident_end(s: Seq<char>, i: int) -> int
    decreases s.len() - i,
{
    if 0 <= i < s.len() && is_ident_char(s[i]) {
        ident_end(s, i + 1)
    } else {
        i
    }
}

/// First position at or after `i` holding `"` or `\`, or the end.
pub open spec fn quote_end(s: Seq<char>, i: int) -> int
    decreases s.len() - i,
{
    if 0 <= i < s.len() && s[i] != '"' && s[i] != '\\' {
        quote_end(s, i + 1)
    } else {
        i
    }
}

/// `k` characters `#` start at `a`.
pub open spec fn fence_at(s: Seq<char>, a: int, k: int) -> bool {
    0 <= a && a + k <= s.len() && forall|m: int| a <= m < a + k ==> s[m] == '#'
}

/// First position at or after `q` holding `"` followed by `k` characters `#`, or the end.
pub open spec fn raw_close(s: Seq<char>, q: int, k: int) -> int
    decreases s.len() - q,
{
    if q < 0 || q >= s.len() {
        s.len() as int
    } else if s[q] == '"' && fence_at(s, q + 1, k) {
        q
    } else {
        raw_close(s, q + 1, k)
    }
}

/// One step of the lexer.
pub enum Lexed {
    /// A token and the position after it.
    Token(TokenView, int),
    Fail(ErrorView),
}

pub open spec fn fail(kind: ErrorKindView, start: int, end: int) -> Lexed {
    Lexed::Fail(ErrorView { kind, start, end })
}

/// A literal whose body is `s[a..b]` and whose source ends at `e`.
pub open spec fn literal(s: Seq<char>, a: int, b: int, e: int) -> Lexed {
    match value_lex(s, a, b) {
        Ok(vs) => Lexed::Token(TokenView::Values(vs), e),
        Err(p) => fail(ErrorKindView::LexError, p, p + 1),
    }
}

/// The token that starts at `i`, a position in `s` that holds no white space.
pub open spec fn lex_at(s: Seq<char>, i: int, d: Directory) -> Lexed {
    let n = s.len() as int;
    let c = s[i];
    let h = run_end(s, i + 1, n, '#');
    let w = ident_end(s, i);
    let sp = run_end(s, w, n, ' ');
    if c == '"' {
        let j = quote_end(s, i + 1);
        if j >= n {
            fail(ErrorKindView::UnterminatedLiteral, i, n)
        } else if s[j] == '\\' {
            fail(ErrorKindView::LexError, i, i + 1)
        } else {
            literal(s, i + 1, j, j + 1)
        }
    } else if c == 'r' && h > i + 1 && h < n && s[h] == '"' {
        let k = h - (i + 1);
        let q = raw_close(s, h + 1, k);
        if q >= n {
            fail(ErrorKindView::UnterminatedLiteral, i, n)
        } else {
            literal(s, h + 1, q, q + 1 + k)
        }
    } else if is_ident_char(c) && sp < n && s[sp] == ':' {
        if d.attribute_map().contains_key(s.subrange(i, w)) {
            Lexed::Token(TokenView::Attribute(s.subrange(i, w)), sp + 1)
        } else {
            fail(ErrorKindView::UnknownAttribute(s.subrange(i, w)), i, sp + 1)
        }
    } else if is_ident_char(c) && sp < n && s[sp] == '{' {
        if d.element_map().contains_key(s.subrange(i, w)) {
            Lexed::Token(TokenView::Element(s.subrange(i, w)), sp + 1)
        } else {
            fail(ErrorKindView::UnknownElement(s.subrange(i, w)), i, sp + 1)
        }
    } else if i + 4 <= n && s.subrange(i, i + 4) == seq!['r', 's', 'x', '!'] {
        Lexed::Token(TokenView::Rsx, i + 4)
    } else if c == '#' {
        Lexed::Token(TokenView::Pound, i + 1)
    } else if c == '{' {
        Lexed::Token(TokenView::OpeningBrace, i + 1)
    } else if c == '}' {
        Lexed::Token(TokenView::ClosingBrace, i + 1)
    } else if c == '?' {
        Lexed::Token(TokenView::QuestionMark, i + 1)
    } else if c == ',' {
        Lexed::Token(TokenView::Comma, i + 1)
    } else {
        fail(ErrorKindView::LexError, i, i + 1)
    }
}

pub open spec fn cons<T, E>(x: T, r: Result<Seq<T>, E>) -> Result<Seq<T>, E> {
    match r {
        Ok(rest) => Ok(seq![x] + rest),
        Err(e) => Err(e),
    }
}

/// The tokens of `s[i..]`, white space skipped, or the first refusal.
pub open spec fn lex_from(s: Seq<char>, i: int, d: Directory) -> Result<Seq<SpannedView>, ErrorView>
    decreases s.len() - i,
{
    let j = skip_space(s, i);
    if i < 0 || j < i || j >= s.len() {
        Ok(Seq::empty())
    } else {
        match lex_at(s, j, d) {
            Lexed::Fail(e) => Err(e),
            Lexed::Token(t, e) => if e <= j || e > s.len() {
                Err(ErrorView { kind: ErrorKindView::LexError, start: j, end: j + 1 })
            } else {
                cons(SpannedView { token: t, start: j, end: e }, lex_from(s, e, d))
            },
        }
    }
}

/// The tokens of a whole source.
pub open spec fn lex_source(s: Seq<char>, d: Directory) -> Result<Seq<SpannedView>, ErrorView> {
    lex_from(s, 0, d)
}


fn is_ident(c: char) -> (r: bool)
    ensures
        r == is_ident_char(c),
{
    is_word(c) || c == '#'
}

fn skip_space_of(cs: &Vec<char>, i: usize) -> (r: usize)
    requires
        i <= cs.len(),
    ensures
        r == skip_space(cs@, i as int),
        i <= r <= cs.len(),
{
    let mut j = i;
    while j < cs.len() && (cs[j] == ' ' || cs[j] == '\t' || cs[j] == '\n' || cs[j] == '\x0C')
        invariant
            i <= j <= cs.len(),
            skip_space(cs@, i as int) == skip_space(cs@, j as int),
        decreases cs.len() - j,
    {
        j = j + 1;
    }
    j
}

fn ident_end_of(cs: &Vec<char>, i: usize) -> (r: usize)
    requires
        i <= cs.len(),
    ensures
        r == ident_end(cs@, i as int),
        i <= r <= cs.len(),
{
    let mut j = i;
    while j < cs.len() && is_ident(cs[j])
        invariant
            i <= j <= cs.len(),
            ident_end(cs@, i as int) == ident_end(cs@, j as int),
        decreases cs.len() - j,
    {
        j = j + 1;
    }
    j
}

fn quote_end_of(cs: &Vec<char>, i: usize) -> (r: usize)
    requires
        i <= cs.len(),
    ensures
        r == quote_end(cs@, i as int),
        i <= r <= cs.len(),
{
    let mut j = i;
    while j < cs.len() && cs[j] != '"' && cs[j] != '\\'
        invariant
            i <= j <= cs.len(),
            quote_end(cs@, i as int) == quote_end(cs@, j as int),
        decreases cs.len() - j,
    {
        j = j + 1;
    }
    j
}

fn fence_ok(cs: &Vec<char>, a: usize, k: usize) -> (r: bool)
    requires
        a <= cs.len(),
    ensures
        r == fence_at(cs@, a as int, k as int),
{
    if cs.len() - a < k {
        return false;
    }
    let mut m: usize = 0;
    while m < k
        invariant
            m <= k,
            a + k <= cs.len(),
            forall|x: int| a <= x < a + m ==> cs@[x] == '#',
        decreases k - m,
    {
        if cs[a + m] != '#' {
            return false;
        }
        m = m + 1;
    }
    true
}

fn raw_close_of(cs: &Vec<char>, q: usize, k: usize) -> (r: usize)
    requires
        q <= cs.len(),
    ensures
        r == raw_close(cs@, q as int, k as int),
        r < cs.len() ==> fence_at(cs@, r + 1, k as int) && cs@[r as int] == '"',
        q <= r <= cs.len(),
{
    let mut j = q;
    while j < cs.len() && !(cs[j] == '"' && fence_ok(cs, j + 1, k))
        invariant
            q <= j <= cs.len(),
            raw_close(cs@, q as int, k as int) == raw_close(cs@, j as int, k as int),
        decreases cs.len() - j,
    {
        j = j + 1;
    }
    j
}

pub(crate) fn error_at<'a>(src: &'a str, kind: ErrorKind<'a>, start: usize, end: usize) -> (r: ParseError<'a>)
    requires
        start <= end <= src@.len(),
    ensures
        r@ == (ErrorView { kind: kind@, start: start as int, end: end as int }),
        located(r, src),
{
    let before = substring(src, 0, start);
    ParseError { kind, span: substring(src, start, end), offset: start, byte_offset: before.len() }
}

fn literal_of<'a>(src: &'a str, cs: &Vec<char>, a: usize, b: usize, e: usize) -> (r: Result<(Token<'a>, usize), ParseError<'a>>)
    requires
        cs@ == src@,
        a <= b <= cs.len(),
    ensures
        match r {
            Ok(p) => literal(cs@, a as int, b as int, e as int) == Lexed::Token(p.0@, p.1 as int),
            Err(err) => literal(cs@, a as int, b as int, e as int) == Lexed::Fail(err@)
                && located(err, src),
        },
{
    match lex_values_in(src, cs, a, b) {
        Ok(vs) => Ok((Token::Values(vs), e)),
        Err(p) => {
            proof {
                lemma_value_lex_err(cs@, a as int, b as int);
            }
            Err(error_at(src, ErrorKind::LexError, p, p + 1))
        },
    }
}

fn lex_one<'a>(src: &'a str, cs: &Vec<char>, i: usize, d: &Directory) -> (r: Result<(Token<'a>, usize), ParseError<'a>>)
    requires
        cs@ == src@,
        i < cs.len(),
    ensures
        match r {
            Ok(p) => lex_at(cs@, i as int, *d) == Lexed::Token(p.0@, p.1 as int),
            Err(err) => lex_at(cs@, i as int, *d) == Lexed::Fail(err@)
                && located(err, src),
        },
{
    let ghost s = cs@;
    let n = cs.len();
    let c = cs[i];
    if c == '"' {
        let j = quote_end_of(cs, i + 1);
        if j >= n {
            return Err(error_at(src, ErrorKind::UnterminatedLiteral, i, n));
        }
        if cs[j] == '\\' {
            return Err(error_at(src, ErrorKind::LexError, i, i + 1));
        }
        return literal_of(src, cs, i + 1, j, j + 1);
    }
    let h = run_end_of(cs, i + 1, n, '#');
    if c == 'r' && h > i + 1 && h < n && cs[h] == '"' {
        let k = h - (i + 1);
        let q = raw_close_of(cs, h + 1, k);
        if q >= n {
            return Err(error_at(src, ErrorKind::UnterminatedLiteral, i, n));
        }
        return literal_of(src, cs, h + 1, q, q + 1 + k);
    }
    let w = ident_end_of(cs, i);
    let sp = run_end_of(cs, w, n, ' ');
    if is_ident(c) && sp < n && cs[sp] == ':' {
        let name = substring(src, i, w);
        if d.has_attribute(name) {
            return Ok((Token::Attribute(name), sp + 1));
        } else {
            return Err(error_at(src, ErrorKind::UnknownAttribute(name), i, sp + 1));
        }
    }
    if is_ident(c) && sp < n && cs[sp] == '{' {
        let name = substring(src, i, w);
        if d.has_element(name) {
            return Ok((Token::Element(name), sp + 1));
        } else {
            return Err(error_at(src, ErrorKind::UnknownElement(name), i, sp + 1));
        }
    }
    let is_rsx = n - i >= 4 && cs[i] == 'r' && cs[i + 1] == 's' && cs[i + 2] == 'x' && cs[i + 3] == '!';
    proof {
        if is_rsx {
            assert(s.subrange(i as int, i + 4) =~= seq!['r', 's', 'x', '!']);
        } else if i + 4 <= n {
            let t = s.subrange(i as int, i + 4);
            assert(t[0] == s[i as int] && t[1] == s[i + 1] && t[2] == s[i + 2] && t[3] == s[i + 3]);
            assert(t != seq!['r', 's', 'x', '!']);
        }
    }
    if is_rsx {
        Ok((Token::Rsx, i + 4))
    } else if c == '#' {
        Ok((Token::Pound, i + 1))
    } else if c == '{' {
        Ok((Token::OpeningBrace, i + 1))
    } else if c == '}' {
        Ok((Token::ClosingBrace, i + 1))
    } else if c == '?' {
        Ok((Token::QuestionMark, i + 1))
    } else if c == ',' {
        Ok((Token::Comma, i + 1))
    } else {
        Err(error_at(src, ErrorKind::LexError, i, i + 1))
    }
}

pub open spec fn prefix_with<T, E>(pre: Seq<T>, r: Result<Seq<T>, E>) -> Result<Seq<T>, E> {
    match r {
        Ok(rest) => Ok(pre + rest),
        Err(e) => Err(e),
    }
}

proof fn lemma_prefix_cons<T, E>(pre: Seq<T>, x: T, r: Result<Seq<T>, E>)
    ensures
        prefix_with(pre, cons(x, r)) == prefix_with(pre.push(x), r),
{
    match r {
        Ok(rest) => {
            assert(pre + (seq![x] + rest) =~= pre.push(x) + rest);
        },
        Err(_) => {},
    }
}

/// Tokens of `src`, whose characters are `cs`.
pub(crate) fn tokenize_chars<'a>(src: &'a str, cs: &Vec<char>, d: &Directory) -> (r: Result<Vec<Spanned<'a>>, ParseError<'a>>)
    requires
        cs@ == src@,
    ensures
        match r {
            Ok(ts) => lex_source(src@, *d) == Ok::<Seq<SpannedView>, ErrorView>(ts@.map_values(|t: Spanned<'a>| t@)),
            Err(e) => lex_source(src@, *d) == Err::<Seq<SpannedView>, ErrorView>(e@)
                && located(e, src),
        },
{
    let ghost s = cs@;
    let n = cs.len();
    let mut out: Vec<Spanned<'a>> = Vec::new();
    let mut i: usize = 0;
    loop
        invariant
            i <= n == cs.len(),
            s == cs@,
            cs@ == src@,
            lex_from(s, 0, *d) == prefix_with(out@.map_values(|t: Spanned<'a>| t@), lex_from(s, i as int, *d)),
        decreases n - i,
    {
        let j = skip_space_of(cs, i);
        if j >= n {
            proof {
                let pre = out@.map_values(|t: Spanned<'a>| t@);
                assert(pre + Seq::<SpannedView>::empty() =~= pre);
            }
            return Ok(out);
        }
        match lex_one(src, cs, j, d) {
            Err(e) => {
                return Err(e);
            },
            Ok((t, e)) => {
                if e <= j || e > n {
                    return Err(error_at(src, ErrorKind::LexError, j, j + 1));
                }
                let sp = Spanned { token: t, start: j, end: e };
                proof {
                    lemma_prefix_cons(out@.map_values(|t: Spanned<'a>| t@), sp@, lex_from(s, e as int, *d));
                    assert(out@.push(sp).map_values(|t: Spanned<'a>| t@) =~= out@.map_values(|t: Spanned<'a>| t@).push(sp@));
                }
                out.push(sp);
                i = e;
            },
        }
    }
}

/// The tokens of `src`, white space skipped, or the first refusal with the characters
/// it concerns.
pub fn tokenize<'a>(src: &'a str, d: &Directory) -> (r: Result<Vec<Spanned<'a>>, ParseError<'a>>)
    ensures
        match r {
            Ok(ts) => lex_source(src@, *d) == Ok::<Seq<SpannedView>, ErrorView>(ts@.map_values(|t: Spanned<'a>| t@)),
            Err(e) => lex_source(src@, *d) == Err::<Seq<SpannedView>, ErrorView>(e@)
                && located(e, src),
        },
{
    let cs = chars_of(src);
    tokenize_chars(src, &cs, d)
}


/// Every token lies inside the source, after `i`, and is not empty.
pub proof fn lemma_lex_spans(s: Seq<char>, i: int, d: Directory)
    requires
        lex_from(s, i, d) is Ok,
    ensures
        forall|k: int|
            0 <= k < lex_from(s, i, d)->Ok_0.len() ==> i <= #[trigger] lex_from(s, i, d)->Ok_0[k].start
                < lex_from(s, i, d)->Ok_0[k].end <= s.len(),
    decreases s.len() - i,
{
    let j = skip_space(s, i);
    if !(i < 0 || j < i || j >= s.len()) {
        if let Lexed::Token(t, e) = lex_at(s, j, d) {
            if !(e <= j || e > s.len()) {
                lemma_lex_spans(s, e, d);
                let rest = lex_from(s, e, d)->Ok_0;
                let all = lex_from(s, i, d)->Ok_0;
                assert forall|k: int| 0 <= k < all.len() implies i <= #[trigger] all[k].start < all[k].end
                    <= s.len() by {
                    if k > 0 {
                        assert(all[k] == rest[k - 1]);
                    }
                }
            }
        }
    }
}


/// Where scanning at `i` meets an identifier followed by `:` or `{` (after spaces), and
/// it is not the start of a raw literal.
pub open spec fn name_at(s: Seq<char>, i: int) -> bool {
    let n = s.len() as int;
    let h = run_end(s, i + 1, n, '#');
    let sp = run_end(s, ident_end(s, i), n, ' ');
    &&& 0 <= i < n
    &&& is_ident_char(s[i])
    &&& !(s[i] == 'r' && h > i + 1 && h < n && s[h] == '"')
    &&& sp < n
    &&& (s[sp] == ':' || s[sp] == '{')
}

/// An unknown name is refused where it is scanned, and the refusal names it: once the
/// lexer reaches an element tag the directory does not list, or an attribute name no
/// entry carries, lexing ends with `UnknownElement` or `UnknownAttribute` holding that
/// name and spanning it with its `{` or `:`. No tree is built from such a source.
pub proof fn lemma_unknown_name_refused(s: Seq<char>, k: int, i: int, d: Directory)
    requires
        0 <= k <= i,
        skip_space(s, k) == i,
        name_at(s, i),
    ensures
        ({
            let w = ident_end(s, i);
            let sp = run_end(s, w, s.len() as int, ' ');
            let name = s.subrange(i, w);
            &&& s[sp] == '{' && !d.element_map().contains_key(name) ==> lex_from(s, k, d) == Err::<Seq<SpannedView>, ErrorView>(
                ErrorView { kind: ErrorKindView::UnknownElement(name), start: i, end: sp + 1 },
            )
            &&& s[sp] == ':' && !d.attribute_map().contains_key(name) ==> lex_from(s, k, d) == Err::<Seq<SpannedView>, ErrorView>(
                ErrorView { kind: ErrorKindView::UnknownAttribute(name), start: i, end: sp + 1 },
            )
        }),
{
    assert(s[i] != '"');
}

} // verus!
