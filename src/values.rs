//! Splitting the body of one string literal into constant and placeholder segments.
use vstd::prelude::*;
use crate::ast::{Segment, Value, Values, segments_source, segment_source};
use crate::text::{chars_of, substring};

verus! {

/// Whether a character is alphabetic or numeric in Unicode's sense.
pub uninterp spec fn alphanumeric(c: char) -> bool;

/// Relies on char::is_alphanumeric: the character has Unicode's Alphabetic or Numeric
/// property.
#[verifier::external_body]
fn is_alphanumeric(c: char) -> (r: bool)
    ensures
        r == alphanumeric(c),
{
    c.is_alphanumeric()
}

/// Word characters: ASCII letters, digits and `_`, and letters or digits beyond ASCII.
pub open spec fn is_word_char(c: char) -> bool {
    ('a' <= c && c <= 'z') || ('A' <= c && c <= 'Z') || ('0' <= c && c <= '9') || c == '_' || (
    c > '\x7f' && alphanumeric(c))
}

/// Characters that plain constant text may hold.
pub open spec fn is_plain_char(c: char) -> bool {
    c != '"' && c != '\\' && c != '{' && c != '}'
}

pub open spec fn is_align_char(c: char) -> bool {
    c == '.' || c == '<' || c == '>' || c == '^'
}

/// Characters that may pad a formatted placeholder: anything but a newline or a brace.
pub open spec fn is_fill_char(c: char) -> bool {
    c != '\n' && c != '{' && c != '}'
}

/// `s[a..b]` is an optional fill character and an optional alignment mark.
pub open spec fn fill_at(s: Seq<char>, a: int, b: int) -> bool {
    a == b || (b == a + 1 && is_fill_char(s[a])) || (b == a + 2 && is_fill_char(s[a])
        && is_align_char(s[a + 1]))
}

/// `s[a..b]` is `?` or `#?`.
pub open spec fn debug_at(s: Seq<char>, a: int, b: int) -> bool {
    (b == a + 1 && s[a] == '?') || (b == a + 2 && s[a] == '#' && s[a + 1] == '?')
}

/// `s[a..b]` is a placeholder's format suffix: nothing, `?` or `#?`, or `:` followed by
/// `?`, `#?` or a fill. No suffix holds a brace.
pub open spec fn suffix_at(s: Seq<char>, a: int, b: int) -> bool {
    a == b || debug_at(s, a, b) || (a < b && s[a] == ':' && (debug_at(s, a + 1, b) || fill_at(
        s,
        a + 1,
        b,
    )))
}

/// `s[i..e]`, within the bound `b`, is a placeholder: `{`, an identifier of word
/// characters, a format suffix, `}`.
pub open spec fn var_match(s: Seq<char>, i: int, e: int, b: int) -> bool {
    &&& 0 <= i && i + 3 <= e && e <= b && b <= s.len()
    &&& s[i] == '{'
    &&& s[e - 1] == '}'
    &&& exists|k: int|
        i + 2 <= k <= e - 1 && (forall|m: int| i + 1 <= m < k ==> is_word_char(s[m]))
            && #[trigger] suffix_at(s, k, e - 1)
}

/// The largest `e <= top` such that `s[i..e]` is a placeholder, when there is one.
pub open spec fn last_var(s: Seq<char>, i: int, top: int, b: int) -> Option<int>
    decreases top - i,
{
    if top < i + 3 {
        None
    } else if var_match(s, i, top, b) {
        Some(top)
    } else {
        last_var(s, i, top - 1, b)
    }
}

/// End of the longest placeholder that starts at `i`, when there is one.
pub open spec fn longest_var(s: Seq<char>, i: int, b: int) -> Option<int> {
    last_var(s, i, b, b)
}

/// End of the run of plain characters that starts at `i`.
pub open spec fn plain_end(s: Seq<char>, i: int, b: int) -> int
    decreases b - i,
{
    if 0 <= i < b && b <= s.len() && is_plain_char(s[i]) {
        plain_end(s, i + 1, b)
    } else {
        i
    }
}

/// End of the run of `c` that starts at `i`.
pub open spec fn run_end(s: Seq<char>, i: int, b: int, c: char) -> int
    decreases b - i,
{
    if 0 <= i < b && b <= s.len() && s[i] == c {
        run_end(s, i + 1, b, c)
    } else {
        i
    }
}

/// End of the run of word characters that starts at `i`.
pub open spec fn word_end(s: Seq<char>, i: int, b: int) -> int
    decreases b - i,
{
    if 0 <= i < b && b <= s.len() && is_word_char(s[i]) {
        word_end(s, i + 1, b)
    } else {
        i
    }
}

/// The segment that starts at `i` (with `i < b`) and where it ends, or `None` where no
/// rule matches. Rules never compete at one position: plain text cannot start with a
/// brace, a brace run needs two equal braces, a placeholder a word character after `{`.
pub open spec fn value_token(s: Seq<char>, i: int, b: int) -> Option<(Segment, int)> {
    if is_plain_char(s[i]) {
        Some((Segment::Constant(s.subrange(i, plain_end(s, i, b))), plain_end(s, i, b)))
    } else if (s[i] == '{' || s[i] == '}') && i + 1 < b && s[i + 1] == s[i] {
        Some((Segment::Constant(s.subrange(i, run_end(s, i, b, s[i]))), run_end(s, i, b, s[i])))
    } else if s[i] == '{' && longest_var(s, i, b) is Some {
        let e = longest_var(s, i, b)->Some_0;
        Some((Segment::Variable(s.subrange(i + 1, e - 1)), e))
    } else {
        None
    }
}

/// The segments of `s[i..b]`, or the position where no rule matched.
pub open spec fn value_lex(s: Seq<char>, i: int, b: int) -> Result<Seq<Segment>, int>
    decreases b - i,
{
    if i < 0 || b > s.len() || i >= b {
        Ok(Seq::empty())
    } else {
        let t = value_token(s, i, b);
        if t is None || t->Some_0.1 <= i || t->Some_0.1 > b {
            Err(i)
        } else {
            prepend(seq![t->Some_0.0], value_lex(s, t->Some_0.1, b))
        }
    }
}

/// The segments of a whole literal body.
pub open spec fn lex_body(s: Seq<char>) -> Result<Seq<Segment>, int> {
    value_lex(s, 0, s.len() as int)
}

pub open spec fn prepend<T>(pre: Seq<T>, r: Result<Seq<T>, int>) -> Result<Seq<T>, int> {
    match r {
        Ok(rest) => Ok(pre + rest),
        Err(p) => Err(p),
    }
}

proof fn lemma_prepend_assoc<T>(a: Seq<T>, c: Seq<T>, r: Result<Seq<T>, int>)
    ensures
        prepend(a, prepend(c, r)) == prepend(a + c, r),
{
    match r {
        Ok(rest) => {
            assert(a + (c + rest) =~= (a + c) + rest);
        },
        Err(_) => {},
    }
}

proof fn lemma_suffix_len(s: Seq<char>, a: int, b: int)
    requires
        suffix_at(s, a, b),
    ensures
        b - a <= 4,
        a <= b,
{
}

proof fn lemma_word_end(s: Seq<char>, i: int, b: int)
    requires
        0 <= i <= b <= s.len(),
    ensures
        i <= word_end(s, i, b) <= b,
        forall|m: int| i <= m < word_end(s, i, b) ==> is_word_char(s[m]),
        word_end(s, i, b) < b ==> !is_word_char(s[word_end(s, i, b)]),
    decreases b - i,
{
    if i < b && is_word_char(s[i]) {
        lemma_word_end(s, i + 1, b);
    }
}

proof fn lemma_plain_end(s: Seq<char>, i: int, b: int)
    requires
        0 <= i <= b <= s.len(),
    ensures
        i <= plain_end(s, i, b) <= b,
        i < b && is_plain_char(s[i]) ==> i < plain_end(s, i, b),
    decreases b - i,
{
    if i < b && is_plain_char(s[i]) {
        lemma_plain_end(s, i + 1, b);
    }
}

proof fn lemma_run_end(s: Seq<char>, i: int, b: int, c: char)
    requires
        0 <= i <= b <= s.len(),
    ensures
        i <= run_end(s, i, b, c) <= b,
        forall|m: int| i <= m < run_end(s, i, b, c) ==> s[m] == c,
        i < b && s[i] == c ==> i < run_end(s, i, b, c),
    decreases b - i,
{
    if i < b && s[i] == c {
        lemma_run_end(s, i + 1, b, c);
    }
}


proof fn lemma_last_var_skip(s: Seq<char>, i: int, top: int, e: int, b: int)
    requires
        e <= top,
        forall|e2: int| e < e2 <= top ==> !#[trigger] var_match(s, i, e2, b),
    ensures
        last_var(s, i, top, b) == last_var(s, i, e, b),
    decreases top - e,
{
    if e < top {
        assert(!var_match(s, i, top, b));
        lemma_last_var_skip(s, i, top - 1, e, b);
    }
}

fn is_plain(c: char) -> (r: bool)
    ensures
        r == is_plain_char(c),
{
    c != '"' && c != '\\' && c != '{' && c != '}'
}

pub(crate) fn is_word(c: char) -> (r: bool)
    ensures
        r == is_word_char(c),
{
    ('a' <= c && c <= 'z') || ('A' <= c && c <= 'Z') || ('0' <= c && c <= '9') || c == '_' || (
    c > '\x7f' && is_alphanumeric(c))
}

fn is_fill(c: char) -> (r: bool)
    ensures
        r == is_fill_char(c),
{
    c != '\n' && c != '{' && c != '}'
}

fn fill_ok(cs: &Vec<char>, a: usize, b: usize) -> (r: bool)
    requires
        a <= b <= cs.len(),
    ensures
        r == fill_at(cs@, a as int, b as int),
{
    let n = b - a;
    n == 0 || (n == 1 && is_fill(cs[a])) || (n == 2 && is_fill(cs[a]) && (cs[a + 1] == '.'
        || cs[a + 1] == '<' || cs[a + 1] == '>' || cs[a + 1] == '^'))
}

fn debug_ok(cs: &Vec<char>, a: usize, b: usize) -> (r: bool)
    requires
        a <= b <= cs.len(),
    ensures
        r == debug_at(cs@, a as int, b as int),
{
    let n = b - a;
    (n == 1 && cs[a] == '?') || (n == 2 && cs[a] == '#' && cs[a + 1] == '?')
}

fn suffix_ok(cs: &Vec<char>, a: usize, b: usize) -> (r: bool)
    requires
        a <= b <= cs.len(),
    ensures
        r == suffix_at(cs@, a as int, b as int),
{
    a == b || debug_ok(cs, a, b) || (a < b && cs[a] == ':' && (debug_ok(cs, a + 1, b) || fill_ok(
        cs,
        a + 1,
        b,
    )))
}

fn plain_end_of(cs: &Vec<char>, i: usize, b: usize) -> (r: usize)
    requires
        i <= b <= cs.len(),
    ensures
        r == plain_end(cs@, i as int, b as int),
{
    let mut j = i;
    while j < b && is_plain(cs[j])
        invariant
            i <= j <= b,
            b <= cs.len(),
            plain_end(cs@, i as int, b as int) == plain_end(cs@, j as int, b as int),
        decreases b - j,
    {
        j = j + 1;
    }
    j
}

pub(crate) fn run_end_of(cs: &Vec<char>, i: usize, b: usize, c: char) -> (r: usize)
    requires
        i <= b <= cs.len(),
    ensures
        r == run_end(cs@, i as int, b as int, c),
        i <= r <= b,
{
    let mut j = i;
    while j < b && cs[j] == c
        invariant
            i <= j <= b,
            b <= cs.len(),
            run_end(cs@, i as int, b as int, c) == run_end(cs@, j as int, b as int, c),
        decreases b - j,
    {
        j = j + 1;
    }
    j
}

fn word_end_of(cs: &Vec<char>, i: usize, b: usize) -> (r: usize)
    requires
        i <= b <= cs.len(),
    ensures
        r == word_end(cs@, i as int, b as int),
{
    let mut j = i;
    while j < b && is_word(cs[j])
        invariant
            i <= j <= b,
            b <= cs.len(),
            word_end(cs@, i as int, b as int) == word_end(cs@, j as int, b as int),
        decreases b - j,
    {
        j = j + 1;
    }
    j
}

/// End of the longest placeholder at `i`: no placeholder can run more than four
/// characters past the identifier, so only a few ends are tried.
fn longest_var_of(cs: &Vec<char>, i: usize, b: usize) -> (r: Option<usize>)
    requires
        i < b <= cs.len(),
        cs@[i as int] == '{',
    ensures
        match r {
            Some(e) => longest_var(cs@, i as int, b as int) == Some(e as int),
            None => longest_var(cs@, i as int, b as int) is None,
        },
{
    let ghost s = cs@;
    let w = word_end_of(cs, i + 1, b);
    proof {
        lemma_word_end(s, i + 1, b as int);
    }
    let hi = if b - w >= 5 {
        w + 5
    } else {
        b
    };
    proof {
        assert forall|e2: int| hi < e2 <= b implies !#[trigger] var_match(s, i as int, e2, b as int) by {
            if var_match(s, i as int, e2, b as int) {
                let k = choose|k: int|
                    i + 2 <= k <= e2 - 1 && (forall|m: int| i + 1 <= m < k ==> is_word_char(s[m]))
                        && #[trigger] suffix_at(s, k, e2 - 1);
                lemma_suffix_len(s, k, e2 - 1);
                if k > w {
                    assert(is_word_char(s[w as int]));
                }
            }
        }
        lemma_last_var_skip(s, i as int, b as int, hi as int, b as int);
    }
    if w - i < 2 {
        proof {
            assert forall|e2: int| i + 2 < e2 <= hi implies !#[trigger] var_match(s, i as int, e2, b as int) by {
                if var_match(s, i as int, e2, b as int) {
                    let k = choose|k: int|
                        i + 2 <= k <= e2 - 1 && (forall|m: int| i + 1 <= m < k ==> is_word_char(s[m]))
                            && #[trigger] suffix_at(s, k, e2 - 1);
                    assert(is_word_char(s[i + 1]));
                }
            }
            if hi >= i + 2 {
                lemma_last_var_skip(s, i as int, hi as int, i + 2, b as int);
            }
        }
        return None;
    }
    let mut e = hi;
    while e - i >= 3
        invariant
            i + 2 <= e,
            i + 2 <= w <= b,
            hi <= b <= cs.len(),
            s == cs@,
            s[i as int] == '{',
            forall|m: int| i + 1 <= m < w ==> is_word_char(s[m]),
            w < b ==> !is_word_char(s[w as int]),
            e <= hi,
            longest_var(s, i as int, b as int) == last_var(s, i as int, e as int, b as int),
        decreases e,
    {
        if cs[e - 1] == '}' {
            let klo = if e - i >= 7 {
                e - 5
            } else {
                i + 2
            };
            let khi = if w <= e - 1 {
                w
            } else {
                e - 1
            };
            let mut k = klo;
            while k <= khi
                invariant
                    klo <= k,
                    i + 3 <= e,
                    cs@[e - 1] == '}',
                    s[i as int] == '{',
                    longest_var(s, i as int, b as int) == last_var(s, i as int, e as int, b as int),
                    w <= b,
                    khi < e <= b <= cs.len(),
                    khi <= w,
                    i + 2 <= klo,
                    s == cs@,
                    forall|m: int| i + 1 <= m < w ==> is_word_char(s[m]),
                    forall|k2: int| klo <= k2 < k ==> !#[trigger] suffix_at(s, k2, e - 1),
                decreases khi + 1 - k,
            {
                if suffix_ok(cs, k, e - 1) {
                    proof {
                        assert(suffix_at(s, k as int, e - 1));
                        assert(var_match(s, i as int, e as int, b as int));
                    }
                    return Some(e);
                }
                k = k + 1;
            }
            proof {
                if var_match(s, i as int, e as int, b as int) {
                    let k2 = choose|k: int|
                        i + 2 <= k <= e - 1 && (forall|m: int| i + 1 <= m < k ==> is_word_char(s[m]))
                            && #[trigger] suffix_at(s, k, e - 1);
                    lemma_suffix_len(s, k2, e - 1);
                    if k2 > w {
                        assert(is_word_char(s[w as int]));
                    }
                    assert(!suffix_at(s, k2, e - 1));
                }
            }
        }
        e = e - 1;
    }
    None
}

proof fn lemma_map_push<'a>(vs: Seq<Value<'a>>, v: Value<'a>)
    ensures
        vs.push(v).map_values(|x: Value<'a>| x@) == vs.map_values(|x: Value<'a>| x@) + seq![v@],
{
    assert(vs.push(v).map_values(|x: Value<'a>| x@) =~= vs.map_values(|x: Value<'a>| x@) + seq![v@]);
}

/// Splits the characters `a..b` of `src` (whose characters are `cs`) into segments,
/// or gives the position where no rule matched.
pub fn lex_values_in<'a>(src: &'a str, cs: &Vec<char>, a: usize, b: usize) -> (r: Result<Values<'a>, usize>)
    requires
        cs@ == src@,
        a <= b <= cs.len(),
    ensures
        match r {
            Ok(vs) => value_lex(src@, a as int, b as int) == Ok::<Seq<Segment>, int>(vs@),
            Err(p) => value_lex(src@, a as int, b as int) == Err::<Seq<Segment>, int>(p as int),
        },
{
    let ghost s = cs@;
    let mut out: Vec<Value<'a>> = Vec::new();
    let mut i = a;
    while i < b
        invariant
            a <= i <= b <= cs.len(),
            s == cs@,
            cs@ == src@,
            value_lex(s, a as int, b as int) == prepend(
                out@.map_values(|x: Value<'a>| x@),
                value_lex(s, i as int, b as int),
            ),
        decreases b - i,
    {
        let c = cs[i];
        let e: usize;
        let v: Value<'a>;
        if is_plain(c) {
            e = plain_end_of(cs, i, b);
            proof {
                lemma_plain_end(s, i as int, b as int);
            }
            v = Value::Constant(substring(src, i, e));
        } else if (c == '{' || c == '}') && i + 1 < b && cs[i + 1] == c {
            e = run_end_of(cs, i, b, c);
            proof {
                lemma_run_end(s, i as int, b as int, c);
            }
            v = Value::Constant(substring(src, i, e));
        } else if c == '{' {
            match longest_var_of(cs, i, b) {
                Some(end) => {
                    proof {
                        reveal_with_fuel(last_var, 1);
                        assert(var_match(s, i as int, end as int, b as int)) by {
                            lemma_longest_var_matches(s, i as int, b as int, b as int);
                        }
                    }
                    e = end;
                    v = Value::Variable(substring(src, i + 1, e - 1));
                },
                None => {
                    return Err(i);
                },
            }
        } else {
            return Err(i);
        }
        proof {
            assert(value_token(s, i as int, b as int) == Some((v@, e as int)));
            lemma_prepend_assoc(out@.map_values(|x: Value<'a>| x@), seq![v@], value_lex(s, e as int, b as int));
            lemma_map_push(out@, v);
        }
        out.push(v);
        i = e;
    }
    proof {
        let pre = out@.map_values(|x: Value<'a>| x@);
        assert(pre + Seq::<Segment>::empty() =~= pre);
    }
    Ok(Values(out))
}

proof fn lemma_longest_var_matches(s: Seq<char>, i: int, top: int, b: int)
    requires
        last_var(s, i, top, b) is Some,
    ensures
        var_match(s, i, last_var(s, i, top, b)->Some_0, b),
        last_var(s, i, top, b)->Some_0 <= top,
    decreases top - i,
{
    if top >= i + 3 && !var_match(s, i, top, b) {
        lemma_longest_var_matches(s, i, top - 1, b);
    }
}

/// Splits the body of one string literal into constant and placeholder segments,
/// or gives the character position where no rule matched.
pub fn lex_values<'a>(text: &'a str) -> (r: Result<Values<'a>, usize>)
    ensures
        match r {
            Ok(vs) => lex_body(text@) == Ok::<Seq<Segment>, int>(vs@),
            Err(p) => lex_body(text@) == Err::<Seq<Segment>, int>(p as int),
        },
{
    let cs = chars_of(text);
    lex_values_in(text, &cs, 0, cs.len())
}


proof fn lemma_source_prepend(x: Segment, rest: Seq<Segment>)
    ensures
        segments_source(seq![x] + rest) == segment_source(x) + segments_source(rest),
    decreases rest.len(),
{
    if rest.len() == 0 {
        assert(seq![x] + rest =~= seq![x]);
        assert(seq![x].drop_last() =~= Seq::<Segment>::empty());
        assert(Seq::<char>::empty() + segment_source(x) =~= segment_source(x));
        assert(segment_source(x) + Seq::<char>::empty() =~= segment_source(x));
        assert(seq![x].last() == x);
        assert(segments_source(seq![x]) == segments_source(seq![x].drop_last()) + segment_source(x));
        assert(segments_source(rest) == Seq::<char>::empty());
    } else {
        lemma_source_prepend(x, rest.drop_last());
        assert((seq![x] + rest).drop_last() =~= seq![x] + rest.drop_last());
        assert((seq![x] + rest).last() == rest.last());
        assert(segment_source(x) + segments_source(rest.drop_last()) + segment_source(rest.last())
            =~= segment_source(x) + (segments_source(rest.drop_last()) + segment_source(rest.last())));
    }
}

proof fn lemma_value_lex_source(s: Seq<char>, i: int, b: int)
    requires
        0 <= i <= b <= s.len(),
        value_lex(s, i, b) is Ok,
    ensures
        segments_source(value_lex(s, i, b)->Ok_0) == s.subrange(i, b),
    decreases b - i,
{
    if i == b {
        assert(s.subrange(i, b) =~= Seq::<char>::empty());
    } else {
        let t = value_token(s, i, b)->Some_0;
        let e = t.1;
        lemma_value_lex_source(s, e, b);
        lemma_source_prepend(t.0, value_lex(s, e, b)->Ok_0);
        if !is_plain_char(s[i]) && !((s[i] == '{' || s[i] == '}') && i + 1 < b && s[i + 1] == s[i]) {
            lemma_longest_var_matches(s, i, b, b);
            assert(segment_source(t.0) =~= s.subrange(i, e));
        }
        assert(s.subrange(i, e) + s.subrange(e, b) =~= s.subrange(i, b));
    }
}

/// Nothing of a literal body is lost or invented: when the body lexes, putting every
/// segment's source text back together, placeholders inside their braces, gives the
/// body again.
pub proof fn lemma_segments_reassemble(body: Seq<char>)
    ensures
        lex_body(body) is Ok ==> segments_source(lex_body(body)->Ok_0) == body,
{
    if lex_body(body) is Ok {
        lemma_value_lex_source(body, 0, body.len() as int);
        assert(body.subrange(0, body.len() as int) =~= body);
    }
}


/// A refusal of the segment lexer lies inside the range it was given.
pub proof fn lemma_value_lex_err(s: Seq<char>, i: int, b: int)
    requires
        value_lex(s, i, b) is Err,
    ensures
        0 <= i <= value_lex(s, i, b)->Err_0 < b <= s.len(),
    decreases b - i,
{
    let t = value_token(s, i, b);
    if !(t is None || t->Some_0.1 <= i || t->Some_0.1 > b) {
        lemma_value_lex_err(s, t->Some_0.1, b);
    }
}


/// No character of `t` is a brace.
pub open spec fn brace_free(t: Seq<char>) -> bool {
    forall|m: int| 0 <= m < t.len() ==> t[m] != '{' && t[m] != '}'
}

/// Every placeholder segment of the result holds no brace.
pub open spec fn placeholders_brace_free(vs: Seq<Segment>) -> bool {
    forall|j: int| 0 <= j < vs.len() ==> (#[trigger] vs[j] matches Segment::Variable(v) ==> brace_free(v))
}

proof fn lemma_var_brace_free(s: Seq<char>, i: int, e: int, b: int)
    requires
        var_match(s, i, e, b),
    ensures
        brace_free(s.subrange(i + 1, e - 1)),
{
    let k = choose|k: int|
        i + 2 <= k <= e - 1 && (forall|m: int| i + 1 <= m < k ==> is_word_char(s[m]))
            && #[trigger] suffix_at(s, k, e - 1);
    let t = s.subrange(i + 1, e - 1);
    assert forall|m: int| 0 <= m < t.len() implies t[m] != '{' && t[m] != '}' by {
        if i + 1 + m < k {
            assert(is_word_char(s[i + 1 + m]));
        } else {
            assert(suffix_at(s, k, e - 1));
        }
    }
}

proof fn lemma_value_lex_brace_free(s: Seq<char>, i: int, b: int)
    requires
        0 <= i <= b <= s.len(),
        value_lex(s, i, b) is Ok,
    ensures
        placeholders_brace_free(value_lex(s, i, b)->Ok_0),
    decreases b - i,
{
    if i < b {
        let t = value_token(s, i, b)->Some_0;
        let e = t.1;
        lemma_value_lex_brace_free(s, e, b);
        if !is_plain_char(s[i]) && !((s[i] == '{' || s[i] == '}') && i + 1 < b && s[i + 1] == s[i]) {
            lemma_longest_var_matches(s, i, b, b);
            lemma_var_brace_free(s, i, e, b);
        }
        let all = value_lex(s, i, b)->Ok_0;
        let rest = value_lex(s, e, b)->Ok_0;
        assert(all == seq![t.0] + rest);
        assert forall|j: int| 0 <= j < all.len() implies (#[trigger] all[j] matches Segment::Variable(v) ==> brace_free(v)) by {
            if j > 0 {
                assert(all[j] == rest[j - 1]);
            }
        }
    }
}

/// Braces only delimit placeholders: no placeholder segment of a lexed body holds a
/// brace, so no brace of a run of equal braces is read as part of a placeholder's name
/// or format.
pub proof fn lemma_placeholders_hold_no_brace(body: Seq<char>)
    ensures
        lex_body(body) is Ok ==> placeholders_brace_free(lex_body(body)->Ok_0),
{
    if lex_body(body) is Ok {
        lemma_value_lex_brace_free(body, 0, body.len() as int);
    }
}

} // verus!
