//! The grammar: an `rsx!` call holds nodes; an element holds attributes, each
//! followed by a comma, then child nodes, then a closing brace.
use vstd::prelude::*;
use crate::ast::{
    attribute_view, lemma_nodes_view, node_view, nodes_view, AttributeSet, AttributeView, Element,
    ElementView, Node, NodeView, RsxCall, Segment, Value, Values,
};
use crate::directory::Directory;
use crate::lexer::{
    error_at, lemma_lex_spans, located, lex_at, lex_from, lex_source, skip_space, tokenize_chars, Lexed, ErrorKind, ErrorKindView, ErrorView, ParseError,
    Spanned, SpannedView, Token, TokenView,
};
use crate::text::{chars_of, substring};

verus! {

/// The refusal for token `i`, or for the end of a source of `n` characters when the
/// tokens have run out.
pub open spec fn structural_error(ts: Seq<SpannedView>, i: int, n: int) -> ErrorView {
    if 0 <= i < ts.len() {
        ErrorView { kind: ErrorKindView::StructuralError, start: ts[i].start, end: ts[i].end }
    } else {
        ErrorView { kind: ErrorKindView::StructuralError, start: n, end: n }
    }
}

pub open spec fn token_at(ts: Seq<SpannedView>, i: int) -> Option<TokenView> {
    if 0 <= i < ts.len() {
        Some(ts[i].token)
    } else {
        None
    }
}

/// `(attribute Values ",")*` from token `i`, added to `acc`; with the position after them.
pub open spec fn parse_attributes(ts: Seq<SpannedView>, i: int, n: int, acc: Seq<AttributeView>)
    -> Result<(Seq<AttributeView>, int), ErrorView>
    decreases ts.len() - i,
{
    match token_at(ts, i) {
        Some(TokenView::Attribute(name)) => match token_at(ts, i + 1) {
            Some(TokenView::Values(vs)) => match token_at(ts, i + 2) {
                Some(TokenView::Comma) => parse_attributes(
                    ts,
                    i + 3,
                    n,
                    acc.push(AttributeView { name, value: vs }),
                ),
                _ => Err(structural_error(ts, i + 2, n)),
            },
            _ => Err(structural_error(ts, i + 1, n)),
        },
        _ => Ok((acc, i)),
    }
}

/// One node from token `i`, with the position after it.
pub open spec fn parse_node(ts: Seq<SpannedView>, i: int, n: int) -> Result<(NodeView, int), ErrorView>
    decreases ts.len() - i, 0int,
{
    match token_at(ts, i) {
        Some(TokenView::Values(vs)) => Ok((NodeView::Text(vs), i + 1)),
        Some(TokenView::Element(tag)) => match parse_attributes(ts, i + 1, n, Seq::empty()) {
            Err(e) => Err(e),
            Ok((attributes, j)) => if j <= i || j > ts.len() {
                Err(structural_error(ts, i, n))
            } else {
                match parse_nodes(ts, j, n, Seq::empty()) {
                    Err(e) => Err(e),
                    Ok((children, k)) => if token_at(ts, k) matches Some(TokenView::ClosingBrace) {
                        Ok((NodeView::Element(ElementView { tag, attributes, children }), k + 1))
                    } else {
                        Err(structural_error(ts, k, n))
                    },
                }
            },
        },
        _ => Err(structural_error(ts, i, n)),
    }
}

/// Nodes from token `i` for as long as one starts there, added to `acc`; with the
/// position after them.
pub open spec fn parse_nodes(ts: Seq<SpannedView>, i: int, n: int, acc: Seq<NodeView>)
    -> Result<(Seq<NodeView>, int), ErrorView>
    decreases ts.len() - i, 1int,
{
    if token_at(ts, i) matches Some(TokenView::Values(_)) || token_at(ts, i) matches Some(
        TokenView::Element(_),
    ) {
        match parse_node(ts, i, n) {
            Err(e) => Err(e),
            Ok((node, j)) => if j <= i || j > ts.len() {
                Err(structural_error(ts, i, n))
            } else {
                parse_nodes(ts, j, n, acc.push(node))
            },
        }
    } else {
        Ok((acc, i))
    }
}

/// `rsx! { node* }` and nothing after it.
pub open spec fn parse_call(ts: Seq<SpannedView>, n: int) -> Result<Seq<NodeView>, ErrorView> {
    if !(token_at(ts, 0) matches Some(TokenView::Rsx)) {
        Err(structural_error(ts, 0, n))
    } else if !(token_at(ts, 1) matches Some(TokenView::OpeningBrace)) {
        Err(structural_error(ts, 1, n))
    } else {
        match parse_nodes(ts, 2, n, Seq::empty()) {
            Err(e) => Err(e),
            Ok((nodes, k)) => if !(token_at(ts, k) matches Some(TokenView::ClosingBrace)) {
                Err(structural_error(ts, k, n))
            } else if k + 1 < ts.len() {
                Err(structural_error(ts, k + 1, n))
            } else {
                Ok(nodes)
            },
        }
    }
}

/// What parsing a whole source gives: the first refusal of the lexer, else of the grammar.
pub open spec fn parse_source(s: Seq<char>, d: Directory) -> Result<Seq<NodeView>, ErrorView> {
    match lex_source(s, d) {
        Err(e) => Err(e),
        Ok(ts) => parse_call(ts, s.len() as int),
    }
}

pub open spec fn token_views<'a>(ts: Seq<Spanned<'a>>) -> Seq<SpannedView> {
    ts.map_values(|t: Spanned<'a>| t@)
}

/// What the parser works on: tokens whose spans lie in a source of `n` characters.
pub open spec fn tokens_in<'a>(src: &'a str, ts: Seq<Spanned<'a>>) -> bool {
    forall|k: int| 0 <= k < ts.len() ==> #[trigger] ts[k].start < ts[k].end <= src@.len()
}

fn copy_values<'a>(v: &Values<'a>) -> (r: Values<'a>)
    ensures
        r@ == v@,
{
    let mut out: Vec<Value<'a>> = Vec::new();
    let mut i: usize = 0;
    while i < v.0.len()
        invariant
            i <= v.0.len(),
            out@ == v.0@.subrange(0, i as int),
        decreases v.0.len() - i,
    {
        out.push(v.0[i]);
        proof {
            assert(out@ =~= v.0@.subrange(0, i + 1));
        }
        i = i + 1;
    }
    proof {
        assert(out@ =~= v.0@);
    }
    Values(out)
}

fn structural<'a>(src: &'a str, ts: &Vec<Spanned<'a>>, i: usize) -> (r: ParseError<'a>)
    requires
        tokens_in(src, ts@),
    ensures
        r@ == structural_error(token_views(ts@), i as int, src@.len() as int),
        located(r, src),
{
    let n = src.unicode_len();
    if i < ts.len() {
        let ghost k = i as int;
        assert(ts@[k].start < ts@[k].end <= src@.len());
        error_at(src, ErrorKind::StructuralError, ts[i].start, ts[i].end)
    } else {
        error_at(src, ErrorKind::StructuralError, n, n)
    }
}

proof fn lemma_nodes_view_push<'a>(ns: Seq<Node<'a>>, x: Node<'a>)
    ensures
        nodes_view(ns.push(x), ns.len() + 1 as int) == nodes_view(ns, ns.len() as int).push(node_view(x)),
{
    lemma_nodes_view(ns, ns.len() as int);
    lemma_nodes_view(ns.push(x), ns.len() + 1 as int);
    assert(nodes_view(ns.push(x), ns.len() + 1 as int) =~= nodes_view(ns, ns.len() as int).push(node_view(x)));
}

fn parse_attributes_exec<'a>(src: &'a str, ts: &Vec<Spanned<'a>>, i: usize) -> (r: Result<(Vec<AttributeSet<'a>>, usize), ParseError<'a>>)
    requires
        tokens_in(src, ts@),
        i <= ts.len(),
    ensures
        match r {
            Ok((attrs, j)) => i <= j <= ts.len() && parse_attributes(token_views(ts@), i as int, src@.len() as int, Seq::empty())
                == Ok::<(Seq<AttributeView>, int), ErrorView>((attrs@.map_values(|a: AttributeSet<'a>| attribute_view(a)), j as int)),
            Err(e) => parse_attributes(token_views(ts@), i as int, src@.len() as int, Seq::empty())
                == Err::<(Seq<AttributeView>, int), ErrorView>(e@) && located(e, src),
        },
{
    let ghost tv = token_views(ts@);
    let ghost n = src@.len() as int;
    let mut out: Vec<AttributeSet<'a>> = Vec::new();
    let mut j = i;
    proof {
        assert(out@.map_values(|a: AttributeSet<'a>| attribute_view(a)) =~= Seq::<AttributeView>::empty());
    }
    loop
        invariant
            i <= j <= ts.len(),
            tv == token_views(ts@),
            n == src@.len(),
            tokens_in(src, ts@),
            parse_attributes(tv, i as int, n, Seq::empty()) == parse_attributes(
                tv,
                j as int,
                n,
                out@.map_values(|a: AttributeSet<'a>| attribute_view(a)),
            ),
        decreases ts.len() - j,
    {
        let name = if j < ts.len() {
            match &ts[j].token {
                Token::Attribute(a) => Some(*a),
                _ => None,
            }
        } else {
            None
        };
        match name {
            None => {
                return Ok((out, j));
            },
            Some(name) => {
                if j + 1 >= ts.len() {
                    return Err(structural(src, ts, j + 1));
                }
                let value = match &ts[j + 1].token {
                    Token::Values(vs) => copy_values(vs),
                    _ => {
                        return Err(structural(src, ts, j + 1));
                    },
                };
                if j + 2 >= ts.len() {
                    return Err(structural(src, ts, j + 2));
                }
                match &ts[j + 2].token {
                    Token::Comma => {},
                    _ => {
                        return Err(structural(src, ts, j + 2));
                    },
                }
                let a = AttributeSet { name, value };
                proof {
                    assert(out@.push(a).map_values(|a: AttributeSet<'a>| attribute_view(a))
                        =~= out@.map_values(|a: AttributeSet<'a>| attribute_view(a)).push(attribute_view(a)));
                }
                out.push(a);
                j = j + 3;
            },
        }
    }
}

fn parse_node_exec<'a>(src: &'a str, ts: &Vec<Spanned<'a>>, i: usize) -> (r: Result<(Node<'a>, usize), ParseError<'a>>)
    requires
        tokens_in(src, ts@),
    ensures
        match r {
            Ok((node, j)) => i < j <= ts.len() && parse_node(token_views(ts@), i as int, src@.len() as int)
                == Ok::<(NodeView, int), ErrorView>((node@, j as int)),
            Err(e) => parse_node(token_views(ts@), i as int, src@.len() as int)
                == Err::<(NodeView, int), ErrorView>(e@) && located(e, src),
        },
    decreases ts.len() - i, 0int,
{
    if i >= ts.len() {
        return Err(structural(src, ts, i));
    }
    match &ts[i].token {
        Token::Values(vs) => Ok((Node::Text(copy_values(vs)), i + 1)),
        Token::Element(tag) => {
            let tag = *tag;
            let (attributes, j) = match parse_attributes_exec(src, ts, i + 1) {
                Ok(p) => p,
                Err(e) => {
                    return Err(e);
                },
            };
            let (children, k) = match parse_nodes_exec(src, ts, j) {
                Ok(p) => p,
                Err(e) => {
                    return Err(e);
                },
            };
            if k < ts.len() {
                match &ts[k].token {
                    Token::ClosingBrace => {
                        let e = Element { tag, attributes, children };
                        proof {
                            lemma_nodes_view(e.children@, e.children@.len() as int);
                        }
                        return Ok((Node::Element(e), k + 1));
                    },
                    _ => {},
                }
            }
            Err(structural(src, ts, k))
        },
        _ => Err(structural(src, ts, i)),
    }
}

fn parse_nodes_exec<'a>(src: &'a str, ts: &Vec<Spanned<'a>>, i: usize) -> (r: Result<(Vec<Node<'a>>, usize), ParseError<'a>>)
    requires
        tokens_in(src, ts@),
        i <= ts.len(),
    ensures
        match r {
            Ok((nodes, j)) => i <= j <= ts.len() && parse_nodes(token_views(ts@), i as int, src@.len() as int, Seq::empty())
                == Ok::<(Seq<NodeView>, int), ErrorView>((nodes_view(nodes@, nodes@.len() as int), j as int)),
            Err(e) => parse_nodes(token_views(ts@), i as int, src@.len() as int, Seq::empty())
                == Err::<(Seq<NodeView>, int), ErrorView>(e@) && located(e, src),
        },
    decreases ts.len() - i, 1int,
{
    let ghost tv = token_views(ts@);
    let ghost n = src@.len() as int;
    let mut out: Vec<Node<'a>> = Vec::new();
    let mut j = i;
    proof {
        assert(nodes_view(out@, 0) =~= Seq::<NodeView>::empty());
    }
    loop
        invariant
            i <= j <= ts.len(),
            tv == token_views(ts@),
            n == src@.len(),
            tokens_in(src, ts@),
            parse_nodes(tv, i as int, n, Seq::empty()) == parse_nodes(
                tv,
                j as int,
                n,
                nodes_view(out@, out@.len() as int),
            ),
        decreases ts.len() - j,
    {
        let starts_node = j < ts.len() && match &ts[j].token {
            Token::Values(_) => true,
            Token::Element(_) => true,
            _ => false,
        };
        if !starts_node {
            return Ok((out, j));
        }
        match parse_node_exec(src, ts, j) {
            Err(e) => {
                return Err(e);
            },
            Ok((node, k)) => {
                proof {
                    lemma_nodes_view_push(out@, node);
                }
                out.push(node);
                j = k;
            },
        }
    }
}

/// Parses `src` against the names of `d`: the nodes of its `rsx! { ... }` call, or the
/// first refusal, of the lexer before the grammar, with the characters it concerns.
pub fn parse<'a>(src: &'a str, d: &Directory) -> (r: Result<RsxCall<'a>, ParseError<'a>>)
    ensures
        match r {
            Ok(call) => parse_source(src@, *d) == Ok::<Seq<NodeView>, ErrorView>(call@),
            Err(e) => parse_source(src@, *d) == Err::<Seq<NodeView>, ErrorView>(e@)
                && located(e, src),
        },
{
    let cs = chars_of(src);
    let ts = match tokenize_chars(src, &cs, d) {
        Ok(ts) => ts,
        Err(e) => {
            return Err(e);
        },
    };
    proof {
        lemma_lex_spans(src@, 0, *d);
        let all = lex_source(src@, *d)->Ok_0;
        assert(all == token_views(ts@));
        assert forall|k: int| 0 <= k < ts@.len() implies #[trigger] ts@[k].start < ts@[k].end <= src@.len() by {
            assert(token_views(ts@)[k] == ts@[k]@);
            assert(all[k].start < all[k].end);
        }
    }
    let ghost tv = token_views(ts@);
    let open_ok = ts.len() >= 2 && match (&ts[0].token, &ts[1].token) {
        (Token::Rsx, Token::OpeningBrace) => true,
        _ => false,
    };
    if !open_ok {
        if ts.len() >= 1 {
            match &ts[0].token {
                Token::Rsx => {
                    return Err(structural(src, &ts, 1));
                },
                _ => {},
            }
        }
        return Err(structural(src, &ts, 0));
    }
    let (nodes, k) = match parse_nodes_exec(src, &ts, 2) {
        Ok(p) => p,
        Err(e) => {
            return Err(e);
        },
    };
    let closed = k < ts.len() && match &ts[k].token {
        Token::ClosingBrace => true,
        _ => false,
    };
    if !closed {
        return Err(structural(src, &ts, k));
    }
    if k + 1 < ts.len() {
        return Err(structural(src, &ts, k + 1));
    }
    Ok(RsxCall(nodes))
}


/// Every element tag in the node is registered, and every attribute name is carried by
/// some entry.
pub open spec fn names_known(n: NodeView, d: Directory) -> bool
    decreases n, 0int,
{
    match n {
        NodeView::Text(_) => true,
        NodeView::Element(e) => {
            &&& d.element_map().contains_key(e.tag)
            &&& forall|j: int|
                0 <= j < e.attributes.len() ==> d.attribute_map().contains_key(
                    #[trigger] e.attributes[j].name,
                )
            &&& all_names_known(e.children, e.children.len() as int, d)
        },
    }
}

/// [`names_known`] of each of the first `k` nodes.
pub open spec fn all_names_known(ns: Seq<NodeView>, k: int, d: Directory) -> bool
    decreases ns, k,
{
    if k <= 0 || k > ns.len() {
        true
    } else {
        all_names_known(ns, k - 1, d) && names_known(ns[k - 1], d)
    }
}

pub proof fn lemma_all_names_known(ns: Seq<NodeView>, k: int, d: Directory)
    requires
        0 <= k <= ns.len(),
    ensures
        all_names_known(ns, k, d) <==> forall|j: int| 0 <= j < k ==> #[trigger] names_known(ns[j], d),
    decreases k,
{
    if k > 0 {
        lemma_all_names_known(ns, k - 1, d);
        if forall|j: int| 0 <= j < k ==> #[trigger] names_known(ns[j], d) {
            assert(names_known(ns[k - 1], d));
        }
        if all_names_known(ns, k, d) {
            assert forall|j: int| 0 <= j < k implies #[trigger] names_known(ns[j], d) by {
                if j < k - 1 {
                    assert(all_names_known(ns, k - 1, d));
                }
            }
        }
    }
}

pub open spec fn tokens_known(ts: Seq<SpannedView>, d: Directory) -> bool {
    forall|k: int| 0 <= k < ts.len() ==> match #[trigger] ts[k].token {
        TokenView::Element(name) => d.element_map().contains_key(name),
        TokenView::Attribute(name) => d.attribute_map().contains_key(name),
        _ => true,
    }
}

proof fn lemma_lex_known(s: Seq<char>, i: int, d: Directory)
    requires
        lex_from(s, i, d) is Ok,
    ensures
        tokens_known(lex_from(s, i, d)->Ok_0, d),
    decreases s.len() - i,
{
    let j = skip_space(s, i);
    if !(i < 0 || j < i || j >= s.len()) {
        if let Lexed::Token(t, e) = lex_at(s, j, d) {
            if !(e <= j || e > s.len()) {
                lemma_lex_known(s, e, d);
                let rest = lex_from(s, e, d)->Ok_0;
                let all = lex_from(s, i, d)->Ok_0;
                assert forall|k: int| 0 <= k < all.len() implies match #[trigger] all[k].token {
                    TokenView::Element(name) => d.element_map().contains_key(name),
                    TokenView::Attribute(name) => d.attribute_map().contains_key(name),
                    _ => true,
                } by {
                    if k > 0 {
                        assert(all[k] == rest[k - 1]);
                    }
                }
            }
        }
    }
}

proof fn lemma_attributes_known(ts: Seq<SpannedView>, i: int, n: int, acc: Seq<AttributeView>, d: Directory)
    requires
        tokens_known(ts, d),
        forall|j: int| 0 <= j < acc.len() ==> d.attribute_map().contains_key(#[trigger] acc[j].name),
        parse_attributes(ts, i, n, acc) is Ok,
    ensures
        forall|j: int|
            0 <= j < parse_attributes(ts, i, n, acc)->Ok_0.0.len() ==> d.attribute_map().contains_key(
                #[trigger] parse_attributes(ts, i, n, acc)->Ok_0.0[j].name,
            ),
    decreases ts.len() - i,
{
    if let Some(TokenView::Attribute(name)) = token_at(ts, i) {
        if let Some(TokenView::Values(vs)) = token_at(ts, i + 1) {
            assert(match ts[i].token {
                TokenView::Element(name) => d.element_map().contains_key(name),
                TokenView::Attribute(name) => d.attribute_map().contains_key(name),
                _ => true,
            });
            let acc2 = acc.push(AttributeView { name, value: vs });
            assert forall|j: int| 0 <= j < acc2.len() implies d.attribute_map().contains_key(#[trigger] acc2[j].name) by {
                if j < acc.len() {
                    assert(acc2[j] == acc[j]);
                }
            }
            if let Some(TokenView::Comma) = token_at(ts, i + 2) {
                lemma_attributes_known(ts, i + 3, n, acc2, d);
            }
        }
    }
}

proof fn lemma_node_known(ts: Seq<SpannedView>, i: int, n: int, d: Directory)
    requires
        tokens_known(ts, d),
        parse_node(ts, i, n) is Ok,
    ensures
        names_known(parse_node(ts, i, n)->Ok_0.0, d),
    decreases ts.len() - i, 0int,
{
    if let Some(TokenView::Element(tag)) = token_at(ts, i) {
        assert(match ts[i].token {
            TokenView::Element(name) => d.element_map().contains_key(name),
            TokenView::Attribute(name) => d.attribute_map().contains_key(name),
            _ => true,
        });
        lemma_attributes_known(ts, i + 1, n, Seq::empty(), d);
        let (attributes, j) = parse_attributes(ts, i + 1, n, Seq::empty())->Ok_0;
        lemma_nodes_known(ts, j, n, Seq::empty(), d);
        let (children, k) = parse_nodes(ts, j, n, Seq::empty())->Ok_0;
        let e = ElementView { tag, attributes, children };
        assert(parse_node(ts, i, n)->Ok_0.0 == NodeView::Element(e));
        assert(forall|m: int| 0 <= m < e.children.len() ==> #[trigger] names_known(e.children[m], d));
        assert(forall|m: int| 0 <= m < e.attributes.len() ==> d.attribute_map().contains_key(#[trigger] e.attributes[m].name));
        assert(ts[i].token == TokenView::Element(tag));
        assert(d.element_map().contains_key(tag));
        let node = NodeView::Element(e);
        lemma_all_names_known(children, children.len() as int, d);
        assert(names_known(node, d));
    }
}

proof fn lemma_nodes_known(ts: Seq<SpannedView>, i: int, n: int, acc: Seq<NodeView>, d: Directory)
    requires
        tokens_known(ts, d),
        forall|j: int| 0 <= j < acc.len() ==> #[trigger] names_known(acc[j], d),
        parse_nodes(ts, i, n, acc) is Ok,
    ensures
        forall|j: int|
            0 <= j < parse_nodes(ts, i, n, acc)->Ok_0.0.len() ==> #[trigger] names_known(
                parse_nodes(ts, i, n, acc)->Ok_0.0[j],
                d,
            ),
    decreases ts.len() - i, 1int,
{
    if token_at(ts, i) matches Some(TokenView::Values(_)) || token_at(ts, i) matches Some(
        TokenView::Element(_),
    ) {
        lemma_node_known(ts, i, n, d);
        let (node, j) = parse_node(ts, i, n)->Ok_0;
        if !(j <= i || j > ts.len()) {
            let acc2 = acc.push(node);
            assert forall|k: int| 0 <= k < acc2.len() implies #[trigger] names_known(acc2[k], d) by {
                if k < acc.len() {
                    assert(acc2[k] == acc[k]);
                }
            }
            lemma_nodes_known(ts, j, n, acc2, d);
        }
    }
}

/// No unknown name gets into a tree: whenever a source parses, every element tag in
/// the result is registered in the directory and every attribute name is carried by
/// one of its entries. A source that uses any other name is refused.
pub proof fn lemma_parsed_names_known(s: Seq<char>, d: Directory)
    ensures
        parse_source(s, d) is Ok ==> forall|j: int|
            0 <= j < parse_source(s, d)->Ok_0.len() ==> #[trigger] names_known(parse_source(s, d)->Ok_0[j], d),
{
    if parse_source(s, d) is Ok {
        lemma_lex_known(s, 0, d);
        let ts = lex_source(s, d)->Ok_0;
        lemma_nodes_known(ts, 2, s.len() as int, Seq::empty(), d);
    }
}

} // verus!
