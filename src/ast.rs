use vstd::prelude::*;

verus! {

/// One segment of a string literal: constant text, or the body of a `{...}` placeholder.
#[derive(Clone, Copy, Debug, PartialEq, Eq)]
pub enum Value<'a> {
    Constant(&'a str),
    Variable(&'a str),
}

/// What a [`Value`] means: its kind and its characters.
pub enum Segment {
    Constant(Seq<char>),
    Variable(Seq<char>),
}

impl<'a> View for Value<'a> {
    type V = Segment;

    open spec fn view(&self) -> Segment {
        match self {
            Value::Constant(s) => Segment::Constant(s@),
            Value::Variable(s) => Segment::Variable(s@),
        }
    }
}

/// The source text a segment stands for: placeholders get their braces back.
pub open spec fn segment_source(v: Segment) -> Seq<char> {
    match v {
        Segment::Constant(s) => s,
        Segment::Variable(s) => seq!['{'] + s + seq!['}'],
    }
}

/// Concatenation of the source text of every segment, in order.
pub open spec fn segments_source(vs: Seq<Segment>) -> Seq<char>
    decreases vs.len(),
{
    if vs.len() == 0 {
        Seq::empty()
    } else {
        segments_source(vs.drop_last()) + segment_source(vs.last())
    }
}

/// How a segment is shown in the printed tree: placeholders as `{!name!}`.
pub open spec fn segment_display(v: Segment) -> Seq<char> {
    match v {
        Segment::Constant(s) => s,
        Segment::Variable(s) => seq!['{', '!'] + s + seq!['!', '}'],
    }
}

pub open spec fn segments_display(vs: Seq<Segment>) -> Seq<char>
    decreases vs.len(),
{
    if vs.len() == 0 {
        Seq::empty()
    } else {
        segments_display(vs.drop_last()) + segment_display(vs.last())
    }
}

/// A literal shown in the printed tree: its segments between double quotes.
pub open spec fn quoted_display(vs: Seq<Segment>) -> Seq<char> {
    seq!['"'] + segments_display(vs) + seq!['"']
}

impl<'a> Value<'a> {
    /// The source text of this segment.
    pub fn to_string(&self) -> (r: String)
        ensures
            r@ == segment_source(self@),
    {
        match self {
            Value::Constant(s) => String::from_str(s),
            Value::Variable(s) => {
                let mut r = String::from_str("{");
                r.append(s);
                r.append("}");
                proof {
                    reveal_strlit("{");
                    reveal_strlit("}");
                }
                r
            },
        }
    }
}

/// The segments of one string literal, in source order.
#[derive(Clone, Debug, PartialEq)]
pub struct Values<'a>(pub Vec<Value<'a>>);

impl<'a> View for Values<'a> {
    type V = Seq<Segment>;

    open spec fn view(&self) -> Seq<Segment> {
        self.0@.map_values(|v: Value<'a>| v@)
    }
}

/// Appends the display form of every segment of `vs` to `out`.
fn append_display(vs: &Vec<Value>, out: &mut String)
    ensures
        final(out)@ == old(out)@ + segments_display(vs@.map_values(|v: Value| v@)),
{
    let ghost views = vs@.map_values(|v: Value| v@);
    let mut i: usize = 0;
    while i < vs.len()
        invariant
            i <= vs.len(),
            views == vs@.map_values(|v: Value| v@),
            out@ == old(out)@ + segments_display(views.take(i as int)),
        decreases vs.len() - i,
    {
        proof {
            assert(views.take(i as int + 1).drop_last() =~= views.take(i as int));
            reveal_strlit("{!");
            reveal_strlit("!}");
        }
        match &vs[i] {
            Value::Constant(s) => out.append(s),
            Value::Variable(s) => {
                out.append("{!");
                out.append(s);
                out.append("!}");
            },
        }
        i = i + 1;
    }
    proof {
        assert(views.take(vs.len() as int) =~= views);
    }
}

impl<'a> Values<'a> {
    /// The literal as the printed tree shows it: quoted, placeholders as `{!name!}`.
    pub fn to_string(&self) -> (r: String)
        ensures
            r@ == quoted_display(self@),
    {
        let mut r = String::from_str("\"");
        append_display(&self.0, &mut r);
        r.append("\"");
        proof {
            reveal_strlit("\"");
        }
        r
    }
}


/// An attribute of an element: its name and its literal value.
#[derive(Clone, Debug, PartialEq)]
pub struct AttributeSet<'a> {
    pub name: &'a str,
    pub value: Values<'a>,
}

/// A named element with its attributes and children, both in source order.
#[derive(Debug, PartialEq)]
pub struct Element<'a> {
    pub tag: &'a str,
    pub attributes: Vec<AttributeSet<'a>>,
    pub children: Vec<Node<'a>>,
}

/// One unit of the tree: an element, or a bare text literal.
#[derive(Debug, PartialEq)]
pub enum Node<'a> {
    Element(Element<'a>),
    Text(Values<'a>),
}

/// The whole `rsx! { ... }` call: its top-level nodes.
#[derive(Debug, PartialEq)]
pub struct RsxCall<'a>(pub Vec<Node<'a>>);

/// What a node means, with every string replaced by its characters.
pub enum NodeView {
    Element(ElementView),
    Text(Seq<Segment>),
}

pub struct AttributeView {
    pub name: Seq<char>,
    pub value: Seq<Segment>,
}

pub struct ElementView {
    pub tag: Seq<char>,
    pub attributes: Seq<AttributeView>,
    pub children: Seq<NodeView>,
}

pub open spec fn attribute_view(a: AttributeSet) -> AttributeView {
    AttributeView { name: a.name@, value: a.value@ }
}

pub open spec fn node_view(n: Node) -> NodeView
    decreases n, 0int,
{
    match n {
        Node::Text(vs) => NodeView::Text(vs@),
        Node::Element(e) => NodeView::Element(
            ElementView {
                tag: e.tag@,
                attributes: e.attributes@.map_values(|a: AttributeSet| attribute_view(a)),
                children: nodes_view(e.children@, e.children@.len() as int),
            },
        ),
    }
}

/// Views of the first `k` nodes of `ns`.
pub open spec fn nodes_view(ns: Seq<Node>, k: int) -> Seq<NodeView>
    decreases ns, k,
{
    if k <= 0 || k > ns.len() {
        Seq::empty()
    } else {
        nodes_view(ns, k - 1).push(node_view(ns[k - 1]))
    }
}

impl<'a> View for Node<'a> {
    type V = NodeView;

    open spec fn view(&self) -> NodeView {
        node_view(*self)
    }
}

impl<'a> View for Element<'a> {
    type V = ElementView;

    open spec fn view(&self) -> ElementView {
        ElementView {
            tag: self.tag@,
            attributes: self.attributes@.map_values(|a: AttributeSet| attribute_view(a)),
            children: nodes_view(self.children@, self.children@.len() as int),
        }
    }
}

impl<'a> View for RsxCall<'a> {
    type V = Seq<NodeView>;

    open spec fn view(&self) -> Seq<NodeView> {
        nodes_view(self.0@, self.0@.len() as int)
    }
}

pub proof fn lemma_nodes_view(ns: Seq<Node>, k: int)
    requires
        0 <= k <= ns.len(),
    ensures
        nodes_view(ns, k).len() == k,
        forall|j: int| 0 <= j < k ==> #[trigger] nodes_view(ns, k)[j] == node_view(ns[j]),
    decreases k,
{
    if k > 0 {
        lemma_nodes_view(ns, k - 1);
    }
}

/// `n` tab characters.
pub open spec fn tabs(n: nat) -> Seq<char> {
    Seq::new(n, |i: int| '\t')
}

/// Nesting depth of a node: one for a text, one more than its deepest child for an element.
pub open spec fn node_depth(n: NodeView) -> nat
    decreases n, 0int,
{
    match n {
        NodeView::Text(_) => 1,
        NodeView::Element(e) => 1 + nodes_depth(e.children, e.children.len() as int),
    }
}

/// Largest depth among the first `k` nodes of `ns`.
pub open spec fn nodes_depth(ns: Seq<NodeView>, k: int) -> nat
    decreases ns, k,
{
    if k <= 0 || k > ns.len() {
        0
    } else {
        let d = node_depth(ns[k - 1]);
        let rest = nodes_depth(ns, k - 1);
        if d > rest { d } else { rest }
    }
}

/// The printed attribute line: `name: "value",` and a newline.
pub open spec fn attribute_text(a: AttributeView, pad: nat) -> Seq<char> {
    tabs(pad) + a.name + seq![':', ' '] + quoted_display(a.value) + seq![',', '\n']
}

/// The printed lines of the first `k` attributes.
pub open spec fn attributes_text(attrs: Seq<AttributeView>, k: int, pad: nat) -> Seq<char>
    decreases k,
{
    if k <= 0 || k > attrs.len() {
        Seq::empty()
    } else {
        attributes_text(attrs, k - 1, pad) + attribute_text(attrs[k - 1], pad)
    }
}

/// The printed form of a node at indentation `pad`.
pub open spec fn node_text(n: NodeView, pad: nat) -> Seq<char>
    decreases n, 0int,
{
    match n {
        NodeView::Text(vs) => tabs(pad) + quoted_display(vs) + seq!['\n'],
        NodeView::Element(e) => tabs(pad) + e.tag + seq![' ', '{', '\n'] + attributes_text(
            e.attributes,
            e.attributes.len() as int,
            pad + 1,
        ) + nodes_text(e.children, e.children.len() as int, pad + 1) + tabs(pad) + seq![
            '}',
            '\n',
        ],
    }
}

/// The printed form of the first `k` nodes at indentation `pad`.
pub open spec fn nodes_text(ns: Seq<NodeView>, k: int, pad: nat) -> Seq<char>
    decreases ns, k,
{
    if k <= 0 || k > ns.len() {
        Seq::empty()
    } else {
        nodes_text(ns, k - 1, pad) + node_text(ns[k - 1], pad)
    }
}

/// The canonical printed form of a whole call.
pub open spec fn rsx_text(nodes: Seq<NodeView>) -> Seq<char> {
    seq!['r', 's', 'x', '!', ' ', '{', '\n'] + nodes_text(nodes, nodes.len() as int, 1) + seq!['}']
}


proof fn lemma_child_depth(ns: Seq<NodeView>, k: int, j: int)
    requires
        0 <= j < k <= ns.len(),
    ensures
        node_depth(ns[j]) <= nodes_depth(ns, k),
    decreases k,
{
    if j < k - 1 {
        lemma_child_depth(ns, k - 1, j);
    }
}

fn append_tabs(out: &mut String, n: usize)
    ensures
        final(out)@ == old(out)@ + tabs(n as nat),
{
    let mut i: usize = 0;
    while i < n
        invariant
            i <= n,
            out@ == old(out)@ + tabs(i as nat),
        decreases n - i,
    {
        out.append("\t");
        proof {
            reveal_strlit("\t");
            assert(tabs(i as nat) + seq!['\t'] =~= tabs((i + 1) as nat));
        }
        i = i + 1;
    }
}

impl<'a> Node<'a> {
    /// Appends the printed form of this node, indented by `padding` tabs, to `out`.
    pub fn fmt(&self, padding: usize, out: &mut String)
        requires
            padding + node_depth(self@) <= usize::MAX,
        ensures
            final(out)@ == old(out)@ + node_text(self@, padding as nat),
        decreases self, 1int,
    {
        match self {
            Node::Text(s) => {
                append_tabs(out, padding);
                let q = s.to_string();
                out.append(q.as_str());
                out.append("\n");
                proof {
                    reveal_strlit("\n");
                }
            },
            Node::Element(e) => {
                e.fmt(padding, out);
            },
        }
    }
}

impl<'a> Element<'a> {
    /// Appends the printed form of this element, indented by `padding` tabs, to `out`.
    pub fn fmt(&self, padding: usize, out: &mut String)
        requires
            padding + node_depth(NodeView::Element(self@)) <= usize::MAX,
        ensures
            final(out)@ == old(out)@ + node_text(NodeView::Element(self@), padding as nat),
        decreases self, 0int,
    {
        let ghost v = self@;
        let ghost start = out@;
        append_tabs(out, padding);
        out.append(self.tag);
        out.append(" {\n");
        proof {
            reveal_strlit(" {\n");
        }
        let inner = padding + 1;
        let ghost head = out@;
        let mut i: usize = 0;
        while i < self.attributes.len()
            invariant
                i <= self.attributes.len(),
                inner == padding + 1,
                v == self@,
                out@ == head + attributes_text(v.attributes, i as int, inner as nat),
            decreases self.attributes.len() - i,
        {
            let attr = &self.attributes[i];
            append_tabs(out, inner);
            out.append(attr.name);
            out.append(": ");
            let q = attr.value.to_string();
            out.append(q.as_str());
            out.append(",\n");
            proof {
                reveal_strlit(": ");
                reveal_strlit(",\n");
                assert(v.attributes[i as int] == attribute_view(*attr));
                assert(out@ =~= head + attributes_text(v.attributes, i + 1, inner as nat));
            }
            i = i + 1;
        }
        let ghost mid = out@;
        proof {
            lemma_nodes_view(self.children@, self.children@.len() as int);
        }
        let mut j: usize = 0;
        while j < self.children.len()
            invariant
                j <= self.children.len(),
                inner == padding + 1,
                v == self@,
                padding + node_depth(NodeView::Element(v)) <= usize::MAX,
                v.children.len() == self.children.len(),
                forall|k: int|
                    0 <= k < self.children.len() ==> #[trigger] v.children[k] == node_view(
                        self.children@[k],
                    ),
                out@ == mid + nodes_text(v.children, j as int, inner as nat),
            decreases self.children.len() - j,
        {
            proof {
                lemma_child_depth(v.children, v.children.len() as int, j as int);
            }
            self.children[j].fmt(inner, out);
            proof {
                assert(out@ =~= mid + nodes_text(v.children, j + 1, inner as nat));
            }
            j = j + 1;
        }
        append_tabs(out, padding);
        out.append("}\n");
        proof {
            reveal_strlit("}\n");
            assert(out@ =~= start + node_text(NodeView::Element(v), padding as nat));
        }
    }
}

impl<'a> RsxCall<'a> {
    /// The canonical printed form of the call.
    pub fn pretty_print(&self) -> (r: String)
        requires
            1 + nodes_depth(self@, self@.len() as int) <= usize::MAX,
        ensures
            r@ == rsx_text(self@),
    {
        let ghost v = self@;
        let mut out = String::from_str("rsx! {\n");
        proof {
            reveal_strlit("rsx! {\n");
            lemma_nodes_view(self.0@, self.0@.len() as int);
        }
        let ghost head = out@;
        let mut j: usize = 0;
        while j < self.0.len()
            invariant
                j <= self.0.len(),
                v == self@,
                1 + nodes_depth(v, v.len() as int) <= usize::MAX,
                v.len() == self.0.len(),
                forall|k: int| 0 <= k < self.0.len() ==> #[trigger] v[k] == node_view(self.0@[k]),
                out@ == head + nodes_text(v, j as int, 1),
            decreases self.0.len() - j,
        {
            proof {
                lemma_child_depth(v, v.len() as int, j as int);
            }
            self.0[j].fmt(1, &mut out);
            proof {
                assert(out@ =~= head + nodes_text(v, j + 1, 1));
            }
            j = j + 1;
        }
        out.append("}");
        proof {
            reveal_strlit("}");
            assert(out@ =~= rsx_text(v));
        }
        out
    }
}


/// Printing depends on the tree alone: printing one tree twice gives the same text
/// both times.
pub proof fn lemma_print_twice(call: &RsxCall, first: Seq<char>, second: Seq<char>)
    requires
        first == rsx_text(call@),
        second == rsx_text(call@),
    ensures
        first == second,
{
}

} // verus!
