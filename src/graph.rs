use crate::decimal::{decimal, is_digit, lemma_decimal_digits, lemma_decimal_injective, push_decimal};
use vstd::prelude::*;

verus! {

/// The mathematical value of a tree: a label and the ordered list of subtrees.
pub struct Tree {
    pub value: u8,
    pub children: Seq<Tree>,
}

/// A rooted, ordered tree whose nodes carry a small unsigned label.
#[derive(Debug, PartialEq)]
pub struct Graph {
    pub(crate) value: u8,
    pub(crate) nodes: Vec<Graph>,
}

impl Graph {
    pub closed spec fn spec_value(&self) -> u8 {
        self.value
    }

    pub closed spec fn spec_nodes(&self) -> Seq<Graph> {
        self.nodes@
    }
}

/// The models of a list of subtrees, in order.
pub open spec fn views_of(s: Seq<Graph>) -> Seq<Tree>
    decreases s, 1int,
{
    if s.len() == 0 {
        Seq::empty()
    } else {
        views_of(s.drop_last()).push(model_of(s.last()))
    }
}

/// The model of a node: its label and the models of its subtrees.
pub open spec fn model_of(g: Graph) -> Tree
    decreases g, 0int,
{
    Tree { value: g.spec_value(), children: views_of(g.spec_nodes()) }
}

/// What the model of a node is made of.
pub(crate) proof fn lemma_model_parts(g: &Graph)
    ensures
        g@.value == g.value,
        g@.children == views_of(g.nodes@),
{
}

/// Number of nodes of a tree.
pub open spec fn node_count(t: Tree) -> nat
    decreases t, 0int,
{
    1 + forest_count(t.children)
}

pub open spec fn forest_count(f: Seq<Tree>) -> nat
    decreases f, 1int,
{
    if f.len() == 0 {
        0
    } else {
        forest_count(f.drop_last()) + node_count(f.last())
    }
}

/// The nested text of a tree: `"<v> { <children>} "`.
pub open spec fn text(t: Tree) -> Seq<char>
    decreases t, 0int,
{
    decimal(t.value) + " { "@ + forest_text(t.children) + "} "@
}

pub open spec fn forest_text(f: Seq<Tree>) -> Seq<char>
    decreases f, 1int,
{
    if f.len() == 0 {
        Seq::empty()
    } else {
        forest_text(f.drop_last()) + text(f.last())
    }
}

/// The node labels in pre-order: the root, then each subtree in order.
pub open spec fn vertices(t: Tree) -> Seq<u8>
    decreases t, 0int,
{
    seq![t.value] + forest_vertices(t.children)
}

pub open spec fn forest_vertices(f: Seq<Tree>) -> Seq<u8>
    decreases f, 1int,
{
    if f.len() == 0 {
        Seq::empty()
    } else {
        forest_vertices(f.drop_last()) + vertices(f.last())
    }
}

/// The label of the edge from a parent labelled `p` to a child labelled `c`.
pub open spec fn edge_label(p: u8, c: u8) -> Seq<char> {
    decimal(p) + "-"@ + decimal(c)
}

/// The edges leaving the root, in child order.
pub open spec fn own_labels(t: Tree) -> Seq<Seq<char>> {
    t.children.map_values(|c: Tree| edge_label(t.value, c.value))
}

/// The edge labels in pre-order: a node's own edges, then those of each subtree in order.
pub open spec fn header(t: Tree) -> Seq<Seq<char>>
    decreases t, 0int,
{
    own_labels(t) + forest_header(t.children)
}

pub open spec fn forest_header(f: Seq<Tree>) -> Seq<Seq<char>>
    decreases f, 1int,
{
    if f.len() == 0 {
        Seq::empty()
    } else {
        forest_header(f.drop_last()) + header(f.last())
    }
}

/// The edges as (parent, child) label pairs, in the order of `header`.
pub open spec fn edges(t: Tree) -> Seq<(u8, u8)>
    decreases t, 0int,
{
    t.children.map_values(|c: Tree| (t.value, c.value)) + forest_edges(t.children)
}

pub open spec fn forest_edges(f: Seq<Tree>) -> Seq<(u8, u8)>
    decreases f, 1int,
{
    if f.len() == 0 {
        Seq::empty()
    } else {
        forest_edges(f.drop_last()) + edges(f.last())
    }
}

/// The text of a non-empty list of subtrees starts with the text of the first.
pub proof fn lemma_forest_text_first(f: Seq<Tree>)
    requires
        f.len() > 0,
    ensures
        forest_text(f) == text(f[0]) + forest_text(f.drop_first()),
    decreases f.len(),
{
    if f.len() == 1 {
        assert(f.drop_last().len() == 0);
        assert(f.drop_first().len() == 0);
        assert(forest_text(f.drop_last()) == Seq::<char>::empty());
        assert(forest_text(f.drop_first()) == Seq::<char>::empty());
        assert(forest_text(f) == forest_text(f.drop_last()) + text(f.last()));
        assert(forest_text(f) =~= text(f[0]) + forest_text(f.drop_first()));
    } else {
        lemma_forest_text_first(f.drop_last());
        assert(f.drop_first().drop_last() == f.drop_last().drop_first());
        assert(f.drop_first().last() == f.last());
        assert(f.drop_last()[0] == f[0]);
        assert(forest_text(f) == forest_text(f.drop_last()) + text(f.last()));
        assert(forest_text(f.drop_first()) == forest_text(f.drop_first().drop_last()) + text(
            f.last(),
        ));
        assert(forest_text(f) =~= text(f[0]) + forest_text(f.drop_first()));
    }
}

/// A tree's text starts with a digit.
proof fn lemma_text_starts_with_digit(t: Tree)
    ensures
        text(t).len() > 0,
        is_digit(text(t)[0]),
{
    lemma_decimal_digits(t.value);
}

/// Equal prefixes of equal sequences leave equal rests.
proof fn lemma_strip_prefix(p: Seq<char>, x: Seq<char>, y: Seq<char>)
    requires
        p + x == p + y,
    ensures
        x == y,
{
    assert(x =~= (p + x).subrange(p.len() as int, (p + x).len() as int));
    assert(y =~= (p + y).subrange(p.len() as int, (p + y).len() as int));
}

/// No tree's text is followed by text that could make it read as another tree.
pub proof fn lemma_text_prefix_free(a: Tree, b: Tree, s1: Seq<char>, s2: Seq<char>)
    requires
        text(a) + s1 == text(b) + s2,
    ensures
        a == b,
        s1 == s2,
    decreases a, 0int,
{
    reveal_strlit(" { ");
    let da = decimal(a.value);
    let db = decimal(b.value);
    lemma_decimal_digits(a.value);
    lemma_decimal_digits(b.value);
    let x = text(a) + s1;
    let ra = forest_text(a.children) + "} "@ + s1;
    let rb = forest_text(b.children) + "} "@ + s2;
    assert(x =~= da + " { "@ + ra);
    assert(x =~= db + " { "@ + rb);
    let n = da.len() as int;
    let m = db.len() as int;
    if n < m {
        assert(x[n] == ' ');
        assert(x[n] == db[n]);
    } else if m < n {
        assert(x[m] == ' ');
        assert(x[m] == da[m]);
    }
    assert forall|k: int| 0 <= k < n implies da[k] == db[k] by {
        assert(x[k] == da[k]);
        assert(x[k] == db[k]);
    }
    assert(da =~= db);
    lemma_decimal_injective(a.value, b.value);
    lemma_strip_prefix(da + " { "@, ra, rb);
    lemma_forest_text_prefix_free(a.children, b.children, s1, s2);
}

/// No list of subtree texts, closed by `"} "`, reads as another list.
pub proof fn lemma_forest_text_prefix_free(f: Seq<Tree>, g: Seq<Tree>, s1: Seq<char>, s2: Seq<char>)
    requires
        forest_text(f) + "} "@ + s1 == forest_text(g) + "} "@ + s2,
    ensures
        f == g,
        s1 == s2,
    decreases f, 1int,
{
    reveal_strlit("} ");
    let x = forest_text(f) + "} "@ + s1;
    if f.len() == 0 && g.len() == 0 {
        assert(x =~= "} "@ + s1);
        assert(x =~= "} "@ + s2);
        lemma_strip_prefix("} "@, s1, s2);
        assert(f =~= g);
    } else if f.len() == 0 {
        lemma_forest_text_first(g);
        lemma_text_starts_with_digit(g[0]);
        assert(x[0] == '}');
        assert(x[0] == text(g[0])[0]);
    } else if g.len() == 0 {
        lemma_forest_text_first(f);
        lemma_text_starts_with_digit(f[0]);
        assert(x[0] == '}');
        assert(x[0] == text(f[0])[0]);
    } else {
        lemma_forest_text_first(f);
        lemma_forest_text_first(g);
        let rf = forest_text(f.drop_first()) + "} "@ + s1;
        let rg = forest_text(g.drop_first()) + "} "@ + s2;
        assert(x =~= text(f[0]) + rf);
        assert(x =~= text(g[0]) + rg);
        lemma_text_prefix_free(f[0], g[0], rf, rg);
        lemma_forest_text_prefix_free(f.drop_first(), g.drop_first(), s1, s2);
        assert(f =~= seq![f[0]] + f.drop_first());
        assert(g =~= seq![g[0]] + g.drop_first());
    }
}

/// Two trees with the same text are the same tree; in particular, trees that
/// differ only in the order of some node's children have different texts.
pub proof fn lemma_text_injective(a: Tree, b: Tree)
    requires
        text(a) == text(b),
    ensures
        a == b,
{
    assert(text(a) + Seq::empty() == text(b) + Seq::empty());
    lemma_text_prefix_free(a, b, Seq::empty(), Seq::empty());
}

/// A decoding or encoding that could not be completed.
#[derive(Debug)]
pub struct FormatError {
    pub message: String,
}

/// A decoder of trees from text.
pub trait GraphReader {
    /// Whether this reader, in its current state, may answer `r` on the text `src`.
    /// A reader that does not say may answer anything.
    open spec fn decodes(&self, src: Seq<char>, r: Result<Graph, FormatError>) -> bool {
        true
    }

    fn read(&mut self, src: &str) -> (r: Result<Graph, FormatError>)
        ensures
            old(self).decodes(src@, r),
    ;
}

/// An encoder of trees into text.
pub trait GraphWriter {
    /// Whether this writer, in its current state, may answer `r` on the tree `t`.
    /// A writer that does not say may answer anything.
    open spec fn encodes(&self, t: Tree, r: Result<String, FormatError>) -> bool {
        true
    }

    fn write(&mut self, graph: &Graph) -> (r: Result<String, FormatError>)
        ensures
            old(self).encodes(graph@, r),
    ;
}

impl View for Graph {
    type V = Tree;

    open spec fn view(&self) -> Tree {
        model_of(*self)
    }
}

impl Graph {
    /// A single node with no children.
    pub fn new(value: u8) -> (r: Self)
        ensures
            r@ == (Tree { value, children: Seq::empty() }),
    {
        Graph { value, nodes: Vec::new() }
    }

    /// Appends `g` as the last child and hands back this node, so that calls chain.
    pub fn add(&mut self, g: Graph) -> (r: &mut Self)
        ensures
            r@ == (Tree { value: old(self)@.value, children: old(self)@.children.push(g@) }),
            *final(self) == *final(r),
    {
        let ghost before = self.nodes@;
        self.nodes.push(g);
        proof {
            assert(self.nodes@.drop_last() == before);
        }
        self
    }

    /// The label of the root.
    pub fn value(&self) -> (r: u8)
        ensures
            r == self@.value,
    {
        self.value
    }

    /// The subtrees of the root, in order.
    pub fn nodes(&self) -> (r: &Vec<Graph>)
        ensures
            views_of(r@) == self@.children,
    {
        &self.nodes
    }

    /// Decodes a tree from `src` with the given reader.
    pub fn from_reader<Reader: GraphReader>(reader: &mut Reader, src: &str) -> (r: Result<
        Self,
        FormatError,
    >)
        ensures
            old(reader).decodes(src@, r),
    {
        reader.read(src)
    }

    /// Encodes this tree with the given writer.
    pub fn write_to_str<Writer: GraphWriter>(&self, writer: &mut Writer) -> (r: Result<
        String,
        FormatError,
    >)
        ensures
            old(writer).encodes(self@, r),
    {
        writer.write(self)
    }

    /// The nested text of the tree, for display.
    pub fn to_string(&self) -> (r: String)
        ensures
            r@ == text(self@),
        decreases self,
    {
        let mut result = String::new();
        push_decimal(&mut result, self.value);
        result.append(" { ");
        let mut i: usize = 0;
        while i < self.nodes.len()
            invariant
                0 <= i <= self.nodes.len(),
                result@ == decimal(self.value) + " { "@ + forest_text(
                    views_of(self.nodes@.take(i as int)),
                ),
            decreases self.nodes.len() - i,
        {
            let child = self.nodes[i].to_string();
            result.append(child.as_str());
            proof {
                let s = self.nodes@.take(i as int + 1);
                assert(s.drop_last() == self.nodes@.take(i as int));
                let f = views_of(s);
                assert(f.drop_last() == views_of(self.nodes@.take(i as int)));
            }
            i += 1;
        }
        result.append("} ");
        proof {
            assert(self.nodes@.take(i as int) == self.nodes@);
        }
        result
    }
}

} // verus!
