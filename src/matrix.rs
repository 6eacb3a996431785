use crate::decimal::{decimal, is_digit, lemma_decimal_digits, lemma_decimal_injective, push_decimal};
use crate::graph::{
    edge_label, edges, forest_count, forest_edges, forest_header, forest_vertices, header,
    lemma_model_parts, node_count, own_labels, vertices, views_of, FormatError, Graph,
    GraphWriter, Tree,
};
use vstd::prelude::*;

verus! {

/// The texts of a list of strings.
pub open spec fn texts(v: Seq<String>) -> Seq<Seq<char>> {
    v.map_values(|s: String| s@)
}

/// Whether the edge labelled `label` leaves a vertex labelled `v`:
/// the label starts with the vertex's decimal value and the separator.
pub open spec fn leaves(label: Seq<char>, v: u8) -> bool {
    (decimal(v) + "-"@).is_prefix_of(label)
}

/// One row per vertex occurrence, one column per edge label.
pub open spec fn incidence_rows(vs: Seq<u8>, hs: Seq<Seq<char>>) -> Seq<Seq<bool>> {
    Seq::new(vs.len(), |i: int| Seq::new(hs.len(), |j: int| leaves(hs[j], vs[i])))
}

/// The mathematical value of an incidence matrix.
pub struct MatrixView {
    pub header: Seq<Seq<char>>,
    pub rows: Seq<Seq<bool>>,
}

/// The incidence matrix of a tree.
pub open spec fn incidence_matrix(t: Tree) -> MatrixView {
    MatrixView { header: header(t), rows: incidence_rows(vertices(t), header(t)) }
}

/// The items of a list, one per line, each after `pad` and before a comma.
pub open spec fn lines(items: Seq<Seq<char>>, pad: Seq<char>) -> Seq<char>
    decreases items.len(),
{
    if items.len() == 0 {
        Seq::empty()
    } else {
        lines(items.drop_last(), pad) + pad + items.last() + ",\n"@
    }
}

/// A bracketed list in the multi-line debug layout, closed at indentation `pad`.
pub open spec fn block(items: Seq<Seq<char>>, pad: Seq<char>) -> Seq<char> {
    if items.len() == 0 {
        "[]"@
    } else {
        "[\n"@ + lines(items, pad + "    "@) + pad + "]"@
    }
}

pub open spec fn quoted(s: Seq<char>) -> Seq<char> {
    "\""@ + s + "\""@
}

pub open spec fn bool_text(b: bool) -> Seq<char> {
    if b {
        "true"@
    } else {
        "false"@
    }
}

/// The text of a row of the matrix.
pub open spec fn row_text(row: Seq<bool>) -> Seq<char> {
    block(row.map_values(|b: bool| bool_text(b)), "        "@)
}

/// The debug-style text of an incidence matrix.
pub open spec fn render(m: MatrixView) -> Seq<char> {
    "IncidenceMatrix {\n    header: "@ + block(m.header.map_values(|h: Seq<char>| quoted(h)), "    "@)
        + ",\n    raw: "@ + block(m.rows.map_values(|r: Seq<bool>| row_text(r)), "    "@)
        + ",\n}"@
}

/// Appends `block(items, pad)` to `out`.
fn push_block(out: &mut String, items: &Vec<String>, pad: &str)
    ensures
        final(out)@ == old(out)@ + block(texts(items@), pad@),
{
    if items.len() == 0 {
        out.append("[]");
        return;
    }
    let mut inner = String::new();
    inner.append(pad);
    inner.append("    ");
    let ghost inner_v = pad@ + "    "@;
    assert(inner@ == inner_v);
    let ghost start = old(out)@ + "[\n"@;
    out.append("[\n");
    let mut i: usize = 0;
    while i < items.len()
        invariant
            0 <= i <= items@.len(),
            inner@ == inner_v,
            out@ == start + lines(texts(items@).take(i as int), inner_v),
        decreases items@.len() - i,
    {
        out.append(inner.as_str());
        out.append(items[i].as_str());
        out.append(",\n");
        proof {
            let t = texts(items@).take(i as int + 1);
            assert(t.drop_last() == texts(items@).take(i as int));
            assert(out@ =~= start + lines(t, inner_v));
        }
        i += 1;
    }
    assert(texts(items@).take(i as int) == texts(items@));
    out.append(pad);
    out.append("]");
    assert(out@ =~= old(out)@ + block(texts(items@), pad@));
}

/// Sizes of the vertex and edge lists of a tree.
pub proof fn lemma_sizes(t: Tree)
    ensures
        vertices(t).len() == node_count(t),
        header(t).len() + 1 == node_count(t),
    decreases t, 0int,
{
    lemma_forest_sizes(t.children);
}

pub proof fn lemma_forest_sizes(f: Seq<Tree>)
    ensures
        forest_vertices(f).len() == forest_count(f),
        forest_header(f).len() + f.len() == forest_count(f),
    decreases f, 1int,
{
    if f.len() > 0 {
        lemma_forest_sizes(f.drop_last());
        lemma_sizes(f.last());
    }
}

/// The incidence matrix of a tree has one row per node and one column per
/// edge, that is one column fewer than it has nodes.
pub proof fn lemma_matrix_size(t: Tree)
    ensures
        incidence_matrix(t).rows.len() == node_count(t),
        incidence_matrix(t).header.len() == node_count(t) - 1,
{
    lemma_sizes(t);
}

/// Every row of the incidence matrix of a tree is as long as its header.
pub proof fn lemma_rows_match_header(t: Tree)
    ensures
        forall|i: int|
            0 <= i < incidence_matrix(t).rows.len() ==> #[trigger] incidence_matrix(t).rows[i].len()
                == incidence_matrix(t).header.len(),
{
}

/// The header lists the labels of the edges, in order.
pub proof fn lemma_header_labels(t: Tree)
    ensures
        header(t) == edges(t).map_values(|e: (u8, u8)| edge_label(e.0, e.1)),
    decreases t, 0int,
{
    lemma_forest_header_labels(t.children);
    assert(header(t) =~= edges(t).map_values(|e: (u8, u8)| edge_label(e.0, e.1)));
}

pub proof fn lemma_forest_header_labels(f: Seq<Tree>)
    ensures
        forest_header(f) == forest_edges(f).map_values(|e: (u8, u8)| edge_label(e.0, e.1)),
    decreases f, 1int,
{
    if f.len() > 0 {
        lemma_forest_header_labels(f.drop_last());
        lemma_header_labels(f.last());
        assert(forest_header(f) =~= forest_edges(f).map_values(
            |e: (u8, u8)| edge_label(e.0, e.1),
        ));
    }
}

/// An edge label starts with a vertex's value and the separator exactly when
/// that value is the label's parent value.
pub proof fn lemma_leaves_label(p: u8, c: u8, v: u8)
    ensures
        leaves(edge_label(p, c), v) <==> v == p,
{
    reveal_strlit("-");
    lemma_decimal_digits(p);
    lemma_decimal_digits(v);
    let dv = decimal(v);
    let dp = decimal(p);
    let pre = dv + "-"@;
    let lab = edge_label(p, c);
    if v == p {
        assert(pre =~= lab.subrange(0, pre.len() as int));
    } else if leaves(lab, v) {
        let n = dv.len() as int;
        let m = dp.len() as int;
        assert(lab.subrange(0, pre.len() as int)[n] == pre[n]);
        assert(lab.subrange(0, pre.len() as int)[m] == pre[m]);
        if n < m {
            assert(is_digit(dp[n]));
        } else if n > m {
            assert(is_digit(dv[m]));
        } else {
            assert forall|k: int| 0 <= k < n implies dv[k] == dp[k] by {
                assert(lab.subrange(0, pre.len() as int)[k] == pre[k]);
            }
            assert(dv =~= dp);
            lemma_decimal_injective(v, p);
        }
    }
}

/// A cell of the incidence matrix is set exactly when the row's vertex value is
/// the parent value of the column's edge.
pub proof fn lemma_cell_marks_parent(t: Tree, i: int, j: int)
    requires
        0 <= i < incidence_matrix(t).rows.len(),
        0 <= j < incidence_matrix(t).header.len(),
    ensures
        incidence_matrix(t).rows[i][j] <==> vertices(t)[i] == edges(t)[j].0,
{
    lemma_header_labels(t);
    lemma_leaves_label(edges(t)[j].0, edges(t)[j].1, vertices(t)[i]);
}

/// Which vertex occurrence is the parent end of which edge.
#[derive(Debug)]
pub struct IncidenceMatrix {
    header: Vec<String>,
    raw: Vec<Vec<bool>>,
}

impl View for IncidenceMatrix {
    type V = MatrixView;

    closed spec fn view(&self) -> MatrixView {
        MatrixView { header: texts(self.header@), rows: self.raw@.map_values(|r: Vec<bool>| r@) }
    }
}

/// Whether `p` is a prefix of `s`.
fn starts_with(s: &str, p: &str) -> (r: bool)
    ensures
        r == p@.is_prefix_of(s@),
{
    let n = p.unicode_len();
    let m = s.unicode_len();
    if n > m {
        return false;
    }
    let mut i: usize = 0;
    while i < n
        invariant
            n == p@.len(),
            n <= m == s@.len(),
            0 <= i <= n,
            p@.take(i as int) == s@.take(i as int),
        decreases n - i,
    {
        if s.get_char(i) != p.get_char(i) {
            assert(p@[i as int] != s@.subrange(0, n as int)[i as int]);
            return false;
        }
        assert(p@.take(i as int + 1) == p@.take(i as int).push(p@[i as int]));
        assert(s@.take(i as int + 1) == s@.take(i as int).push(s@[i as int]));
        i += 1;
    }
    assert(p@ == p@.take(n as int));
    true
}

/// The label of the edge from `p` to `c`.
fn label(p: u8, c: u8) -> (r: String)
    ensures
        r@ == edge_label(p, c),
{
    let mut s = String::new();
    push_decimal(&mut s, p);
    s.append("-");
    push_decimal(&mut s, c);
    assert(s@ == Seq::<char>::empty() + decimal(p) + "-"@ + decimal(c));
    s
}

impl IncidenceMatrix {
    /// The incidence matrix of `g`.
    pub fn new(g: &Graph) -> (r: Self)
        ensures
            r@ == incidence_matrix(g@),
    {
        let header = Self::get_header_recursively(g);
        let raw = Self::get_raw_recursively(g, header.as_slice());
        let r = IncidenceMatrix { header, raw };
        assert(r@.rows =~~= incidence_matrix(g@).rows);
        r
    }

    /// The edge labels, in column order.
    pub fn header(&self) -> (r: &Vec<String>)
        ensures
            texts(r@) == self@.header,
    {
        &self.header
    }

    /// The rows, one per vertex occurrence.
    pub fn raw(&self) -> (r: &Vec<Vec<bool>>)
        ensures
            r@.map_values(|row: Vec<bool>| row@) == self@.rows,
    {
        &self.raw
    }

    /// The matrix as text, in the multi-line debug layout.
    pub fn render(&self) -> (r: String)
        ensures
            r@ == render(self@),
    {
        let mut out = String::new();
        out.append("IncidenceMatrix {\n    header: ");
        let mut labels: Vec<String> = Vec::new();
        let mut i: usize = 0;
        while i < self.header.len()
            invariant
                0 <= i <= self.header@.len(),
                texts(labels@) == texts(self.header@).take(i as int).map_values(
                    |h: Seq<char>| quoted(h),
                ),
            decreases self.header@.len() - i,
        {
            let mut q = String::new();
            q.append("\"");
            q.append(self.header[i].as_str());
            q.append("\"");
            assert(q@ =~= quoted(texts(self.header@)[i as int]));
            let ghost before = labels@;
            labels.push(q);
            assert(texts(labels@) =~= texts(before).push(q@));
            assert(texts(labels@) =~= texts(self.header@).take(i as int + 1).map_values(
                |h: Seq<char>| quoted(h),
            ));
            i += 1;
        }
        assert(texts(self.header@).take(i as int) == texts(self.header@));
        push_block(&mut out, &labels, "    ");
        out.append(",\n    raw: ");
        let ghost rows = self@.rows;
        let mut row_texts: Vec<String> = Vec::new();
        let mut j: usize = 0;
        while j < self.raw.len()
            invariant
                0 <= j <= self.raw@.len(),
                rows == self@.rows,
                texts(row_texts@) == rows.take(j as int).map_values(|r: Seq<bool>| row_text(r)),
            decreases self.raw@.len() - j,
        {
            let row = &self.raw[j];
            let mut cells: Vec<String> = Vec::new();
            let mut k: usize = 0;
            while k < row.len()
                invariant
                    0 <= k <= row@.len(),
                    texts(cells@) == row@.take(k as int).map_values(|b: bool| bool_text(b)),
                decreases row@.len() - k,
            {
                let mut c = String::new();
                if row[k] {
                    c.append("true");
                } else {
                    c.append("false");
                }
                assert(c@ == bool_text(row@[k as int]));
                let ghost before = cells@;
                cells.push(c);
                assert(texts(cells@) =~= texts(before).push(c@));
                assert(texts(cells@) =~= row@.take(k as int + 1).map_values(
                    |b: bool| bool_text(b),
                ));
                k += 1;
            }
            assert(row@.take(k as int) == row@);
            let mut t = String::new();
            push_block(&mut t, &cells, "        ");
            assert(rows[j as int] == row@);
            assert(t@ == row_text(row@));
            let ghost before = row_texts@;
            row_texts.push(t);
            assert(texts(row_texts@) =~= texts(before).push(t@));
            assert(texts(row_texts@) =~= rows.take(j as int + 1).map_values(
                |r: Seq<bool>| row_text(r),
            ));
            j += 1;
        }
        assert(rows.take(j as int) == rows);
        push_block(&mut out, &row_texts, "    ");
        out.append(",\n}");
        assert(out@ =~= render(self@));
        out
    }

    /// The edge labels of the tree, each node's own edges before those of its subtrees.
    fn get_header_recursively(g: &Graph) -> (r: Vec<String>)
        ensures
            texts(r@) == header(g@),
        decreases g,
    {
        proof {
            lemma_model_parts(g);
        }
        let mut result: Vec<String> = Vec::new();
        let mut i: usize = 0;
        while i < g.nodes.len()
            invariant
                0 <= i <= g.nodes.len(),
                texts(result@) == views_of(g.nodes@.take(i as int)).map_values(
                    |c: Tree| edge_label(g.value, c.value),
                ),
            decreases g.nodes.len() - i,
        {
            let l = label(g.value, g.nodes[i].value);
            proof {
                lemma_model_parts(&g.nodes[i as int]);
            }
            let ghost before = result@;
            result.push(l);
            proof {
                assert(texts(result@) =~= texts(before).push(l@));
                let s = g.nodes@.take(i as int + 1);
                assert(s.drop_last() == g.nodes@.take(i as int));
                assert(views_of(s) == views_of(g.nodes@.take(i as int)).push(g.nodes@[i as int]@));
                assert(views_of(s).map_values(|c: Tree| edge_label(g.value, c.value))
                    =~= views_of(g.nodes@.take(i as int)).map_values(
                    |c: Tree| edge_label(g.value, c.value),
                ).push(edge_label(g.value, g.nodes@[i as int]@.value)));
                assert(texts(result@) =~= views_of(s).map_values(
                    |c: Tree| edge_label(g.value, c.value),
                ));
            }
            i += 1;
        }
        assert(g.nodes@.take(i as int) == g.nodes@);
        assert(texts(result@) == own_labels(g@));
        let mut j: usize = 0;
        while j < g.nodes.len()
            invariant
                0 <= j <= g.nodes.len(),
                texts(result@) == own_labels(g@) + forest_header(
                    views_of(g.nodes@.take(j as int)),
                ),
            decreases g.nodes.len() - j,
        {
            let ghost before = result@;
            let mut sub = Self::get_header_recursively(&g.nodes[j]);
            let ghost sub_v = sub@;
            result.append(&mut sub);
            proof {
                let s = g.nodes@.take(j as int + 1);
                assert(s.drop_last() == g.nodes@.take(j as int));
                assert(texts(result@) =~= texts(before) + texts(sub_v));
                let f = views_of(s);
                assert(f == views_of(g.nodes@.take(j as int)).push(g.nodes@[j as int]@));
                assert(f.drop_last() == views_of(g.nodes@.take(j as int)));
                assert(forest_header(f) == forest_header(f.drop_last()) + header(f.last()));
                assert(texts(result@) =~= own_labels(g@) + forest_header(f));
            }
            j += 1;
        }
        assert(g.nodes@.take(j as int) == g.nodes@);
        result
    }

    /// The vertex labels in pre-order.
    fn get_vertices_list(g: &Graph) -> (r: Vec<u8>)
        ensures
            r@ == vertices(g@),
        decreases g,
    {
        proof {
            lemma_model_parts(g);
        }
        let mut result: Vec<u8> = Vec::new();
        result.push(g.value);
        let mut j: usize = 0;
        while j < g.nodes.len()
            invariant
                0 <= j <= g.nodes.len(),
                result@ == seq![g.value] + forest_vertices(views_of(g.nodes@.take(j as int))),
            decreases g.nodes.len() - j,
        {
            let mut sub = Self::get_vertices_list(&g.nodes[j]);
            result.append(&mut sub);
            proof {
                let s = g.nodes@.take(j as int + 1);
                assert(s.drop_last() == g.nodes@.take(j as int));
                let f = views_of(s);
                assert(f == views_of(g.nodes@.take(j as int)).push(g.nodes@[j as int]@));
                assert(f.drop_last() == views_of(g.nodes@.take(j as int)));
                assert(forest_vertices(f) == forest_vertices(f.drop_last()) + vertices(f.last()));
                assert(result@ =~= seq![g.value] + forest_vertices(f));
            }
            j += 1;
        }
        assert(g.nodes@.take(j as int) == g.nodes@);
        result
    }

    /// For each vertex occurrence, which of the given edge labels leave it.
    fn get_raw_recursively(g: &Graph, header: &[String]) -> (r: Vec<Vec<bool>>)
        ensures
            r@.map_values(|row: Vec<bool>| row@) =~~= incidence_rows(vertices(g@), texts(header@)),
    {
        let values = Self::get_vertices_list(g);
        let ghost hs = texts(header@);
        let mut result: Vec<Vec<bool>> = Vec::new();
        let mut i: usize = 0;
        while i < values.len()
            invariant
                0 <= i <= values.len(),
                values@ == vertices(g@),
                hs == texts(header@),
                result@.len() == i,
                forall|k: int| 0 <= k < i ==> #[trigger] result@[k]@ == incidence_rows(values@, hs)[k],
            decreases values.len() - i,
        {
            let mut prefix = String::new();
            push_decimal(&mut prefix, values[i]);
            prefix.append("-");
            assert(prefix@ == Seq::<char>::empty() + decimal(values@[i as int]) + "-"@);
            let mut row: Vec<bool> = Vec::new();
            let mut j: usize = 0;
            while j < header.len()
                invariant
                    0 <= j <= header@.len(),
                    i < values@.len(),
                    hs == texts(header@),
                    prefix@ == decimal(values@[i as int]) + "-"@,
                    row@ == incidence_rows(values@, hs)[i as int].take(j as int),
                decreases header@.len() - j,
            {
                let b = starts_with(header[j].as_str(), prefix.as_str());
                row.push(b);
                assert(row@ =~= incidence_rows(values@, hs)[i as int].take(j as int + 1));
                j += 1;
            }
            assert(row@ =~= incidence_rows(values@, hs)[i as int]);
            result.push(row);
            i += 1;
        }
        result
    }
}

} // verus!

verus! {

/// An encoder that writes the incidence matrix of a tree as text.
pub struct GraphIncidenceMatrixWriter;

impl GraphWriter for GraphIncidenceMatrixWriter {
    open spec fn encodes(&self, t: Tree, r: Result<String, FormatError>) -> bool {
        match r {
            Ok(s) => s@ == render(incidence_matrix(t)),
            Err(_) => false,
        }
    }

    fn write(&mut self, graph: &Graph) -> (r: Result<String, FormatError>) {
        Ok(IncidenceMatrix::new(graph).render())
    }
}

} // verus!
