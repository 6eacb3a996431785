use graph_incidence::graph::{FormatError, Graph, GraphReader, GraphWriter};
use graph_incidence::matrix::{GraphIncidenceMatrixWriter, IncidenceMatrix};

struct StubGraphWriter {
    pub ok: bool,
}

impl GraphWriter for StubGraphWriter {
    fn write(&mut self, _: &Graph) -> Result<String, FormatError> {
        self.ok = true;
        Err(FormatError { message: "Should return error by design, but not throw".to_string() })
    }
}

struct StubGraphReader {
    pub ok: bool,
}

impl GraphReader for StubGraphReader {
    fn read(&mut self, _: &str) -> Result<Graph, FormatError> {
        self.ok = true;
        Err(FormatError { message: "Should return error by design, but not throw".to_string() })
    }
}

/// A reader that answers every text with the same tree.
struct FixedGraphReader;

impl GraphReader for FixedGraphReader {
    fn read(&mut self, _: &str) -> Result<Graph, FormatError> {
        Ok(fill_the_graph())
    }
}

/// A writer that hands every call on to the incidence matrix writer.
struct ForwardingGraphWriter;

impl GraphWriter for ForwardingGraphWriter {
    fn write(&mut self, _: &Graph) -> Result<String, FormatError> {
        GraphIncidenceMatrixWriter {}.write(&fill_the_graph())
    }
}

fn fill_the_graph() -> Graph {
    let mut g = Graph::new(1);

    let mut a = Graph::new(2);
    let b = Graph::new(3);
    let mut c = Graph::new(4);
    let d = Graph::new(5);

    c.add(b);
    c.add(d);
    a.add(c);
    g.add(a);

    g
}

const MATRIX_TEXT: &str = r##"IncidenceMatrix {
    header: [
        "1-2",
        "2-4",
        "4-3",
        "4-5",
    ],
    raw: [
        [
            true,
            false,
            false,
            false,
        ],
        [
            false,
            true,
            false,
            false,
        ],
        [
            false,
            false,
            true,
            true,
        ],
        [
            false,
            false,
            false,
            false,
        ],
        [
            false,
            false,
            false,
            false,
        ],
    ],
}"##;

#[test]
fn stub_test_reader() {
    let mut reader = StubGraphReader { ok: false };
    let _ = Graph::from_reader(&mut reader, "");

    assert!(reader.ok)
}

#[test]
fn mock_test_reader() {
    let mut mock = FixedGraphReader;

    let g = fill_the_graph();

    assert_eq!(mock.read("anything").unwrap(), g);
}

#[test]
fn stub_test_writer() {
    let mut writer = StubGraphWriter { ok: false };
    let _ = Graph::new(0).write_to_str(&mut writer);

    assert!(writer.ok)
}

#[test]
fn mock_test_writer() {
    let mut mock = ForwardingGraphWriter;

    assert_eq!(mock.write(&fill_the_graph()).unwrap(), MATRIX_TEXT);
}

#[test]
fn graph_to_string_test() {
    let g = fill_the_graph();

    assert_eq!(g.to_string(), "1 { 2 { 4 { 3 { } 5 { } } } } ")
}

#[test]
fn matrix_of_sample_tree() {
    let m = IncidenceMatrix::new(&fill_the_graph());
    assert_eq!(m.header(), &vec!["1-2", "2-4", "4-3", "4-5"]);
    assert_eq!(m.raw().len(), 5);
    assert_eq!(m.raw()[0], vec![true, false, false, false]);
    assert_eq!(m.raw()[2], vec![false, false, true, true]);
}

#[test]
fn matrix_writer_through_graph() {
    let g = fill_the_graph();
    let text = g.write_to_str(&mut GraphIncidenceMatrixWriter).unwrap();
    assert_eq!(text, MATRIX_TEXT);
}

#[test]
fn single_node_matrix() {
    let g = Graph::new(7);
    let m = IncidenceMatrix::new(&g);
    assert!(m.header().is_empty());
    assert_eq!(m.raw().len(), 1);
    assert!(m.raw()[0].is_empty());
    assert_eq!(m.render(), "IncidenceMatrix {\n    header: [],\n    raw: [\n        [],\n    ],\n}");
}

#[test]
fn single_node_text() {
    assert_eq!(Graph::new(0).to_string(), "0 { } ");
    assert_eq!(Graph::new(255).to_string(), "255 { } ");
}

#[test]
fn repeated_values_mark_every_occurrence() {
    // 1 -> {1 -> {2}}: both occurrences of 1 are marked for both edges leaving a 1.
    let mut inner = Graph::new(1);
    inner.add(Graph::new(2));
    let mut g = Graph::new(1);
    g.add(inner);
    let m = IncidenceMatrix::new(&g);
    assert_eq!(m.header(), &vec!["1-1", "1-2"]);
    assert_eq!(m.raw()[0], vec![true, true]);
    assert_eq!(m.raw()[1], vec![true, true]);
    assert_eq!(m.raw()[2], vec![false, false]);
}

#[test]
fn prefix_of_longer_value_is_not_a_parent() {
    // 12 -> 3 and a vertex 1: "1" is a textual prefix of "12-3", but 1 is not its parent.
    let mut g = Graph::new(12);
    g.add(Graph::new(1));
    g.add(Graph::new(3));
    let m = IncidenceMatrix::new(&g);
    assert_eq!(m.header(), &vec!["12-1", "12-3"]);
    assert_eq!(m.raw()[0], vec![true, true]);
    assert_eq!(m.raw()[1], vec![false, false]);
    assert_eq!(m.raw()[2], vec![false, false]);
}

#[test]
fn sizes_follow_node_count() {
    let g = fill_the_graph();
    let m = IncidenceMatrix::new(&g);
    assert_eq!(m.raw().len(), 5);
    assert_eq!(m.header().len(), 4);
    for row in m.raw() {
        assert_eq!(row.len(), m.header().len());
    }
}

#[test]
fn child_order_changes_text() {
    let mut a = Graph::new(4);
    a.add(Graph::new(3));
    a.add(Graph::new(5));
    let mut b = Graph::new(4);
    b.add(Graph::new(5));
    b.add(Graph::new(3));
    assert_eq!(a.to_string(), "4 { 3 { } 5 { } } ");
    assert_eq!(b.to_string(), "4 { 5 { } 3 { } } ");
    assert_ne!(a.to_string(), b.to_string());
}

#[test]
fn add_chains() {
    let mut g = Graph::new(1);
    g.add(Graph::new(2)).add(Graph::new(3));
    assert_eq!(g.to_string(), "1 { 2 { } 3 { } } ");
}

#[test]
fn getters_expose_value_and_children() {
    let g = fill_the_graph();
    assert_eq!(g.value(), 1);
    assert_eq!(g.nodes().len(), 1);
    assert_eq!(g.nodes()[0].value(), 2);
    assert_eq!(g.nodes()[0].nodes()[0].nodes().len(), 2);
}
