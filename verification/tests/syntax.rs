use lci_codegraph::graph::emit::{Definition, TaggedSymbols};
use lci_codegraph::graph::emit::try_extract_file;
use lci_codegraph::spring::try_extract_facts;
use lci_codegraph::syntax::{read_rows, SyntaxRow, SyntaxTree};
use lci_codegraph::toolkit::{GraphStrategy, PdfOutcome, Toolkit};
use std::collections::HashMap;
use tree_sitter::{Language, Node, Parser, Tree};

const FIELDS: [&str; 22] = [
    "alternative", "arguments", "attribute", "body", "condition", "constructor", "declarator",
    "element", "field", "function", "interfaces", "key", "left", "name", "object", "parameters",
    "path", "property", "right", "superclass", "type", "value",
];

fn samples() -> Vec<(Language, &'static str)> {
    vec![
        (
            tree_sitter_rust::LANGUAGE.into(),
            "use a::b;\nstruct S<T>(T);\nimpl<T: Clone> S<T> {\n    fn run(&self, n: [u8; 3]) -> Vec<T> { self.go::<u8>(n)?.x::y(|z| z + 1) }\n}\nmod m { pub enum E { A { x: i32 }, B } }\n",
        ),
        (
            tree_sitter_python::LANGUAGE.into(),
            "import os\n\n@cache\nclass C(Base, metaclass=M):\n    def m(self, a, *b, **c) -> int:\n        if a and not b:\n            return self.x[a:b].y(1, k=2)\n        else:\n            raise E from e\n",
        ),
        (
            tree_sitter_javascript::LANGUAGE.into(),
            "import x, { y as z } from './a';\nclass A extends B { static #p = 1; get v() { return this.#p ?? `t${1}`; } }\nconst f = async ({ a, ...r }) => { for (const i of await r) { i?.b(); } };\n",
        ),
        (
            tree_sitter_typescript::LANGUAGE_TSX.into(),
            "interface I<T> extends J { m?(a: T): void }\nexport const W = (p: Props) => <div className=\"x\">{p.n as number}</div>;\n",
        ),
        (
            tree_sitter_java::LANGUAGE.into(),
            "package p;\nimport org.springframework.X;\n@RestController @RequestMapping({\"/a\", \"/b\"})\npublic class C<T extends D> extends E implements F, g.H<T> {\n  private final int[] xs = {1, 2}, ys;\n  C(int a, String... b) { super(a); }\n  @GetMapping(value = \"/x\", method = M.PUT) <R> R m(List<? super T> q) throws Z {\n    for (A a : q) { a.save(); }\n    try (R r = open()) { switch (q) { case 1 -> run(); default -> {} } } catch (IOException | E e) { e.go(); }\n    return (x, y) -> x + y;\n  }\n}\ninterface I extends J, K<L> { default void d() {} int k(); }\nenum N { P, Q; int z; }\n",
        ),
    ]
}

fn parse(language: &Language, source: &str) -> Tree {
    let mut parser = Parser::new();
    parser.set_language(language).expect("grammar loads");
    parser.parse(source, None).expect("source parses")
}

fn in_document_order(tree: &Tree) -> Vec<Node<'_>> {
    let mut out = Vec::new();
    let mut open = vec![tree.root_node()];
    while let Some(node) = open.pop() {
        out.push(node);
        for i in (0..node.child_count()).rev() {
            open.extend(node.child(i as u32));
        }
    }
    out
}

#[test]
fn tree_holds_the_nodes_of_tree_sitter_in_document_order() {
    for (language, source) in samples() {
        let parsed = parse(&language, source);
        let nodes = in_document_order(&parsed);
        let rows = read_rows(&parsed);
        assert_eq!(rows.len(), nodes.len());
        for (row, node) in rows.iter().zip(&nodes) {
            assert_eq!(row.kind, node.kind());
            assert_eq!(row.named, node.is_named());
            assert_eq!((row.start, row.end), (node.start_byte(), node.end_byte()));
            assert_eq!(row.row as usize, node.start_position().row);
        }
    }
}

#[test]
fn tree_relates_nodes_as_tree_sitter_does() {
    for (language, source) in samples() {
        let parsed = parse(&language, source);
        let nodes = in_document_order(&parsed);
        let at: HashMap<usize, usize> = nodes.iter().enumerate().map(|(i, n)| (n.id(), i)).collect();
        let tree = SyntaxTree::new(&parsed, source.as_bytes()).expect("the tree fits its source");
        assert_eq!(tree.len(), nodes.len());
        for (i, node) in nodes.iter().enumerate() {
            assert_eq!(tree.parent(i), node.parent().map(|p| at[&p.id()]));
            let mut cursor = node.walk();
            let children: Vec<usize> = node.children(&mut cursor).map(|c| at[&c.id()]).collect();
            assert_eq!(tree.children(i), &children);
            let mut cursor = node.walk();
            let named: Vec<usize> = node.named_children(&mut cursor).map(|c| at[&c.id()]).collect();
            assert_eq!(tree.named_children(i), named);
            for field in FIELDS {
                assert_eq!(
                    tree.field_child(i, field),
                    node.child_by_field_name(field).map(|c| at[&c.id()]),
                    "field {field} of {} in {source:?}",
                    node.kind()
                );
                let mut cursor = node.walk();
                let filling: Vec<usize> = node
                    .children_by_field_name(field, &mut cursor)
                    .map(|c| at[&c.id()])
                    .collect();
                let ours: Vec<usize> = children
                    .iter()
                    .copied()
                    .filter(|&c| tree.fills(c, field))
                    .collect();
                assert_eq!(ours, filling);
            }
            assert_eq!(tree.text(i).as_deref(), source.get(node.byte_range()));
            assert_eq!(tree.line(i), node.start_position().row as i64 + 1);
        }
    }
}

fn row(depth: u32, kind: &'static str, start: usize, end: usize) -> SyntaxRow<'static> {
    SyntaxRow { depth, kind, field: None, named: true, start, end, row: 0 }
}

#[test]
fn arrange_links_parents_and_children() {
    let rows = vec![
        row(0, "root", 0, 4),
        row(1, "a", 0, 2),
        row(2, "b", 0, 1),
        row(2, "c", 1, 2),
        row(1, "d", 2, 4),
    ];
    let tree = SyntaxTree::arrange(rows, b"wxyz").expect("a tree");
    assert_eq!(tree.len(), 5);
    assert_eq!(tree.parent(0), None);
    assert_eq!(tree.parent(3), Some(1));
    assert_eq!(tree.children(0), &vec![1, 4]);
    assert_eq!(tree.children(1), &vec![2, 3]);
    assert!(tree.children(4).is_empty());
    assert_eq!(tree.kind_child(0, "d"), Some(4));
    assert_eq!(tree.kind_child(0, "b"), None);
    assert_eq!(tree.text(4).as_deref(), Some("yz"));
}

#[test]
fn arrange_refuses_rows_that_make_no_tree() {
    assert!(SyntaxTree::arrange(Vec::new(), b"x").is_none());
    assert!(SyntaxTree::arrange(vec![row(1, "a", 0, 1)], b"x").is_none());
    assert!(SyntaxTree::arrange(vec![row(0, "a", 0, 1), row(0, "b", 0, 1)], b"x").is_none());
    assert!(SyntaxTree::arrange(vec![row(0, "a", 0, 1), row(2, "b", 0, 1)], b"x").is_none());
    assert!(SyntaxTree::arrange(vec![row(0, "a", 0, 2)], b"x").is_none());
    assert!(SyntaxTree::arrange(vec![row(0, "a", 1, 0)], b"x").is_none());
    assert!(SyntaxTree::arrange(vec![row(0, "a", 0, 1), row(1, "b", 1, 1)], b"x").is_some());
}

#[test]
fn text_of_a_node_that_covers_no_whole_characters_is_absent() {
    let source = "é".as_bytes();
    let rows = vec![row(0, "root", 0, 2), row(1, "half", 0, 1), row(1, "empty", 2, 2)];
    let tree = SyntaxTree::arrange(rows, source).expect("a tree");
    assert_eq!(tree.text(0).as_deref(), Some("é"));
    assert_eq!(tree.text(1), None);
    assert_eq!(tree.text(2).as_deref(), Some(""));
}

struct NoKit;

impl Toolkit for NoKit {
    type Tuning = ();
    type Chunk = ();

    fn from_path(&self, _path: &str) -> Option<String> {
        None
    }

    fn has_graph(&self, _language: &str) -> bool {
        false
    }

    fn graph_strategy(&self, _language: &str) -> Option<GraphStrategy> {
        Some(GraphStrategy::RustNative)
    }

    fn parse(&self, _source: &str, _language: &str) -> Option<Tree> {
        None
    }

    fn definitions(&self, _tree: &Tree, _source: &str) -> HashMap<usize, Definition> {
        HashMap::new()
    }

    fn tags(&self, _language: &str, _tree: &Tree, _source: &str) -> Option<TaggedSymbols> {
        None
    }

    fn extract_pdf(&self, _content: &[u8]) -> PdfOutcome {
        PdfOutcome::TooLarge
    }

    fn chunk_text(&self, _path: &str, _text: &str, _language: &str, _tuning: ()) -> Vec<()> {
        Vec::new()
    }

    fn chunk_tree(
        &self,
        _tree: &Tree,
        _path: &str,
        _source: &str,
        _language: &str,
        _tuning: (),
    ) -> Vec<()> {
        Vec::new()
    }

    fn chunk_file(&self, _path: &str, _source: &str, _language: &str, _tuning: ()) -> Vec<()> {
        Vec::new()
    }
}

#[test]
fn a_tree_of_other_text_is_refused() {
    let parsed = parse(&tree_sitter_java::LANGUAGE.into(), "class Long { int field; }");
    assert!(SyntaxTree::new(&parsed, b"class").is_none());
    assert!(try_extract_facts(&parsed, "class", "A.java").is_none());
    assert!(try_extract_file(&NoKit, &parsed, "A.java", "class", "java").is_none());
    let same = "class Long { int field; }";
    assert!(try_extract_facts(&parsed, same, "A.java").is_some());
    let symbols = try_extract_file(&NoKit, &parsed, "A.java", same, "java").expect("symbols");
    assert_eq!(symbols.nodes.len(), 1);
    assert_eq!(symbols.nodes[0].node_id, "A.java");
}
