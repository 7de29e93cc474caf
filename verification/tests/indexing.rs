use lci_codegraph::graph::emit::{
    extract_file, file_label, is_type_container, Definition, TaggedSymbols,
};
use lci_codegraph::graph::resolve::resolve;
use lci_codegraph::graph::FileSymbols;
use lci_codegraph::input::{
    index_inputs, IndexOptions, Indexer, Outcome, RawInput, MAX_FILE_BYTES, MAX_INPUT_BYTES,
    MAX_PDF_BYTES,
};
use lci_codegraph::model::{Graph, GraphNode};
use lci_codegraph::toolkit::{GraphStrategy, PdfOutcome, Toolkit};
use std::borrow::Cow;
use std::collections::HashMap;
use tree_sitter::{Language, Node, Parser, Query, QueryCursor, StreamingIterator, Tree};

#[derive(Debug, Clone, PartialEq)]
struct Piece {
    file_path: String,
    content: String,
    language: String,
    chunk_type: String,
}

#[derive(Debug, Clone, Copy, Default)]
struct Tuning;

struct Kit;

fn grammar(language: &str) -> Option<Language> {
    match language {
        "rust" => Some(tree_sitter_rust::LANGUAGE.into()),
        "python" => Some(tree_sitter_python::LANGUAGE.into()),
        "javascript" => Some(tree_sitter_javascript::LANGUAGE.into()),
        "typescript" => Some(tree_sitter_typescript::LANGUAGE_TYPESCRIPT.into()),
        "tsx" => Some(tree_sitter_typescript::LANGUAGE_TSX.into()),
        "java" => Some(tree_sitter_java::LANGUAGE.into()),
        _ => None,
    }
}

fn tags_query(language: &str) -> String {
    match language {
        "python" => tree_sitter_python::TAGS_QUERY.to_string(),
        "javascript" => tree_sitter_javascript::TAGS_QUERY.to_string(),
        "java" => tree_sitter_java::TAGS_QUERY.to_string(),
        _ => format!(
            "{}\n{}",
            tree_sitter_javascript::TAGS_QUERY,
            tree_sitter_typescript::TAGS_QUERY
        ),
    }
}

fn in_document_order(tree: &Tree) -> Vec<Node<'_>> {
    let mut out = Vec::new();
    let mut open = vec![tree.root_node()];
    while let Some(node) = open.pop() {
        out.push(node);
        for i in (0..node.child_count()).rev() {
            open.extend(node.child(i as u32));
        }
    }
    out
}

fn positions(tree: &Tree) -> HashMap<usize, usize> {
    in_document_order(tree)
        .iter()
        .enumerate()
        .map(|(i, n)| (n.id(), i))
        .collect()
}

fn rust_kind(kind: &str) -> Option<&'static str> {
    match kind {
        "function_item" | "function_signature_item" => Some("function"),
        "struct_item" => Some("struct"),
        "enum_item" => Some("enum"),
        "trait_item" => Some("trait"),
        "impl_item" => Some("impl"),
        "mod_item" => Some("module"),
        _ => None,
    }
}

fn tag_kind(capture: &str) -> Option<&'static str> {
    match capture {
        "definition.function" => Some("function"),
        "definition.method" => Some("method"),
        "definition.class" => Some("class"),
        "definition.interface" => Some("interface"),
        "definition.module" => Some("module"),
        "definition.constant" => Some("constant"),
        "definition.enum" => Some("enum"),
        "definition.type" => Some("type"),
        _ => None,
    }
}

fn node_text(node: &Node<'_>, source: &str) -> String {
    source[node.byte_range()].to_string()
}

impl Toolkit for Kit {
    type Tuning = Tuning;
    type Chunk = Piece;

    fn from_path(&self, path: &str) -> Option<String> {
        let extension = path.rsplit_once('.')?.1;
        let language = match extension {
            "rs" => "rust",
            "py" => "python",
            "js" | "jsx" => "javascript",
            "ts" => "typescript",
            "tsx" => "tsx",
            "java" => "java",
            _ => return None,
        };
        Some(language.to_string())
    }

    fn has_graph(&self, language: &str) -> bool {
        grammar(language).is_some()
    }

    fn graph_strategy(&self, language: &str) -> Option<GraphStrategy> {
        match language {
            "rust" => Some(GraphStrategy::RustNative),
            _ => grammar(language).map(|_| GraphStrategy::Tags),
        }
    }

    fn parse(&self, source: &str, language: &str) -> Option<Tree> {
        let mut parser = Parser::new();
        parser.set_language(&grammar(language)?).ok()?;
        parser.parse(source, None)
    }

    fn definitions(&self, tree: &Tree, source: &str) -> HashMap<usize, Definition> {
        let mut defs = HashMap::new();
        for (i, node) in in_document_order(tree).iter().enumerate() {
            if let Some(kind) = rust_kind(node.kind()) {
                let name = match kind {
                    "impl" => None,
                    _ => node.child_by_field_name("name").map(|n| node_text(&n, source)),
                };
                defs.insert(i, Definition { kind, name });
            }
        }
        defs
    }

    fn tags(&self, language: &str, tree: &Tree, source: &str) -> Option<TaggedSymbols> {
        let query = Query::new(&grammar(language)?, &tags_query(language)).ok()?;
        let at = positions(tree);
        let mut defs = HashMap::new();
        let mut calls = HashMap::new();
        let mut cursor = QueryCursor::new();
        let mut matches = cursor.matches(&query, tree.root_node(), source.as_bytes());
        while let Some(found) = matches.next() {
            let mut name: Option<Node<'_>> = None;
            let mut definition: Option<(Node<'_>, &'static str)> = None;
            let mut is_call = false;
            for capture in found.captures() {
                let label = query.capture_names()[capture.index as usize];
                if label == "name" {
                    name = Some(capture.node);
                } else if label == "reference.call" {
                    is_call = true;
                } else if let Some(kind) = tag_kind(label) {
                    definition = Some((capture.node, kind));
                }
            }
            if let Some(name) = name {
                let text = node_text(&name, source);
                if let Some((node, kind)) = definition {
                    defs.entry(at[&node.id()]).or_insert(Definition {
                        kind,
                        name: Some(text),
                    });
                } else if is_call {
                    calls.insert(at[&name.id()], text);
                }
            }
        }
        Some(TaggedSymbols { defs, calls })
    }

    fn extract_pdf(&self, content: &[u8]) -> PdfOutcome {
        let text = String::from_utf8_lossy(content);
        let drawn = text
            .strip_prefix("%PDF")
            .and_then(|rest| rest.split_once('('))
            .and_then(|(_, rest)| rest.split_once(") Tj"));
        match drawn {
            Some((shown, _)) => PdfOutcome::Text(shown.to_string()),
            None => PdfOutcome::Failed("not a PDF".to_string()),
        }
    }

    fn chunk_text(&self, path: &str, text: &str, language: &str, _tuning: Tuning) -> Vec<Piece> {
        if text.is_empty() {
            return Vec::new();
        }
        vec![Piece {
            file_path: path.to_string(),
            content: text.to_string(),
            language: language.to_string(),
            chunk_type: "window".to_string(),
        }]
    }

    fn chunk_tree(
        &self,
        tree: &Tree,
        path: &str,
        source: &str,
        language: &str,
        _tuning: Tuning,
    ) -> Vec<Piece> {
        in_document_order(tree)
            .iter()
            .filter_map(|node| {
                let kind = rust_kind(node.kind())?;
                Some(Piece {
                    file_path: path.to_string(),
                    content: node_text(node, source),
                    language: language.to_string(),
                    chunk_type: kind.to_string(),
                })
            })
            .collect()
    }

    fn chunk_file(&self, path: &str, source: &str, language: &str, tuning: Tuning) -> Vec<Piece> {
        let pieces = match self.parse(source, language) {
            Some(tree) => self.chunk_tree(&tree, path, source, language, tuning),
            None => Vec::new(),
        };
        if pieces.is_empty() {
            self.chunk_text(path, source, language, tuning)
        } else {
            pieces
        }
    }
}

fn facts_for(language: &str, path: &str, src: &str) -> FileSymbols {
    let tree = Kit.parse(src, language).expect("source parses");
    extract_file(&Kit, &tree, path, src, language)
}

fn graph_of_lang(language: &str, files: &[(&str, &str)]) -> Graph {
    let facts: Vec<FileSymbols> = files
        .iter()
        .map(|(path, src)| {
            let tree = Kit.parse(src, language).expect("source parses");
            extract_file(&Kit, &tree, path, src, language)
        })
        .collect();
    resolve(facts, Vec::new())
}

fn graph_of(files: &[(&str, &str)]) -> Graph {
    graph_of_lang("rust", files)
}

fn node<'a>(g: &'a Graph, label: &str) -> &'a GraphNode {
    g.nodes
        .iter()
        .find(|n| n.label == label)
        .unwrap_or_else(|| panic!("no node labelled {label:?}; nodes = {:?}", g.nodes))
}

fn has_call(g: &Graph, caller: &str, callee: &str) -> bool {
    let src = node(g, caller).node_id.as_str();
    let dst = node(g, callee).node_id.as_str();
    g.edges
        .iter()
        .any(|e| e.relation == "calls" && e.source == src && e.target == dst)
}

#[test]
fn emits_file_and_function_nodes_with_contains() {
    let g = graph_of(&[("src/math.rs", "fn add(a: i32, b: i32) -> i32 { a + b }\n")]);
    assert!(
        g.nodes
            .iter()
            .any(|n| n.node_id == "src/math.rs" && n.label == "math.rs")
    );
    let add = g
        .nodes
        .iter()
        .find(|n| n.label == "add()")
        .expect("add node");
    assert_eq!(add.source_file, "src/math.rs");
    assert!(
        g.edges.iter().any(|e| e.relation == "contains"
            && e.source == "src/math.rs"
            && e.target == add.node_id),
        "file should contain add"
    );
}

#[test]
fn intra_file_call_edge_is_built() {
    let src = "fn helper() {}\nfn caller() { helper(); }\n";
    let g = graph_of(&[("src/a.rs", src)]);
    let helper = g.nodes.iter().find(|n| n.label == "helper()").unwrap();
    let caller = g.nodes.iter().find(|n| n.label == "caller()").unwrap();
    assert!(
        g.edges.iter().any(|e| e.relation == "calls"
            && e.source == caller.node_id
            && e.target == helper.node_id),
        "caller → helper calls edge, got {:?}",
        g.edges
    );
}

#[test]
fn cross_file_call_resolves_to_definition_in_another_file() {
    let a = ("src/a.rs", "fn caller() { target(); }\n");
    let b = ("src/b.rs", "fn target() {}\n");
    let g = graph_of(&[a, b]);
    let target = g.nodes.iter().find(|n| n.label == "target()").unwrap();
    let caller = g.nodes.iter().find(|n| n.label == "caller()").unwrap();
    assert_eq!(target.source_file, "src/b.rs");
    assert_eq!(caller.source_file, "src/a.rs");
    assert!(
        g.edges.iter().any(|e| e.relation == "calls"
            && e.source == caller.node_id
            && e.target == target.node_id),
        "cross-file caller → target edge missing; edges = {:?}",
        g.edges
    );
}

#[test]
fn method_call_resolves_to_method_definition() {
    let src = "struct S;\nimpl S { fn run(&self) {} }\nfn go(s: &S) { s.run(); }\n";
    let g = graph_of(&[("src/s.rs", src)]);
    let run = g.nodes.iter().find(|n| n.label == "run()").unwrap();
    let go = g.nodes.iter().find(|n| n.label == "go()").unwrap();
    assert!(
        g.edges
            .iter()
            .any(|e| e.relation == "calls" && e.source == go.node_id && e.target == run.node_id),
        "go → S::run method-call edge missing; edges = {:?}",
        g.edges
    );
}

#[test]
fn ambiguous_global_name_is_not_guessed() {
    let files = &[
        ("src/x.rs", "fn dup() {}\n"),
        ("src/y.rs", "fn dup() {}\n"),
        ("src/z.rs", "fn caller() { dup(); }\n"),
    ];
    let g = graph_of(files);
    assert!(
        !g.edges.iter().any(|e| e.relation == "calls"),
        "ambiguous name must not produce a guessed calls edge, got {:?}",
        g.edges
    );
}

#[test]
fn method_definition_emits_a_method_edge_not_contains() {
    let src = "struct S;\nimpl S { fn run(&self) {} }\n";
    let g = graph_of(&[("src/s.rs", src)]);
    let run = g.nodes.iter().find(|n| n.label == "run()").unwrap();
    let impl_node = g
        .nodes
        .iter()
        .find(|n| n.label == "impl")
        .expect("impl container node");
    let method_edge = g
        .edges
        .iter()
        .find(|e| e.relation == "method" && e.target == run.node_id)
        .unwrap_or_else(|| panic!("S::run must be a `method` edge; edges = {:?}", g.edges));
    assert_eq!(
        method_edge.source, impl_node.node_id,
        "method edge must originate from the `impl S` container node, not elsewhere"
    );
    assert!(
        !g.edges
            .iter()
            .any(|e| e.relation == "contains" && e.target == run.node_id),
        "S::run must NOT also be a `contains` target; edges = {:?}",
        g.edges
    );
}

#[test]
fn ambiguous_local_does_not_shadow_a_qualified_global() {
    let a = (
        "src/a.rs",
        "\
struct A;
struct B;
impl A { fn new() -> A { A } }
impl B { fn new() -> B { B } }
fn make() { let _ = C::new(); }
",
    );
    let c = ("src/c.rs", "struct C;\nimpl C { fn new() -> C { C } }\n");
    let g = graph_of(&[a, c]);
    let make = g.nodes.iter().find(|n| n.label == "make()").unwrap();
    let c_new = g
        .nodes
        .iter()
        .find(|n| n.label == "new()" && n.source_file == "src/c.rs")
        .expect("C::new in c.rs");
    let calls: Vec<_> = g
        .edges
        .iter()
        .filter(|e| e.relation == "calls" && e.source == make.node_id)
        .collect();
    assert_eq!(calls.len(), 1, "one cross-file edge; got {calls:?}");
    assert_eq!(
        calls[0].target, c_new.node_id,
        "ambiguous locals must not shadow the qualified global C::new"
    );
}

#[test]
fn labels_and_lines_match_graphify_shape() {
    let g = graph_of(&[("src/m.rs", "\nfn add() {}\n")]); // `add` on source line 2
    let add = g.nodes.iter().find(|n| n.label == "add()").unwrap();
    assert_eq!(add.start_line, 2, "1-based start_line");
    let file = g.nodes.iter().find(|n| n.node_id == "src/m.rs").unwrap();
    assert_eq!(file.start_line, 1, "file node is line 1 like Graphify's L1");
}

#[test]
fn same_file_qualified_call_hits_the_right_constructor() {
    let src = "\
struct A;
struct B;
impl A { fn new() -> A { A } }
impl B { fn new() -> B { B } }
fn make() { let _ = A::new(); }
";
    let g = graph_of(&[("src/lib.rs", src)]);
    let make = g.nodes.iter().find(|n| n.label == "make()").unwrap();
    let a_new = g
        .nodes
        .iter()
        .find(|n| n.label == "new()" && n.start_line == 3)
        .expect("A::new at line 3");
    let b_new = g
        .nodes
        .iter()
        .find(|n| n.label == "new()" && n.start_line == 4)
        .expect("B::new at line 4");
    let calls: Vec<_> = g
        .edges
        .iter()
        .filter(|e| e.relation == "calls" && e.source == make.node_id)
        .collect();
    assert_eq!(
        calls.len(),
        1,
        "exactly one calls edge (no fan-out); got {calls:?}"
    );
    assert_eq!(calls[0].target, a_new.node_id, "must resolve to A::new");
    assert_ne!(calls[0].target, b_new.node_id, "must NOT also hit B::new");
}

#[test]
fn same_file_bare_duplicate_call_is_dropped_not_fanned_out() {
    let src = "\
struct A;
struct B;
impl A { fn default() -> A { A } }
impl B { fn default() -> B { B } }
fn make() { let _ = default(); }
";
    let g = graph_of(&[("src/lib.rs", src)]);
    assert!(
        !g.edges.iter().any(|e| e.relation == "calls"),
        "ambiguous bare call must be dropped, not fanned out; edges = {:?}",
        g.edges
    );
}

#[test]
fn qualified_call_disambiguates_from_and_build_across_impls() {
    let src = "\
struct Meters;
struct Feet;
impl Meters { fn from(v: i32) -> Meters { Meters } fn build() -> Meters { Meters } }
impl Feet { fn from(v: i32) -> Feet { Feet } fn build() -> Feet { Feet } }
fn go() { let _ = Feet::from(3); let _ = Meters::build(); }
";
    let g = graph_of(&[("src/u.rs", src)]);
    let go = g.nodes.iter().find(|n| n.label == "go()").unwrap();
    let calls: Vec<_> = g
        .edges
        .iter()
        .filter(|e| e.relation == "calls" && e.source == go.node_id)
        .collect();
    assert_eq!(calls.len(), 2, "two resolved edges; got {calls:?}");
    let feet_from = g
        .nodes
        .iter()
        .find(|n| n.label == "from()" && n.start_line == 4)
        .expect("Feet::from at line 4");
    let meters_build = g
        .nodes
        .iter()
        .find(|n| n.label == "build()" && n.start_line == 3)
        .expect("Meters::build at line 3");
    assert!(calls.iter().any(|e| e.target == feet_from.node_id));
    assert!(calls.iter().any(|e| e.target == meters_build.node_id));
}

#[test]
fn output_is_deterministic() {
    let files = &[
        ("src/b.rs", "fn target() {}\n"),
        ("src/a.rs", "fn caller() { target(); }\n"),
    ];
    let g1 = graph_of(files);
    let g2 = graph_of(files);
    assert_eq!(g1, g2, "resolve must be order-independent + canonical");
}

#[test]
fn python_free_function_contains_and_intra_file_call() {
    let src = "def helper():\n    pass\n\ndef caller():\n    helper()\n";
    let g = graph_of_lang("python", &[("app/util.py", src)]);
    let file = node(&g, "util.py");
    assert_eq!(file.node_id, "app/util.py");
    let helper = node(&g, "helper()");
    assert_eq!(helper.start_line, 1, "1-based def line");
    assert!(
        g.edges.iter().any(|e| e.relation == "contains"
            && e.source == "app/util.py"
            && e.target == helper.node_id),
        "file → helper contains edge; edges = {:?}",
        g.edges
    );
    assert!(has_call(&g, "caller()", "helper()"), "caller → helper");
}

#[test]
fn python_class_method_emits_method_edge_and_self_call_resolves() {
    let src = "\
class Circle:
    def area(self):
        return 3.14

    def describe(self):
        return self.area()
";
    let g = graph_of_lang("python", &[("shapes.py", src)]);
    let class = node(&g, "Circle");
    let area = node(&g, "area()");
    assert!(
        g.edges.iter().any(|e| e.relation == "method"
            && e.source == class.node_id
            && e.target == area.node_id),
        "Circle → area must be a `method` edge; edges = {:?}",
        g.edges
    );
    assert!(
        !g.edges
            .iter()
            .any(|e| e.relation == "contains" && e.target == area.node_id),
        "a method must not also be a `contains` target"
    );
    assert!(
        has_call(&g, "describe()", "area()"),
        "self.area() must resolve to Circle.area; edges = {:?}",
        g.edges
    );
}

#[test]
fn python_cross_file_call_resolves() {
    let a = ("pkg/a.py", "def caller():\n    target()\n");
    let b = ("pkg/b.py", "def target():\n    pass\n");
    let g = graph_of_lang("python", &[a, b]);
    assert_eq!(node(&g, "target()").source_file, "pkg/b.py");
    assert!(
        has_call(&g, "caller()", "target()"),
        "cross-file caller → target"
    );
}

#[test]
fn python_colliding_method_names_qualified_resolves_bare_dropped() {
    let src = "\
class Circle:
    def new(self):
        return self

class Square:
    def new(self):
        return self

def build():
    return Circle.new()

def build_bare():
    return new()
";
    let g = graph_of_lang("python", &[("shapes.py", src)]);
    let circle_new = g
        .nodes
        .iter()
        .find(|n| n.label == "new()" && n.start_line == 2)
        .expect("Circle.new at line 2");
    let build_calls: Vec<_> = g
        .edges
        .iter()
        .filter(|e| e.relation == "calls" && e.source == node(&g, "build()").node_id)
        .collect();
    assert_eq!(
        build_calls.len(),
        1,
        "one qualified edge; got {build_calls:?}"
    );
    assert_eq!(
        build_calls[0].target, circle_new.node_id,
        "→ Circle.new only"
    );
    assert!(
        !g.edges
            .iter()
            .any(|e| e.relation == "calls" && e.source == node(&g, "build_bare()").node_id),
        "bare ambiguous new() must be dropped; edges = {:?}",
        g.edges
    );
}

#[test]
fn python_decorated_def_is_named_not_wrapped() {
    let src = "import functools\n\n@functools.cache\ndef cached():\n    return 1\n";
    let g = graph_of_lang("python", &[("m.py", src)]);
    let cached = node(&g, "cached()");
    assert_eq!(cached.start_line, 4, "def line, not the decorator line");
    assert!(
        g.edges
            .iter()
            .any(|e| e.relation == "contains" && e.source == "m.py" && e.target == cached.node_id),
        "decorated def is contained by the file directly (no wrapper); edges = {:?}",
        g.edges
    );
    assert!(
        !g.nodes.iter().any(|n| n.label == "function"),
        "no anonymous `function` wrapper node; nodes = {:?}",
        g.nodes
    );
}

#[test]
fn ts_function_declaration_and_call() {
    let src = "function helper() {}\nfunction caller() { helper(); }\n";
    let g = graph_of_lang("typescript", &[("src/a.ts", src)]);
    assert!(has_call(&g, "caller()", "helper()"), "caller → helper");
}

#[test]
fn ts_named_arrow_const_is_a_callable() {
    let src = "const helper = () => {};\nfunction caller() { helper(); }\n";
    let g = graph_of_lang("typescript", &[("src/a.ts", src)]);
    let helper = node(&g, "helper()");
    assert!(
        g.edges.iter().any(|e| e.relation == "contains"
            && e.source == "src/a.ts"
            && e.target == helper.node_id),
        "file → const-arrow helper; edges = {:?}",
        g.edges
    );
    assert!(
        has_call(&g, "caller()", "helper()"),
        "caller → const-arrow helper"
    );
}

#[test]
fn ts_class_method_edge_and_this_call() {
    let src = "\
class Service {
  run() {}
  go() { this.run(); }
}
";
    let g = graph_of_lang("typescript", &[("src/s.ts", src)]);
    let class = node(&g, "Service");
    let run = node(&g, "run()");
    assert!(
        g.edges.iter().any(|e| e.relation == "method"
            && e.source == class.node_id
            && e.target == run.node_id),
        "Service → run `method` edge; edges = {:?}",
        g.edges
    );
    assert!(
        has_call(&g, "go()", "run()"),
        "this.run() resolves to Service.run"
    );
}

#[test]
fn ts_cross_file_call_resolves() {
    let a = (
        "src/a.ts",
        "import { target } from './b';\nfunction caller() { target(); }\n",
    );
    let b = ("src/b.ts", "export function target() {}\n");
    let g = graph_of_lang("typescript", &[a, b]);
    assert_eq!(node(&g, "target()").source_file, "src/b.ts");
    assert!(
        has_call(&g, "caller()", "target()"),
        "cross-file caller → target"
    );
}

#[test]
fn ts_colliding_methods_qualified_resolves_bare_dropped() {
    let src = "\
class Circle { make() { return this; } }
class Square { make() { return this; } }
function build() { return Circle.make(); }
function buildBare(m) { return make(); }
";
    let g = graph_of_lang("typescript", &[("src/shapes.ts", src)]);
    let circle_make = g
        .nodes
        .iter()
        .find(|n| n.label == "make()" && n.start_line == 1)
        .expect("Circle.make at line 1");
    let build_calls: Vec<_> = g
        .edges
        .iter()
        .filter(|e| e.relation == "calls" && e.source == node(&g, "build()").node_id)
        .collect();
    assert_eq!(
        build_calls.len(),
        1,
        "one qualified edge; got {build_calls:?}"
    );
    assert_eq!(
        build_calls[0].target, circle_make.node_id,
        "→ Circle.make only"
    );
    assert!(
        !g.edges
            .iter()
            .any(|e| e.relation == "calls" && e.source == node(&g, "buildBare()").node_id),
        "bare ambiguous make() must be dropped; edges = {:?}",
        g.edges
    );
}

#[test]
fn tsx_component_uses_the_jsx_grammar() {
    let src = "\
function useThing() { return 1; }
export const Widget = () => {
  const n = useThing();
  return <div>{n}</div>;
};
";
    let g = graph_of_lang("tsx", &[("src/Widget.tsx", src)]);
    assert!(
        has_call(&g, "Widget()", "useThing()"),
        "Widget → useThing across a JSX body; edges = {:?}",
        g.edges
    );
}

#[test]
fn javascript_jsx_arrow_component_is_extracted() {
    let src = "\
const Button = () => { return null; };
function App() { return Button(); }
";
    let g = graph_of_lang("javascript", &[("src/app.jsx", src)]);
    assert!(
        has_call(&g, "App()", "Button()"),
        "App → Button; edges = {:?}",
        g.edges
    );
}

#[test]
fn java_class_method_edge_and_this_call() {
    let src = "\
class Greeter {
    String hello() { return \"hi\"; }
    String greet() { return this.hello(); }
}
";
    let g = graph_of_lang("java", &[("Greeter.java", src)]);
    let class = node(&g, "Greeter");
    let hello = node(&g, "hello()");
    assert!(
        g.edges.iter().any(|e| e.relation == "method"
            && e.source == class.node_id
            && e.target == hello.node_id),
        "Greeter → hello `method` edge; edges = {:?}",
        g.edges
    );
    assert!(
        has_call(&g, "greet()", "hello()"),
        "this.hello() → Greeter.hello"
    );
}

#[test]
fn java_cross_file_qualified_static_call_resolves() {
    let a = (
        "Caller.java",
        "class Caller { void run() { Helper.help(); } }\n",
    );
    let b = ("Helper.java", "class Helper { static void help() {} }\n");
    let g = graph_of_lang("java", &[a, b]);
    assert_eq!(node(&g, "help()").source_file, "Helper.java");
    assert!(
        has_call(&g, "run()", "help()"),
        "Helper.help() resolves cross-file"
    );
}

#[test]
fn java_colliding_methods_qualified_resolves() {
    let src = "\
class Circle { Circle make() { return this; } }
class Square { Square make() { return this; } }
class Builder { Object build() { return Circle.make(); } }
";
    let g = graph_of_lang("java", &[("Shapes.java", src)]);
    let circle_make = g
        .nodes
        .iter()
        .find(|n| n.label == "make()" && n.start_line == 1)
        .expect("Circle.make at line 1");
    let build_calls: Vec<_> = g
        .edges
        .iter()
        .filter(|e| e.relation == "calls" && e.source == node(&g, "build()").node_id)
        .collect();
    assert_eq!(
        build_calls.len(),
        1,
        "one qualified edge; got {build_calls:?}"
    );
    assert_eq!(
        build_calls[0].target, circle_make.node_id,
        "→ Circle.make only"
    );
}

#[test]
fn a_call_to_a_single_impl_trait_method_still_resolves_to_the_impl() {
    let g = graph_of(&[
        (
            "src/shape.rs",
            "trait Shape {\n    fn describe(&self) -> f64;\n}\n",
        ),
        (
            "src/circle.rs",
            "struct Circle;\nimpl Shape for Circle {\n    fn describe(&self) -> f64 {\n        1.0\n    }\n}\n",
        ),
        (
            "src/main.rs",
            "fn run(c: &Circle) -> f64 {\n    c.describe()\n}\n",
        ),
    ]);

    let describes: Vec<&GraphNode> = g.nodes.iter().filter(|n| n.label == "describe()").collect();
    assert_eq!(
        describes.len(),
        2,
        "declaration and implementation must both be nodes; got {describes:?}"
    );
    assert!(describes.iter().any(|n| n.source_file == "src/shape.rs"));

    let caller = node(&g, "run()").node_id.clone();
    let targets: Vec<&str> = g
        .edges
        .iter()
        .filter(|e| e.relation == "calls" && e.source == caller)
        .map(|e| e.target.as_str())
        .collect();
    assert_eq!(
        targets.len(),
        1,
        "the call must still resolve to exactly one target; got {targets:?}"
    );
    assert!(
        targets[0].starts_with("src/circle.rs"),
        "must resolve to the impl in circle.rs, not the declaration; got {targets:?}"
    );
}

#[test]
fn java_call_to_a_single_impl_interface_method_resolves_to_the_implementation() {
    let greeter = (
        "Greeter.java",
        "interface Greeter {\n    String greet();\n}\n",
    );
    let english_greeter = (
        "EnglishGreeter.java",
        "class EnglishGreeter implements Greeter {\n    public String greet() { return \"hello\"; }\n}\n",
    );
    let main = (
        "Main.java",
        "class Main {\n    String run() {\n        return greet();\n    }\n}\n",
    );
    let g = graph_of_lang("java", &[greeter, english_greeter, main]);

    let greets: Vec<&GraphNode> = g.nodes.iter().filter(|n| n.label == "greet()").collect();
    assert_eq!(
        greets.len(),
        2,
        "declaration and implementation must both be indexed as nodes; got {greets:?}"
    );

    let run = node(&g, "run()");
    let calls: Vec<_> = g
        .edges
        .iter()
        .filter(|e| e.relation == "calls" && e.source == run.node_id)
        .collect();
    assert_eq!(
        calls.len(),
        1,
        "the call must resolve to exactly one target; got {calls:?}"
    );
    let target = g
        .nodes
        .iter()
        .find(|n| n.node_id == calls[0].target)
        .expect("call target must be an emitted node");
    assert_eq!(
        target.source_file, "EnglishGreeter.java",
        "must resolve to the implementation, not the interface declaration; edges = {:?}",
        g.edges
    );
}

#[test]
fn java_call_through_an_interface_typed_parameter_resolves_to_the_implementation_issue_8() {
    let greeter = (
        "Greeter.java",
        "interface Greeter {\n    String greet();\n}\n",
    );
    let english_greeter = (
        "EnglishGreeter.java",
        "class EnglishGreeter implements Greeter {\n    public String greet() { return \"hello\"; }\n}\n",
    );
    let main = (
        "Main.java",
        "class Main {\n    void run(Greeter g) {\n        g.greet();\n    }\n}\n",
    );
    let g = graph_of_lang("java", &[greeter, english_greeter, main]);
    let run = node(&g, "run()");
    let calls: Vec<_> = g
        .edges
        .iter()
        .filter(|e| e.relation == "calls" && e.source == run.node_id)
        .collect();
    assert_eq!(
        calls.len(),
        1,
        "the call must resolve to exactly one target; got {calls:?}"
    );
    let target = g
        .nodes
        .iter()
        .find(|n| n.node_id == calls[0].target)
        .expect("call target must be an emitted node");
    assert_eq!(
        target.source_file, "EnglishGreeter.java",
        "must resolve to the implementation, not the interface declaration; edges = {:?}",
        g.edges
    );
}

#[test]
fn java_two_class_fixture_with_zero_interfaces_now_produces_a_calls_edge() {
    let helper = ("Helper.java", "class Helper { void help() {} }\n");
    let caller = (
        "Caller.java",
        "class Caller { void run() { Helper h = new Helper(); h.help(); } }\n",
    );
    let g = graph_of_lang("java", &[helper, caller]);
    assert!(
        has_call(&g, "run()", "help()"),
        "Helper h = new Helper(); h.help(); must now produce a calls edge; edges = {:?}",
        g.edges
    );
}

#[test]
fn java_field_injected_interface_typed_call_resolves_to_the_single_implementation() {
    let account_service = (
        "AccountService.java",
        "interface AccountService {\n    void findById();\n}\n",
    );
    let account_service_impl = (
        "AccountServiceImpl.java",
        "class AccountServiceImpl implements AccountService {\n    public void findById() {}\n}\n",
    );
    let account_controller = (
        "AccountController.java",
        "class AccountController {\n    AccountService accountService;\n    void getAccount() {\n        accountService.findById();\n    }\n}\n",
    );
    let g = graph_of_lang(
        "java",
        &[account_service, account_service_impl, account_controller],
    );
    let get_account = node(&g, "getAccount()");
    let calls: Vec<_> = g
        .edges
        .iter()
        .filter(|e| e.relation == "calls" && e.source == get_account.node_id)
        .collect();
    assert_eq!(
        calls.len(),
        1,
        "getAccount must resolve to exactly one target; got {calls:?}"
    );
    let target = g
        .nodes
        .iter()
        .find(|n| n.node_id == calls[0].target)
        .expect("call target must be an emitted node");
    assert_eq!(
        target.source_file, "AccountServiceImpl.java",
        "accountService.findById() must resolve to the implementation, via the recovered \
         declared-type qualifier AccountService and its supertype match; edges = {:?}",
        g.edges
    );
}

#[test]
fn java_local_shadowing_a_field_of_a_different_type_resolves_to_the_locals_type() {
    let widget = ("Widget.java", "class Widget { void render() {} }\n");
    let panel = ("Panel.java", "class Panel { void render() {} }\n");
    let screen = (
        "Screen.java",
        "class Screen {\n    Widget widget;\n    void draw() {\n        Panel widget = new Panel();\n        widget.render();\n    }\n}\n",
    );
    let g = graph_of_lang("java", &[widget, panel, screen]);
    let draw = node(&g, "draw()");
    let panel_render = g
        .nodes
        .iter()
        .find(|n| n.label == "render()" && n.source_file == "Panel.java")
        .expect("Panel.render node");
    let widget_render = g
        .nodes
        .iter()
        .find(|n| n.label == "render()" && n.source_file == "Widget.java")
        .expect("Widget.render node");
    let calls: Vec<_> = g
        .edges
        .iter()
        .filter(|e| e.relation == "calls" && e.source == draw.node_id)
        .collect();
    assert_eq!(calls.len(), 1, "exactly one edge; got {calls:?}");
    assert_eq!(
        calls[0].target, panel_render.node_id,
        "the local `Panel widget` must shadow the `Widget widget` field; edges = {:?}",
        g.edges
    );
    assert_ne!(calls[0].target, widget_render.node_id);
}

#[test]
fn java_declared_type_that_contradicts_the_only_candidate_still_yields_no_edge() {
    let foo = ("Foo.java", "class Foo { void m() {} }\n");
    let other = ("Other.java", "interface Other {}\n");
    let bar = (
        "Bar.java",
        "class Bar {\n    void run(Other f) {\n        f.m();\n    }\n}\n",
    );
    let g = graph_of_lang("java", &[foo, other, bar]);
    assert!(
        !g.edges.iter().any(|e| e.relation == "calls"),
        "a declared type unrelated to the only candidate must not resolve; edges = {:?}",
        g.edges
    );
}

#[test]
fn java_call_through_an_undeclared_receiver_resolves_on_the_bare_name() {
    let widget = ("Widget.java", "class Widget { void build() {} }\n");
    let runner = (
        "Runner.java",
        "class Runner {\n    void go() {\n        obj.build();\n    }\n}\n",
    );
    let g = graph_of_lang("java", &[widget, runner]);
    assert!(
        has_call(&g, "go()", "build()"),
        "an undeclared receiver drops its qualifier and resolves on the bare name; edges = {:?}",
        g.edges
    );
}

#[test]
fn java_undeclared_receiver_with_several_same_named_candidates_stays_ambiguous() {
    let widget = ("Widget.java", "class Widget { void build() {} }\n");
    let gadget = ("Gadget.java", "class Gadget { void build() {} }\n");
    let runner = (
        "Runner.java",
        "class Runner {\n    void go() {\n        obj.build();\n    }\n}\n",
    );
    let g = graph_of_lang("java", &[widget, gadget, runner]);
    assert!(
        !g.edges.iter().any(|e| e.relation == "calls"),
        "two same-named candidates with no qualifier must stay ambiguous; edges = {:?}",
        g.edges
    );
}

#[test]
fn java_two_implementations_of_one_interface_stay_ambiguous() {
    let service = ("Service.java", "interface Service {\n    void run();\n}\n");
    let a = (
        "AImpl.java",
        "class AImpl implements Service {\n    public void run() {}\n}\n",
    );
    let b = (
        "BImpl.java",
        "class BImpl implements Service {\n    public void run() {}\n}\n",
    );
    let client = (
        "Client.java",
        "class Client {\n    void go(Service s) {\n        s.run();\n    }\n}\n",
    );
    let g = graph_of_lang("java", &[service, a, b, client]);
    assert!(
        !g.edges.iter().any(|e| e.relation == "calls"),
        "two genuine implementations must stay ambiguous, never guessed; edges = {:?}",
        g.edges
    );
}

#[test]
fn java_call_to_an_interface_method_with_no_implementation_does_not_resolve() {
    let g = graph_of_lang(
        "java",
        &[(
            "Greeter.java",
            "interface Greeter {\n    String greet();\n}\nclass Main {\n    String run() {\n        return greet();\n    }\n}\n",
        )],
    );
    assert!(
        !g.edges.iter().any(|e| e.relation == "calls"),
        "a call to a declaration-only method must not resolve; edges = {:?}",
        g.edges
    );
}

#[test]
fn typescript_call_to_a_single_impl_interface_method_resolves_to_the_implementation() {
    let greeter = (
        "greeter.ts",
        "export interface Greeter {\n  greet(): string;\n}\n",
    );
    let english_greeter = (
        "english-greeter.ts",
        "export class EnglishGreeter implements Greeter {\n  greet(): string {\n    return 'hello';\n  }\n}\n",
    );
    let main = (
        "main.ts",
        "function run(): string {\n  return greet();\n}\n",
    );
    let g = graph_of_lang("typescript", &[greeter, english_greeter, main]);

    let greets: Vec<&GraphNode> = g.nodes.iter().filter(|n| n.label == "greet()").collect();
    assert_eq!(
        greets.len(),
        2,
        "declaration and implementation must both be indexed as nodes; got {greets:?}"
    );

    let run = node(&g, "run()");
    let calls: Vec<_> = g
        .edges
        .iter()
        .filter(|e| e.relation == "calls" && e.source == run.node_id)
        .collect();
    assert_eq!(
        calls.len(),
        1,
        "the call must resolve to exactly one target; got {calls:?}"
    );
    let target = g
        .nodes
        .iter()
        .find(|n| n.node_id == calls[0].target)
        .expect("call target must be an emitted node");
    assert_eq!(
        target.source_file, "english-greeter.ts",
        "must resolve to the implementation, not the interface declaration; edges = {:?}",
        g.edges
    );
}

#[test]
fn unsupported_language_yields_completely_empty_facts() {
    let tree = Kit.parse("fn a() {}\n", "rust").expect("parses");
    let facts = extract_file(&Kit, &tree, "f.go", "fn a() {}\n", "go");
    assert!(
        facts.nodes.is_empty(),
        "no file node either: {:?}",
        facts.nodes
    );
    assert!(facts.contains.is_empty());
    assert!(facts.calls.is_empty());
    assert!(facts.callables.is_empty());
}

#[test]
fn a_tree_of_other_text_is_not_read_where_the_language_has_no_symbols() {
    let tree = Kit.parse("fn a() {}\n", "rust").expect("parses");
    let facts = extract_file(&Kit, &tree, "f.go", "", "go");
    assert!(facts.nodes.is_empty());
    assert!(facts.contains.is_empty());
    assert!(facts.calls.is_empty());
    assert!(facts.callables.is_empty());
}

#[test]
fn file_node_is_emitted_with_path_id_and_basename_label() {
    let facts = facts_for("rust", "src/lib/math.rs", "fn add() {}\n");
    let file = facts
        .nodes
        .iter()
        .find(|n| n.node_id == "src/lib/math.rs")
        .expect("file node present");
    assert_eq!(file.label, "math.rs");
    assert_eq!(
        file.start_line, 1,
        "file node is line 1, like Graphify's L1"
    );
}

#[test]
fn nested_module_chain_produces_a_contains_chain() {
    let src = "mod a {\n    mod b {\n        fn f() {}\n    }\n}\n";
    let facts = facts_for("rust", "src/n.rs", src);
    let mod_a = facts.nodes.iter().find(|n| n.label == "a").unwrap();
    let mod_b = facts.nodes.iter().find(|n| n.label == "b").unwrap();
    let f = facts.nodes.iter().find(|n| n.label == "f()").unwrap();
    assert!(
        facts.contains.iter().any(|e| e.relation == "contains"
            && e.source == "src/n.rs"
            && e.target == mod_a.node_id),
        "file contains mod a"
    );
    assert!(
        facts.contains.iter().any(|e| e.relation == "contains"
            && e.source == mod_a.node_id
            && e.target == mod_b.node_id),
        "mod a contains mod b"
    );
    assert!(
        facts.contains.iter().any(|e| e.relation == "contains"
            && e.source == mod_b.node_id
            && e.target == f.node_id),
        "mod b contains f"
    );
}

#[test]
fn trait_container_emits_a_method_edge_for_its_fn() {
    let src = "trait T {\n    fn f(&self) {}\n}\n";
    let facts = facts_for("rust", "src/t.rs", src);
    let trait_node = facts.nodes.iter().find(|n| n.label == "T").unwrap();
    let f = facts.nodes.iter().find(|n| n.label == "f()").unwrap();
    assert!(
        facts.contains.iter().any(|e| e.relation == "method"
            && e.source == trait_node.node_id
            && e.target == f.node_id),
        "trait → f must be a `method` edge; got {:?}",
        facts.contains
    );
}

#[test]
fn signature_only_trait_method_is_a_node_with_a_method_edge() {
    let src = "trait T {\n    fn f(&self);\n}\n";
    let facts = facts_for("rust", "src/t.rs", src);
    let trait_node = facts.nodes.iter().find(|n| n.label == "T").unwrap();
    let f = facts
        .nodes
        .iter()
        .find(|n| n.label == "f()")
        .expect("signature-only trait method must produce a node");
    assert_eq!(f.start_line, 2);
    assert!(
        facts.contains.iter().any(|e| e.relation == "method"
            && e.source == trait_node.node_id
            && e.target == f.node_id),
        "trait → f must be a `method` edge; got {:?}",
        facts.contains
    );
}

#[test]
fn signature_only_trait_method_is_not_a_call_target() {
    let src = "trait T {\n    fn f(&self);\n}\n";
    let facts = facts_for("rust", "src/t.rs", src);
    assert!(
        facts.callables.is_empty(),
        "a bodiless declaration must not be a call target; got {:?}",
        facts.callables
    );
}

#[test]
fn a_bodied_method_next_to_its_declaration_is_still_the_only_call_target() {
    let src = "trait T {\n    fn f(&self);\n}\n\
               struct S;\n\
               impl T for S {\n    fn f(&self) {}\n}\n";
    let facts = facts_for("rust", "src/t.rs", src);
    let targets: Vec<_> = facts.callables.iter().map(|c| c.node_id.as_str()).collect();
    assert_eq!(
        targets.len(),
        1,
        "exactly one call target (the impl) must survive; got {targets:?}"
    );
    assert!(
        targets[0].ends_with(":f"),
        "the surviving target must be the bodied impl method; got {targets:?}"
    );
    assert_eq!(
        facts.nodes.iter().filter(|n| n.label == "f()").count(),
        2,
        "declaration and implementation must BOTH be nodes; got {:?}",
        facts.nodes
    );
}

#[test]
fn tagged_class_container_emits_a_method_edge_for_its_method() {
    let src = "class C:\n    def m(self):\n        pass\n";
    let facts = facts_for("python", "c.py", src);
    let class = facts.nodes.iter().find(|n| n.label == "C").unwrap();
    let m = facts.nodes.iter().find(|n| n.label == "m()").unwrap();
    assert!(
        facts.contains.iter().any(|e| e.relation == "method"
            && e.source == class.node_id
            && e.target == m.node_id),
        "class → m must be a `method` edge; got {:?}",
        facts.contains
    );
}

#[test]
fn tagged_bodiless_interface_method_is_a_node_with_a_method_edge() {
    let src = "interface Greeter {\n    String greet();\n}\n";
    let facts = facts_for("java", "Greeter.java", src);
    let iface = facts.nodes.iter().find(|n| n.label == "Greeter").unwrap();
    let greet = facts
        .nodes
        .iter()
        .find(|n| n.label == "greet()")
        .expect("bodiless interface method must produce a node");
    assert_eq!(greet.start_line, 2);
    assert!(
        facts.contains.iter().any(|e| e.relation == "method"
            && e.source == iface.node_id
            && e.target == greet.node_id),
        "Greeter → greet must be a `method` edge; got {:?}",
        facts.contains
    );
}

#[test]
fn tagged_bodiless_interface_method_is_not_a_call_target() {
    let src = "interface Greeter {\n    String greet();\n}\n";
    let facts = facts_for("java", "Greeter.java", src);
    assert!(
        facts.callables.is_empty(),
        "a bodiless interface method must not be a call target; got {:?}",
        facts.callables
    );
}

#[test]
fn tagged_bodied_method_next_to_its_interface_declaration_is_still_the_only_call_target() {
    let src = "\
interface Greeter {
String greet();
}

class EnglishGreeter implements Greeter {
public String greet() { return \"hello\"; }
}
";
    let facts = facts_for("java", "Greeter.java", src);
    assert_eq!(
        facts.callables.len(),
        1,
        "exactly one call target (the impl) must survive; got {:?}",
        facts.callables
    );
    let surviving_line = facts
        .nodes
        .iter()
        .find(|n| n.node_id == facts.callables[0].node_id)
        .expect("callable node id must match an emitted node")
        .start_line;
    let impl_method_line = facts
        .nodes
        .iter()
        .filter(|n| n.label == "greet()")
        .map(|n| n.start_line)
        .max()
        .expect("both declaration and impl must be nodes");
    assert_eq!(
        surviving_line, impl_method_line,
        "the surviving call target must be the later-declared impl, not the interface \
         declaration; got {:?}",
        facts.callables
    );
    assert_eq!(
        facts.nodes.iter().filter(|n| n.label == "greet()").count(),
        2,
        "declaration and implementation must BOTH be nodes; got {:?}",
        facts.nodes
    );
}

#[test]
fn tagged_bodied_method_is_still_a_call_target() {
    let src = "class C {\n    void m() {}\n}\n";
    let facts = facts_for("java", "C.java", src);
    assert_eq!(
        facts.callables.len(),
        1,
        "a bodied method must still be a call target; got {:?}",
        facts.callables
    );
    assert_eq!(facts.callables[0].name, "m");
}

#[test]
fn def_line_numbers_are_one_based() {
    let facts = facts_for("rust", "src/m.rs", "\n\nfn add() {}\n"); // add on source line 3
    let add = facts.nodes.iter().find(|n| n.label == "add()").unwrap();
    assert_eq!(add.start_line, 3);
}

#[test]
fn callable_labels_carry_a_parens_suffix_but_non_callables_dont() {
    let facts = facts_for("rust", "src/m.rs", "struct S;\nfn f() {}\n");
    assert!(facts.nodes.iter().any(|n| n.label == "f()"));
    assert!(
        facts.nodes.iter().any(|n| n.label == "S"),
        "non-callable def has no parens; nodes = {:?}",
        facts.nodes
    );
}

#[test]
fn file_label_strips_leading_directories() {
    assert_eq!(file_label("src/lib/math.rs"), "math.rs");
}

#[test]
fn file_label_of_a_bare_filename_is_itself() {
    assert_eq!(file_label("math.rs"), "math.rs");
}

#[test]
fn is_type_container_true_only_for_type_kinds() {
    for kind in ["impl", "trait", "struct", "enum", "class", "interface"] {
        assert!(is_type_container(Some(kind)), "{kind} is a type container");
    }
    assert!(!is_type_container(Some("function")));
    assert!(!is_type_container(Some("module")));
    assert!(!is_type_container(None));
}

#[test]
fn new_accepts_both_an_owned_vec_and_a_borrowed_slice() {
    let owned = RawInput::new("a.rs", b"fn a() {}\n".to_vec());
    assert_eq!(owned.content.as_ref(), b"fn a() {}\n");

    let borrowed_bytes: &[u8] = b"fn b() {}\n";
    let borrowed = RawInput::new("b.rs", borrowed_bytes);
    assert_eq!(borrowed.content.as_ref(), b"fn b() {}\n");
}

#[test]
fn text_borrows_the_str_bytes_rather_than_copying_them() {
    let text = "fn a() {}\n";
    let input = RawInput::text("a.rs", text);
    assert!(matches!(input.content, Cow::Borrowed(_)));
    assert_eq!(input.content.as_ref(), text.as_bytes());
}

#[test]
fn with_language_sets_an_explicit_override() {
    let input = RawInput::text("buffer", "fn a() {}\n").with_language("rust");
    assert_eq!(input.language.as_deref(), Some("rust"));
}

#[test]
fn indexer_push_and_finish_over_in_memory_sources_produces_a_cross_file_calls_edge() {
    let mut indexer = Indexer::new(IndexOptions::builder().build_graph(true).build(), Kit);
    indexer.push(RawInput::text("src/a.rs", "fn caller() { target(); }\n"));
    indexer.push(RawInput::text("src/b.rs", "fn target() {}\n"));
    let out = indexer.finish();

    assert!(
        out.graph.edges.iter().any(|e| e.relation == "calls"),
        "expected a cross-file calls edge, edges = {:?}",
        out.graph.edges
    );
    assert_eq!(out.stats.files_chunked, 2);
}

#[test]
fn language_override_on_an_extensionless_path_is_chunked_and_graphed() {
    let mut indexer = Indexer::new(IndexOptions::builder().build_graph(true).build(), Kit);
    indexer.push(RawInput::text("buffer-1", "fn a() {}\n").with_language("rust"));
    let out = indexer.finish();

    assert_eq!(out.stats.files_chunked, 1);
    assert_eq!(out.stats.files_skipped_unsupported, 0);
    assert!(
        out.graph.nodes.iter().any(|n| n.label == "a()"),
        "expected the override language to drive graph extraction: {:?}",
        out.graph.nodes
    );
}

#[test]
fn same_extensionless_input_without_override_is_skipped_as_unsupported() {
    let mut indexer = Indexer::new(IndexOptions::builder().build_graph(true).build(), Kit);
    indexer.push(RawInput::text("buffer-1", "fn a() {}\n"));
    let out = indexer.finish();

    assert_eq!(out.stats.files_skipped_unsupported, 1);
    assert_eq!(out.stats.files_chunked, 0);
    assert!(out.graph.nodes.is_empty());
}

#[test]
fn files_skipped_unsupported_counts_an_unclassifiable_path() {
    let mut indexer = Indexer::new(IndexOptions::builder().build(), Kit);
    indexer.push(RawInput::text("no-extension-at-all", "just some text\n"));
    let stats = indexer.finish().stats;

    assert_eq!(stats.files_skipped_unsupported, 1);
    assert_eq!(stats.files_skipped_binary, 0);
    assert_eq!(stats.files_skipped_too_large, 0);
    assert_eq!(stats.files_chunked, 0);
}

#[test]
fn files_skipped_too_large_counts_content_over_the_chunk_byte_cap() {
    let mut indexer = Indexer::new(IndexOptions::builder().build(), Kit);
    let oversized = vec![b'a'; MAX_FILE_BYTES + 1];
    indexer.push(RawInput::new("src/big.rs", oversized));
    let stats = indexer.finish().stats;

    assert_eq!(stats.files_skipped_too_large, 1);
    assert_eq!(stats.files_skipped_binary, 0);
    assert_eq!(stats.files_skipped_unsupported, 0);
    assert_eq!(stats.files_chunked, 0);
}

#[test]
fn files_skipped_binary_counts_content_that_does_not_decode_as_utf8() {
    let mut indexer = Indexer::new(IndexOptions::builder().build(), Kit);
    indexer.push(RawInput::new(
        "src/bad.rs",
        vec![0x66, 0x6e, 0xff, 0xfe, 0x00, 0x62],
    ));
    let stats = indexer.finish().stats;

    assert_eq!(stats.files_skipped_binary, 1);
    assert_eq!(stats.files_skipped_too_large, 0);
    assert_eq!(stats.files_skipped_unsupported, 0);
    assert_eq!(stats.files_chunked, 0);
}

#[test]
fn files_skipped_binary_counts_valid_utf8_content_that_carries_a_nul_byte() {
    let mut indexer = Indexer::new(IndexOptions::builder().build(), Kit);
    let mut body = vec![0u8, 0u8, 0u8];
    body.extend_from_slice(b"fn a() {}\n");
    indexer.push(RawInput::new("src/nul.rs", body));
    let stats = indexer.finish().stats;

    assert_eq!(stats.files_skipped_binary, 1);
    assert_eq!(stats.files_skipped_too_large, 0);
    assert_eq!(stats.files_skipped_unsupported, 0);
    assert_eq!(stats.files_chunked, 0);
}

#[test]
fn record_pruned_accumulates_into_paths_ignored() {
    let mut indexer = Indexer::new(IndexOptions::builder().build(), Kit);
    indexer.record_pruned(3);
    indexer.record_pruned(2);
    let stats = indexer.finish().stats;

    assert_eq!(stats.paths_ignored, 5);
}

#[test]
fn extract_pdfs_false_skips_a_pdf_input_with_no_counter_movement_at_all() {
    let mut indexer = Indexer::new(IndexOptions::builder().extract_pdfs(false).build(), Kit);
    indexer.push(RawInput::text(
        "docs/manual.pdf",
        "not actually parsed when extraction is off",
    ));
    let stats = indexer.finish().stats;

    assert_eq!(stats.pdfs_extracted, 0);
    assert_eq!(stats.pdfs_skipped, 0);
    assert_eq!(stats.files_skipped_unsupported, 0);
    assert_eq!(stats.files_skipped_binary, 0);
    assert_eq!(stats.files_skipped_too_large, 0);
    assert_eq!(stats.files_chunked, 0);
}

#[test]
fn extract_pdfs_true_counts_garbage_bytes_at_a_pdf_path_as_pdfs_skipped() {
    let mut indexer = Indexer::new(IndexOptions::builder().extract_pdfs(true).build(), Kit);
    indexer.push(RawInput::text(
        "docs/manual.pdf",
        "this is definitely not a pdf",
    ));
    let stats = indexer.finish().stats;

    assert_eq!(stats.pdfs_skipped, 1);
    assert_eq!(stats.pdfs_extracted, 0);
}

#[test]
fn content_over_the_pdf_byte_cap_lands_in_pdfs_skipped() {
    let mut indexer = Indexer::new(IndexOptions::builder().extract_pdfs(true).build(), Kit);
    let oversized = vec![b'a'; MAX_PDF_BYTES + 1];
    indexer.push(RawInput::new("docs/huge.pdf", oversized));
    let stats = indexer.finish().stats;

    assert_eq!(stats.pdfs_skipped, 1);
    assert_eq!(stats.pdfs_extracted, 0);
}

#[test]
fn a_genuinely_valid_pdf_input_is_extracted_and_chunked() {
    let pdf = minimal_pdf_with_text("Hello LCI");
    let mut indexer = Indexer::new(IndexOptions::builder().extract_pdfs(true).build(), Kit);
    indexer.push(RawInput::new("docs/manual.pdf", pdf));
    let out = indexer.finish();

    assert_eq!(out.stats.pdfs_extracted, 1);
    assert_eq!(out.stats.pdfs_skipped, 0);
    let chunk = out
        .chunks
        .iter()
        .find(|c| c.file_path == "docs/manual.pdf")
        .expect("pdf produced at least one chunk");
    assert!(
        chunk.content.contains("Hello LCI"),
        "extracted text made it into the chunk content: {:?}",
        chunk.content
    );
}

fn minimal_pdf_with_text(text: &str) -> Vec<u8> {
    format!("%PDF-1.5\nBT /F1 24 Tf 20 100 Td ({text}) Tj ET\n%%EOF\n").into_bytes()
}

#[test]
fn build_graph_false_yields_chunks_but_an_empty_graph() {
    let mut indexer = Indexer::new(IndexOptions::builder().build_graph(false).build(), Kit);
    indexer.push(RawInput::text("src/a.rs", "fn caller() { target(); }\n"));
    indexer.push(RawInput::text("src/b.rs", "fn target() {}\n"));
    let out = indexer.finish();

    assert!(!out.chunks.is_empty(), "chunks are still produced");
    assert!(out.graph.nodes.is_empty(), "graph off ⇒ no nodes");
    assert!(out.graph.edges.is_empty(), "graph off ⇒ no edges");
}

#[test]
fn index_inputs_over_an_iterator_matches_driving_the_indexer_manually() {
    let sources = vec![
        RawInput::text("src/a.rs", "fn caller() { target(); }\n"),
        RawInput::text("src/b.rs", "fn target() {}\n"),
    ];
    let options = IndexOptions::builder().build_graph(true).build();

    let via_helper = index_inputs(sources.clone(), &options, Kit);

    let mut indexer = Indexer::new(options, Kit);
    for input in sources {
        indexer.push(input);
    }
    let via_manual = indexer.finish();

    assert_eq!(via_helper.graph, via_manual.graph);
    assert_eq!(via_helper.chunks, via_manual.chunks);
    assert_eq!(
        via_helper.stats.files_chunked,
        via_manual.stats.files_chunked
    );
}

#[test]
fn windows_style_separators_in_the_path_are_normalised_to_forward_slashes() {
    let mut indexer = Indexer::new(IndexOptions::builder().build(), Kit);
    indexer.push(RawInput::text(r"src\nested\a.rs", "fn a() {}\n"));
    let out = indexer.finish();

    let chunk = out.chunks.first().expect("one chunk produced");
    assert_eq!(chunk.file_path, "src/nested/a.rs");
}

#[test]
fn content_exactly_at_the_chunk_byte_cap_is_indexed_not_skipped() {
    let mut indexer = Indexer::new(IndexOptions::builder().build(), Kit);
    let exact = vec![b'a'; MAX_FILE_BYTES];
    indexer.push(RawInput::new("src/boundary.rs", exact));
    let stats = indexer.finish().stats;

    assert_eq!(stats.files_chunked, 1);
    assert_eq!(stats.files_skipped_too_large, 0);
}

#[test]
fn max_input_bytes_is_the_larger_of_the_two_per_kind_caps() {
    assert_eq!(
        MAX_INPUT_BYTES,
        MAX_FILE_BYTES.max(MAX_PDF_BYTES)
    );
}

#[test]
fn an_oversized_pdf_is_rejected_by_the_pdf_branchs_own_cap_never_by_the_source_cap() {
    let mut indexer = Indexer::new(IndexOptions::builder().extract_pdfs(true).build(), Kit);
    let oversized = vec![b'a'; MAX_PDF_BYTES + 1];
    indexer.push(RawInput::new("docs/huge.pdf", oversized));
    let stats = indexer.finish().stats;

    assert_eq!(stats.pdfs_skipped, 1);
    assert_eq!(stats.pdfs_extracted, 0);
    assert_eq!(
        stats.files_skipped_too_large, 0,
        "a PDF must never be counted against the source-text byte cap"
    );
}

#[test]
fn an_indexer_with_nothing_pushed_yields_all_zero_output() {
    let indexer = Indexer::new(IndexOptions::builder().build_graph(true).build(), Kit);
    let out = indexer.finish();

    assert!(out.chunks.is_empty());
    assert!(out.graph.nodes.is_empty());
    assert!(out.graph.edges.is_empty());
    assert_eq!(out.stats.files_chunked, 0);
    assert_eq!(out.stats.paths_ignored, 0);
    assert_eq!(out.stats.pdfs_extracted, 0);
    assert_eq!(out.stats.pdfs_skipped, 0);
    assert_eq!(out.stats.files_skipped_binary, 0);
    assert_eq!(out.stats.files_skipped_too_large, 0);
    assert_eq!(out.stats.files_skipped_unsupported, 0);
}

#[test]
fn index_inputs_over_an_empty_iterator_yields_all_zero_output() {
    let out = index_inputs(
        Vec::<RawInput<'_>>::new(),
        &IndexOptions::builder().build_graph(true).build(),
        Kit,
    );

    assert!(out.chunks.is_empty());
    assert!(out.graph.nodes.is_empty());
    assert!(out.graph.edges.is_empty());
    assert_eq!(out.stats.files_chunked, 0);
}

#[test]
fn a_language_override_naming_an_unknown_grammar_falls_through_to_windowed_chunking() {
    let mut indexer = Indexer::new(IndexOptions::builder().build_graph(true).build(), Kit);
    indexer.push(RawInput::text("weird.xyz", "fn a() {}\n").with_language("klingon"));
    let out = indexer.finish();

    assert_eq!(out.stats.files_chunked, 1);
    assert_eq!(out.stats.files_skipped_unsupported, 0);
    let chunk = out
        .chunks
        .first()
        .expect("the windowed fallback still produces a chunk");
    assert_eq!(chunk.language, "klingon");
    assert_eq!(chunk.chunk_type, "window");
    assert!(
        out.graph.nodes.is_empty(),
        "an unknown-grammar override must never reach the graph builder: {:?}",
        out.graph.nodes
    );
}

#[test]
fn a_language_override_that_contradicts_the_path_extension_wins_over_detection() {
    let mut indexer = Indexer::new(IndexOptions::builder().build_graph(true).build(), Kit);
    indexer.push(RawInput::text("mod.py", "fn a() {}\n").with_language("rust"));
    let out = indexer.finish();

    let chunk = out.chunks.first().expect("one chunk produced");
    assert_eq!(chunk.language, "rust");
    assert_eq!(
        chunk.chunk_type, "function",
        "parsed structurally by the rust grammar, not windowed as unrecognised python"
    );
    assert!(
        out.graph.nodes.iter().any(|n| n.label == "a()"),
        "the rust extractor ran on this content: {:?}",
        out.graph.nodes
    );
}

#[test]
fn uppercase_pdf_extension_still_routes_to_the_pdf_branch() {
    let mut indexer = Indexer::new(IndexOptions::builder().extract_pdfs(true).build(), Kit);
    indexer.push(RawInput::text("DOC.PDF", "not a real pdf"));
    let stats = indexer.finish().stats;

    assert_eq!(stats.pdfs_skipped, 1);
    assert_eq!(stats.files_skipped_unsupported, 0);
    assert_eq!(stats.files_skipped_binary, 0);
}

#[test]
fn pushing_the_same_path_twice_with_identical_content_duplicates_chunks_but_not_graph_nodes() {
    let body = "fn caller() { target(); }\nfn target() {}\n";
    let mut indexer = Indexer::new(IndexOptions::builder().build_graph(true).build(), Kit);
    indexer.push(RawInput::text("src/a.rs", body));
    indexer.push(RawInput::text("src/a.rs", body));
    let out = indexer.finish();

    assert_eq!(
        out.chunks.len(),
        4,
        "2 symbols x 2 pushes, NOT deduped: {:?}",
        out.chunks
    );
    assert_eq!(
        out.stats.files_chunked, 2,
        "the counter increments once per push, not once per unique path"
    );
    assert_eq!(
        out.graph.nodes.len(),
        3,
        "the file node + caller() + target(), deduped despite two pushes: {:?}",
        out.graph.nodes
    );
    assert_eq!(
        out.graph.edges.len(),
        3,
        "2 contains edges + the 1 calls edge, deduped: {:?}",
        out.graph.edges
    );
}

#[test]
fn pushing_the_same_path_twice_with_different_content_keeps_both_definitions_in_the_graph() {
    let mut indexer = Indexer::new(IndexOptions::builder().build_graph(true).build(), Kit);
    indexer.push(RawInput::text("src/b.rs", "fn one() {}\n"));
    indexer.push(RawInput::text("src/b.rs", "fn two() {}\n"));
    let out = indexer.finish();

    assert_eq!(out.chunks.len(), 2);
    assert_eq!(
        out.graph
            .nodes
            .iter()
            .filter(|n| n.source_file == "src/b.rs")
            .count(),
        3,
        "the file node + BOTH one() and two(), even though they share a path: {:?}",
        out.graph.nodes
    );
    assert!(out.graph.nodes.iter().any(|n| n.label == "one()"));
    assert!(out.graph.nodes.iter().any(|n| n.label == "two()"));
}

struct OddKit {
    tree_of: Option<&'static str>,
    pdf: fn() -> PdfOutcome,
}

impl Toolkit for OddKit {
    type Tuning = Tuning;
    type Chunk = Piece;

    fn from_path(&self, path: &str) -> Option<String> {
        Kit.from_path(path)
    }

    fn has_graph(&self, language: &str) -> bool {
        Kit.has_graph(language)
    }

    fn graph_strategy(&self, language: &str) -> Option<GraphStrategy> {
        Kit.graph_strategy(language)
    }

    fn parse(&self, _source: &str, language: &str) -> Option<Tree> {
        self.tree_of.and_then(|text| Kit.parse(text, language))
    }

    fn definitions(&self, tree: &Tree, source: &str) -> HashMap<usize, Definition> {
        Kit.definitions(tree, source)
    }

    fn tags(&self, _language: &str, _tree: &Tree, _source: &str) -> Option<TaggedSymbols> {
        None
    }

    fn extract_pdf(&self, _content: &[u8]) -> PdfOutcome {
        (self.pdf)()
    }

    fn chunk_text(&self, path: &str, text: &str, language: &str, tuning: Tuning) -> Vec<Piece> {
        Kit.chunk_text(path, text, language, tuning)
    }

    fn chunk_tree(
        &self,
        _tree: &Tree,
        _path: &str,
        _source: &str,
        _language: &str,
        _tuning: Tuning,
    ) -> Vec<Piece> {
        Vec::new()
    }

    fn chunk_file(&self, path: &str, source: &str, language: &str, _tuning: Tuning) -> Vec<Piece> {
        vec![Piece {
            file_path: path.to_string(),
            content: source.to_string(),
            language: language.to_string(),
            chunk_type: "file".to_string(),
        }]
    }
}

fn odd(tree_of: Option<&'static str>) -> OddKit {
    OddKit {
        tree_of,
        pdf: || PdfOutcome::TooLarge,
    }
}

#[test]
fn a_source_that_does_not_parse_is_chunked_as_a_file_and_brings_no_symbols() {
    let mut indexer = Indexer::new(IndexOptions::builder().build_graph(true).build(), odd(None));
    indexer.push(RawInput::text("a.rs", "fn a() {}\n"));
    let out = indexer.finish();
    assert_eq!(out.chunks[0].chunk_type, "file");
    assert!(out.graph.nodes.is_empty());
    assert_eq!(out.stats.files_chunked, 1);
}

#[test]
fn a_tree_that_covers_bytes_outside_the_source_is_not_used() {
    let kit = odd(Some("fn a_much_longer_name_than_the_source() {}\n"));
    let mut indexer = Indexer::new(IndexOptions::builder().build_graph(true).build(), kit);
    indexer.push(RawInput::text("a.rs", "fn a() {}\n"));
    let out = indexer.finish();
    assert_eq!(out.chunks[0].chunk_type, "file");
    assert!(out.graph.nodes.is_empty());
}

#[test]
fn a_parsed_source_without_structural_chunks_is_chunked_as_text() {
    let kit = odd(Some("fn a() {}\n"));
    let mut indexer = Indexer::new(IndexOptions::builder().build_graph(true).build(), kit);
    indexer.push(RawInput::text("a.rs", "fn a() {}\n"));
    let out = indexer.finish();
    assert_eq!(out.chunks.len(), 1);
    assert_eq!(out.chunks[0].chunk_type, "window");
    assert_eq!(out.graph.nodes.len(), 2);
}

#[test]
fn a_language_that_cannot_be_tagged_has_no_symbols_at_all() {
    let kit = odd(Some("def a():\n    pass\n"));
    let mut indexer = Indexer::new(IndexOptions::builder().build_graph(true).build(), kit);
    indexer.push(RawInput::text("a.py", "def a():\n    pass\n"));
    let out = indexer.finish();
    assert!(out.graph.nodes.is_empty());
    assert_eq!(out.stats.files_chunked, 1);
}

#[test]
fn a_pdf_that_the_reader_finds_too_large_is_skipped() {
    let mut indexer = Indexer::new(IndexOptions::builder().build(), odd(None));
    indexer.push(RawInput::text("a.pdf", "%PDF"));
    let stats = indexer.finish().stats;
    assert_eq!((stats.pdfs_skipped, stats.pdfs_extracted), (1, 0));
}

#[test]
fn a_pdf_without_text_is_extracted_but_not_chunked() {
    let kit = OddKit {
        tree_of: None,
        pdf: || PdfOutcome::Text(String::new()),
    };
    let mut indexer = Indexer::new(IndexOptions::builder().build(), kit);
    indexer.push(RawInput::text("a.pdf", "%PDF"));
    let out = indexer.finish();
    assert_eq!((out.stats.pdfs_extracted, out.stats.files_chunked), (1, 0));
    assert!(out.chunks.is_empty());
}

#[test]
fn an_input_without_chunks_does_not_count_as_chunked() {
    let mut indexer = Indexer::new(IndexOptions::builder().build(), Kit);
    indexer.push(RawInput::text("empty.py", ""));
    let stats = indexer.finish().stats;
    assert_eq!(stats.files_chunked, 0);
    assert_eq!(stats.files_skipped_unsupported, 0);
}

#[test]
fn each_skipped_input_moves_one_counter_by_one() {
    let mut indexer = Indexer::new(IndexOptions::builder().build(), Kit);
    indexer.push(RawInput::text("unknown", "x"));
    indexer.push(RawInput::new("b.rs", vec![0xff]));
    indexer.push(RawInput::new("c.rs", vec![b'a'; MAX_FILE_BYTES + 1]));
    indexer.push(RawInput::text("d.pdf", "no"));
    let stats = indexer.finish().stats;
    assert_eq!(
        (
            stats.files_skipped_unsupported,
            stats.files_skipped_binary,
            stats.files_skipped_too_large,
            stats.pdfs_skipped,
            stats.files_chunked
        ),
        (1, 1, 1, 1, 0)
    );
}

#[test]
fn a_spring_source_brings_its_routes_into_the_graph() {
    let source = "import org.springframework.web.bind.annotation.*;\n@RestController\nclass C {\n    @GetMapping(\"/x\")\n    void m() {}\n}\n";
    let options = IndexOptions::builder().build_graph(true).build();
    let out = index_inputs(vec![RawInput::text(r"web\C.java", source)], &options, Kit);
    assert!(out.graph.nodes.iter().any(|n| n.node_id == "route:GET:/x"));
    assert!(out
        .graph
        .edges
        .iter()
        .any(|e| e.source == "route:GET:/x" && e.target == "web/C.java#4:m" && e.relation == "calls"));
    assert!(out.graph.nodes.iter().any(|n| n.node_id == "web/C.java#4:m" && n.label == "m()"));
}

#[test]
fn a_repository_method_is_a_call_target_across_files() {
    let repository = "import org.springframework.data.jpa.repository.JpaRepository;\ninterface Accounts extends JpaRepository<Account, Long> {\n    Account findByEmail(String email);\n}\n";
    let service = "class Service {\n    Accounts accounts;\n    Account find(String e) { return accounts.findByEmail(e); }\n}\n";
    let options = IndexOptions::builder().build_graph(true).build();
    let out = index_inputs(
        vec![
            RawInput::text("Accounts.java", repository),
            RawInput::text("Service.java", service),
        ],
        &options,
        Kit,
    );
    assert!(out.graph.edges.iter().any(|e| e.relation == "calls"
        && e.source == "Service.java#3:find"
        && e.target == "Accounts.java#3:findByEmail"));
}

#[test]
fn a_call_to_a_feign_client_leads_to_the_service() {
    let client = "import org.springframework.cloud.openfeign.FeignClient;\n@FeignClient(\"pay\")\ninterface PayClient {\n    void charge(int n);\n}\n";
    let service = "class Service {\n    void run(PayClient c) { c.charge(1); }\n}\n";
    let options = IndexOptions::builder().build_graph(true).build();
    let out = index_inputs(
        vec![
            RawInput::text("PayClient.java", client),
            RawInput::text("Service.java", service),
        ],
        &options,
        Kit,
    );
    assert!(out.graph.edges.iter().any(|e| e.relation == "calls"
        && e.source == "Service.java#2:run"
        && e.target == "service:pay"));
}

#[test]
fn no_edge_of_a_spring_graph_has_a_loose_end() {
    let controller = "import org.springframework.web.bind.annotation.*;\n@RestController\n@RequestMapping(\"/a\")\nclass C {\n    PayClient pay;\n    Accounts accounts;\n    @GetMapping({\"/x\", \"/y\"})\n    void m() { pay.charge(1); accounts.findAll(); }\n}\n";
    let client = "import org.springframework.cloud.openfeign.FeignClient;\n@FeignClient(name = \"pay\")\ninterface PayClient {\n    void charge(int n);\n}\n";
    let repository = "import org.springframework.data.repository.CrudRepository;\ninterface Accounts extends CrudRepository<A, B> {\n    Object findAll();\n}\n";
    let options = IndexOptions::builder().build_graph(true).build();
    let out = index_inputs(
        vec![
            RawInput::text("C.java", controller),
            RawInput::text("PayClient.java", client),
            RawInput::text("Accounts.java", repository),
        ],
        &options,
        Kit,
    );
    let calls: Vec<(&str, &str)> = out
        .graph
        .edges
        .iter()
        .filter(|e| e.relation == "calls")
        .map(|e| (e.source.as_str(), e.target.as_str()))
        .collect();
    assert_eq!(
        calls,
        vec![
            ("C.java#7:m", "Accounts.java#3:findAll"),
            ("C.java#7:m", "service:pay"),
            ("route:GET:/a/x", "C.java#7:m"),
            ("route:GET:/a/y", "C.java#7:m"),
        ]
    );
    for e in &out.graph.edges {
        assert!(out.graph.nodes.iter().any(|n| n.node_id == e.source), "{e:?}");
        assert!(out.graph.nodes.iter().any(|n| n.node_id == e.target), "{e:?}");
    }
}

#[test]
fn indexing_joined_lists_joins_chunks_and_sums_counters() {
    let first = || {
        vec![
            RawInput::text("a.rs", "fn a() {}\nfn b() {}\n"),
            RawInput::text("unknown", "x"),
        ]
    };
    let second = || {
        vec![
            RawInput::text("c.py", "def c():\n    pass\n"),
            RawInput::new("d.rs", vec![0xff]),
            RawInput::text("e.pdf", "no"),
        ]
    };
    let options = IndexOptions::builder().build_graph(true).build();
    let a = index_inputs(first(), &options, Kit);
    let b = index_inputs(second(), &options, Kit);
    let both = index_inputs(first().into_iter().chain(second()).collect(), &options, Kit);
    let mut chunks = a.chunks.clone();
    chunks.extend(b.chunks.clone());
    assert_eq!(both.chunks, chunks);
    assert_eq!(both.chunks.len(), 3);
    assert_eq!(both.stats.files_chunked, a.stats.files_chunked + b.stats.files_chunked);
    assert_eq!(both.stats.files_chunked, 2);
    assert_eq!((both.stats.files_skipped_unsupported, a.stats.files_skipped_unsupported), (1, 1));
    assert_eq!((both.stats.files_skipped_binary, b.stats.files_skipped_binary), (1, 1));
    assert_eq!((both.stats.pdfs_skipped, b.stats.pdfs_skipped), (1, 1));
}

#[test]
fn outcomes_tell_why_an_input_is_skipped() {
    let indexer = Indexer::new(IndexOptions::builder().build(), Kit);
    let of = |input: RawInput<'_>| indexer.outcome_of(&input);
    assert!(matches!(of(RawInput::text("unknown", "x")), Outcome::Unsupported));
    assert!(matches!(of(RawInput::new("a.rs", vec![0xff])), Outcome::NotUtf8));
    assert!(matches!(of(RawInput::new("a.rs", vec![0])), Outcome::Binary));
    assert!(matches!(of(RawInput::new("a.rs", vec![b'a'; MAX_FILE_BYTES + 1])), Outcome::TooLarge));
    assert!(matches!(of(RawInput::new("a.pdf", vec![b'a'; MAX_PDF_BYTES + 1])), Outcome::PdfTooLarge));
    assert!(matches!(of(RawInput::text("a.pdf", "no")), Outcome::PdfFailed(r) if r == "not a PDF"));
    let silent = Indexer::new(IndexOptions::builder().extract_pdfs(false).build(), Kit);
    assert!(matches!(silent.outcome_of(&RawInput::text("a.pdf", "no")), Outcome::Ignored));
}

#[test]
fn a_finished_run_counts_what_its_resolution_dropped() {
    let options = IndexOptions::builder().build_graph(true).build();
    let mut indexer = Indexer::new(options, Kit);
    indexer.push(RawInput::text("a.rs", "fn run() { dup(); gone(); }\n"));
    indexer.push(RawInput::text("b.rs", "fn dup() {}\n"));
    indexer.push(RawInput::text("c.rs", "fn dup() {}\n"));
    let (out, counts) = indexer.finish_counted();
    let counts = counts.expect("a graph is built");
    assert_eq!((counts.ambiguous_calls, counts.unresolved_calls), (1, 1));
    assert!(!out.graph.edges.iter().any(|e| e.relation == "calls"));

    let mut indexer = Indexer::new(IndexOptions::builder().build(), Kit);
    indexer.push(RawInput::text("a.rs", "fn run() { gone(); }\n"));
    let (_, counts) = indexer.finish_counted();
    assert_eq!(counts, None);
}
