use lci_codegraph::model::FrameworkFacts;
use lci_codegraph::spring::annotation::{
    annotations_of, bare_string_values, named_identifier_tail, named_string_values, Annotation,
};
use lci_codegraph::spring::java_type::{extends_interfaces_names, simple_type_name};
use lci_codegraph::spring::route::compose_path;
use lci_codegraph::spring::{extract_facts, feign, repository, route};
use lci_codegraph::syntax::SyntaxTree;
use tree_sitter::{Parser, Tree};

const REPOSITORY_MARKERS: [&str; 13] = [
    "Repository",
    "CrudRepository",
    "ListCrudRepository",
    "PagingAndSortingRepository",
    "ListPagingAndSortingRepository",
    "JpaRepository",
    "ReactiveCrudRepository",
    "ReactiveSortingRepository",
    "RxJava3CrudRepository",
    "MongoRepository",
    "R2dbcRepository",
    "CassandraRepository",
    "ElasticsearchRepository",
];

fn parse(source: &str) -> Tree {
    let mut parser = Parser::new();
    parser
        .set_language(&tree_sitter_java::LANGUAGE.into())
        .expect("java grammar loads");
    parser.parse(source, None).expect("source parses")
}

fn syntax<'a>(tree: &'a Tree, source: &'a str) -> SyntaxTree<'a> {
    SyntaxTree::new(tree, source.as_bytes()).expect("the tree fits its source")
}

fn find_first(tree: &SyntaxTree<'_>, kind: &str) -> Option<usize> {
    (0..tree.len()).find(|&i| tree.is_kind(i, kind))
}

fn with_method_annotation<R>(src: &str, f: impl FnOnce(&Annotation, &SyntaxTree<'_>) -> R) -> R {
    let parsed = parse(src);
    let tree = syntax(&parsed, src);
    let method = find_first(&tree, "method_declaration").expect("method declaration present");
    let annotations = annotations_of(&tree, method);
    assert_eq!(
        annotations.len(),
        1,
        "expected exactly one annotation in {src:?}"
    );
    f(&annotations[0], &tree)
}

fn facts_of_first_declaration(
    source: &str,
    source_file: &str,
    extract: fn(&SyntaxTree<'_>, usize, &str, &mut FrameworkFacts),
) -> FrameworkFacts {
    let parsed = parse(source);
    let tree = syntax(&parsed, source);
    let declaration = tree.named_children(0)[0];
    let mut facts = FrameworkFacts::default();
    extract(&tree, declaration, source_file, &mut facts);
    facts
}

fn route_facts(source: &str, source_file: &str) -> FrameworkFacts {
    facts_of_first_declaration(source, source_file, route::extract)
}

fn feign_facts(source: &str, source_file: &str) -> FrameworkFacts {
    facts_of_first_declaration(source, source_file, feign::extract)
}

fn repository_facts(source: &str, source_file: &str) -> FrameworkFacts {
    facts_of_first_declaration(source, source_file, repository::extract)
}

#[test]
fn marker_annotation_has_no_arguments() {
    with_method_annotation("class C { @PostMapping void m() {} }", |a, tree| {
        assert_eq!(a.name, "PostMapping");
        assert!(bare_string_values(tree, a.arguments).is_empty());
    });
}

#[test]
fn single_bare_string_argument_is_one_value() {
    with_method_annotation(
        r#"class C { @GetMapping("/x") void m() {} }"#,
        |a, tree| {
            assert_eq!(bare_string_values(tree, a.arguments), vec!["/x"]);
        },
    );
}

#[test]
fn array_argument_is_every_value_in_order() {
    with_method_annotation(
        r#"class C { @GetMapping({"/a", "/b"}) void m() {} }"#,
        |a, tree| {
            assert_eq!(bare_string_values(tree, a.arguments), vec!["/a", "/b"]);
        },
    );
}

#[test]
fn named_value_argument_is_found_by_key() {
    with_method_annotation(
        r#"class C { @RequestMapping(value = "/x") void m() {} }"#,
        |a, tree| {
            assert_eq!(
                named_string_values(tree, a.arguments, &["value", "path"]),
                vec!["/x"]
            );
            assert!(bare_string_values(tree, a.arguments).is_empty());
        },
    );
}

#[test]
fn named_path_argument_is_found_by_key() {
    with_method_annotation(
        r#"class C { @RequestMapping(path = "/y") void m() {} }"#,
        |a, tree| {
            assert_eq!(
                named_string_values(tree, a.arguments, &["value", "path"]),
                vec!["/y"]
            );
        },
    );
}

#[test]
fn named_identifier_tail_recovers_an_enum_constants_simple_name() {
    with_method_annotation(
        "class C { @RequestMapping(method = RequestMethod.PUT) void m() {} }",
        |a, tree| {
            assert_eq!(
                named_identifier_tail(tree, a.arguments, "method").as_deref(),
                Some("PUT")
            );
        },
    );
}

#[test]
fn bare_request_mapping_with_no_arguments_has_no_method_and_no_path() {
    with_method_annotation("class C { @RequestMapping void m() {} }", |a, tree| {
        assert!(a.arguments.is_none());
        assert!(named_identifier_tail(tree, a.arguments, "method").is_none());
        assert!(bare_string_values(tree, a.arguments).is_empty());
        assert!(named_string_values(tree, a.arguments, &["value", "path"]).is_empty());
    });
}

#[test]
fn empty_string_literal_argument_is_an_empty_string_not_absent() {
    with_method_annotation(r#"class C { @GetMapping("") void m() {} }"#, |a, tree| {
        assert_eq!(bare_string_values(tree, a.arguments), vec![""]);
    });
}

#[test]
fn annotation_name_resolves_a_fully_qualified_annotation_to_its_simple_tail() {
    with_method_annotation(
        "class C { @org.springframework.web.bind.annotation.PostMapping void m() {} }",
        |a, _tree| {
            assert_eq!(a.name, "PostMapping");
        },
    );
}

#[test]
fn a_declaration_with_no_modifiers_field_has_no_annotations() {
    let src = "class C { void m() {} }";
    let parsed = parse(src);
    let tree = syntax(&parsed, src);
    let method = find_first(&tree, "method_declaration")
        .expect("method declaration present");
    assert!(annotations_of(&tree, method).is_empty());
}

#[test]
fn several_annotations_on_one_declaration_are_all_recovered() {
    let src = "class C { @Deprecated @GetMapping(\"/x\") void m() {} }";
    let parsed = parse(src);
    let tree = syntax(&parsed, src);
    let method = find_first(&tree, "method_declaration")
        .expect("method declaration present");
    let names: Vec<_> = annotations_of(&tree, method)
        .into_iter()
        .map(|a| a.name)
        .collect();
    assert_eq!(names, vec!["Deprecated", "GetMapping"]);
}

#[test]
fn simple_type_name_strips_generic_type_arguments() {
    let src = "class C { List<Account> items; }";
    let parsed = parse(src);
    let tree = syntax(&parsed, src);
    let ty = find_first(&tree, "generic_type").expect("generic type present");
    assert_eq!(simple_type_name(&tree, ty).as_deref(), Some("List"));
}

#[test]
fn simple_type_name_strips_package_qualification() {
    let src = "class C { com.example.Account acc; }";
    let parsed = parse(src);
    let tree = syntax(&parsed, src);
    let ty =
        find_first(&tree, "scoped_type_identifier").expect("scoped type present");
    assert_eq!(simple_type_name(&tree, ty).as_deref(), Some("Account"));
}

#[test]
fn simple_type_name_strips_array_suffix() {
    let src = "class C { Account[] accs; }";
    let parsed = parse(src);
    let tree = syntax(&parsed, src);
    let ty = find_first(&tree, "array_type").expect("array type present");
    assert_eq!(simple_type_name(&tree, ty).as_deref(), Some("Account"));
}

#[test]
fn extends_interfaces_names_collects_a_generic_marker() {
    let src = "interface AccountRepository extends JpaRepository<Account, Long> {}";
    let parsed = parse(src);
    let tree = syntax(&parsed, src);
    let iface = find_first(&tree, "interface_declaration")
        .expect("interface declaration present");
    assert_eq!(
        extends_interfaces_names(&tree, iface),
        vec!["JpaRepository"]
    );
}

#[test]
fn extends_interfaces_names_collects_several_supertypes() {
    let src = "interface Combined extends Foo, Bar {}";
    let parsed = parse(src);
    let tree = syntax(&parsed, src);
    let iface = find_first(&tree, "interface_declaration")
        .expect("interface declaration present");
    let mut names = extends_interfaces_names(&tree, iface);
    names.sort();
    assert_eq!(names, vec!["Bar", "Foo"]);
}

#[test]
fn extends_interfaces_names_of_an_interface_with_no_extends_clause_is_empty() {
    let src = "interface Plain {}";
    let parsed = parse(src);
    let tree = syntax(&parsed, src);
    let iface = find_first(&tree, "interface_declaration")
        .expect("interface declaration present");
    assert!(extends_interfaces_names(&tree, iface).is_empty());
}

#[test]
fn a_non_spring_java_file_produces_completely_empty_facts() {
    let source = r#"
        package com.example.plain;

        class Greeter {
            String greet(String name) {
                return "hello " + name;
            }
        }
    "#;
    let tree = parse(source);
    let facts = extract_facts(&tree, source, "Greeter.java");
    assert_eq!(facts, FrameworkFacts::default());
}

#[test]
fn a_file_importing_org_springframework_passes_the_gate() {
    let source = r#"
        package com.example.accounts;

        import org.springframework.web.bind.annotation.RestController;

        @RestController
        class AccountController {
            @GetMapping("/x")
            void m() {}
        }
    "#;
    let tree = parse(source);
    let facts = extract_facts(&tree, source, "AccountController.java");
    assert_eq!(facts.nodes.len(), 1);
    assert_eq!(facts.nodes[0].node_id, "route:GET:/x");
}

#[test]
fn a_file_importing_jakarta_persistence_passes_the_gate_even_with_no_spring_import() {
    let source = r#"
        package com.example.accounts;

        import jakarta.persistence.Entity;

        @Entity
        class Account {}
    "#;
    let tree = parse(source);
    let facts = extract_facts(&tree, source, "Account.java");
    assert_eq!(facts, FrameworkFacts::default());
}

#[test]
fn a_non_top_level_import_like_text_does_not_open_the_gate_on_its_own() {
    let source = r#"
        class C {
            String s = "org.springframework is just a string here";
        }
    "#;
    let tree = parse(source);
    let facts = extract_facts(&tree, source, "C.java");
    assert_eq!(facts, FrameworkFacts::default());
}

#[test]
fn a_feign_client_interface_produces_no_route_node() {
    let source = r#"
        package com.example.accounts;

        import org.springframework.cloud.openfeign.FeignClient;
        import org.springframework.web.bind.annotation.PostMapping;

        @FeignClient(name = "payment-service")
        interface PaymentClient {
            @PostMapping("/ledgers")
            void openLedger(String email);
        }
    "#;
    let tree = parse(source);
    let facts = extract_facts(&tree, source, "PaymentClient.java");
    assert!(
        facts.nodes.iter().all(|n| !n.node_id.starts_with("route:")),
        "a FeignClient interface must never produce a route node: {:?}",
        facts.nodes
    );
    assert_eq!(facts.nodes.len(), 1);
    assert_eq!(facts.nodes[0].node_id, "service:payment-service");
}

#[test]
fn nested_class_declarations_are_still_reached_by_the_walk() {
    let source = r#"
        package com.example.accounts;

        import org.springframework.web.bind.annotation.RestController;

        class Outer {
            @RestController
            static class Inner {
                @GetMapping("/x")
                void m() {}
            }
        }
    "#;
    let tree = parse(source);
    let facts = extract_facts(&tree, source, "Outer.java");
    assert_eq!(facts.nodes.len(), 1);
    assert_eq!(facts.nodes[0].node_id, "route:GET:/x");
}

#[test]
fn compose_path_joins_a_prefix_and_a_suffix_with_one_slash() {
    assert_eq!(
        compose_path("/api/accounts", "/{email}"),
        "/api/accounts/{email}"
    );
}

#[test]
fn compose_path_of_an_empty_prefix_and_suffix_is_the_root() {
    assert_eq!(compose_path("", ""), "/");
}

#[test]
fn compose_path_of_a_prefix_alone_has_no_trailing_slash() {
    assert_eq!(compose_path("/api/accounts", ""), "/api/accounts");
}

#[test]
fn compose_path_of_a_suffix_alone_needs_no_prefix() {
    assert_eq!(compose_path("", "/foo"), "/foo");
}

#[test]
fn rest_controller_with_class_and_method_prefix_composes_a_full_route() {
    let src = r#"
        @RestController
        @RequestMapping("/api/accounts")
        class AccountController {
            @GetMapping("/{email}")
            Optional<Account> getAccount(String email) { return null; }
        }
    "#;
    let facts = route_facts(src, "AccountController.java");
    assert_eq!(facts.nodes.len(), 1);
    assert_eq!(facts.nodes[0].node_id, "route:GET:/api/accounts/{email}");
    assert_eq!(facts.nodes[0].label, "GET /api/accounts/{email}");
    assert_eq!(facts.edges.len(), 1);
    assert_eq!(facts.edges[0].source, "route:GET:/api/accounts/{email}");
    assert_eq!(facts.edges[0].relation, "calls");
}

#[test]
fn bare_post_mapping_with_no_path_uses_the_class_prefix_alone() {
    let src = r#"
        @RestController
        @RequestMapping("/api/accounts")
        class AccountController {
            @PostMapping
            Account createAccount(String email) { return null; }
        }
    "#;
    let facts = route_facts(src, "AccountController.java");
    assert_eq!(facts.nodes[0].node_id, "route:POST:/api/accounts");
}

#[test]
fn controller_with_no_class_level_request_mapping_has_an_empty_prefix() {
    let src = r#"
        @RestController
        class Bare {
            @GetMapping("/x")
            void m() {}
        }
    "#;
    let facts = route_facts(src, "Bare.java");
    assert_eq!(facts.nodes[0].node_id, "route:GET:/x");
}

#[test]
fn plain_controller_annotation_also_yields_routes() {
    let src = r#"
        @Controller
        class ViewController {
            @GetMapping("/home")
            void m() {}
        }
    "#;
    let facts = route_facts(src, "ViewController.java");
    assert_eq!(facts.nodes.len(), 1);
}

#[test]
fn value_named_argument_composes_the_same_as_a_bare_string() {
    let src = r#"
        @RestController
        class C {
            @RequestMapping(value = "/x")
            void m() {}
        }
    "#;
    let facts = route_facts(src, "C.java");
    assert_eq!(facts.nodes[0].node_id, "route:ANY:/x");
}

#[test]
fn path_named_argument_composes_the_same_as_a_bare_string() {
    let src = r#"
        @RestController
        class C {
            @RequestMapping(path = "/y")
            void m() {}
        }
    "#;
    let facts = route_facts(src, "C.java");
    assert_eq!(facts.nodes[0].node_id, "route:ANY:/y");
}

#[test]
fn request_mapping_with_an_explicit_method_uses_that_verb() {
    let src = r#"
        @RestController
        class C {
            @RequestMapping(value = "/x", method = RequestMethod.PUT)
            void m() {}
        }
    "#;
    let facts = route_facts(src, "C.java");
    assert_eq!(facts.nodes[0].node_id, "route:PUT:/x");
}

#[test]
fn bare_request_mapping_with_no_method_argument_matches_every_verb() {
    let src = r#"
        @RestController
        @RequestMapping("/x")
        class C {
            @RequestMapping
            void m() {}
        }
    "#;
    let facts = route_facts(src, "C.java");
    assert_eq!(facts.nodes[0].node_id, "route:ANY:/x");
}

#[test]
fn array_argument_produces_one_route_node_per_path() {
    let src = r#"
        @RestController
        class C {
            @GetMapping({"/a", "/b"})
            void m() {}
        }
    "#;
    let facts = route_facts(src, "C.java");
    let ids: Vec<_> = facts.nodes.iter().map(|n| n.node_id.as_str()).collect();
    assert_eq!(ids, vec!["route:GET:/a", "route:GET:/b"]);
    assert_eq!(facts.edges[0].target, facts.edges[1].target);
}

#[test]
fn a_class_with_neither_controller_annotation_yields_no_routes() {
    let src = r#"
        @Service
        class AccountServiceImpl {
            @GetMapping("/x")
            void m() {}
        }
    "#;
    let facts = route_facts(src, "AccountServiceImpl.java");
    assert!(facts.nodes.is_empty());
    assert!(facts.edges.is_empty());
}

#[test]
fn route_node_and_edge_target_point_at_the_handlers_own_line_including_its_annotation() {
    let src = "@RestController\nclass C {\n    @GetMapping(\"/x\")\n    void m() {}\n}\n";
    let facts = route_facts(src, "C.java");
    assert_eq!(facts.nodes[0].start_line, 3);
    assert_eq!(facts.edges[0].target, "C.java#3:m");
}

#[test]
fn named_name_argument_produces_a_service_node_and_call_targets() {
    let src = r#"
        @FeignClient(name = "payment-service")
        interface PaymentClient {
            void openLedger(String email);
        }
    "#;
    let facts = feign_facts(src, "PaymentClient.java");
    assert_eq!(facts.nodes.len(), 1);
    assert_eq!(facts.nodes[0].node_id, "service:payment-service");
    assert_eq!(facts.nodes[0].label, "payment-service");
    assert_eq!(facts.call_targets.len(), 1);
    assert_eq!(facts.call_targets[0].name, "openLedger");
    assert_eq!(facts.call_targets[0].node_id, "service:payment-service");
    assert_eq!(
        facts.call_targets[0].scope.as_deref(),
        Some("PaymentClient")
    );
    assert!(facts.call_targets[0].scope_supers.is_empty());
}

#[test]
fn bare_single_string_argument_also_names_the_service() {
    let src = r#"
        @FeignClient("payment-service")
        interface PaymentClient {
            void openLedger(String email);
        }
    "#;
    let facts = feign_facts(src, "PaymentClient.java");
    assert_eq!(facts.nodes[0].node_id, "service:payment-service");
}

#[test]
fn value_named_argument_also_names_the_service() {
    let src = r#"
        @FeignClient(value = "payment-service")
        interface PaymentClient {
            void openLedger(String email);
        }
    "#;
    let facts = feign_facts(src, "PaymentClient.java");
    assert_eq!(facts.nodes[0].node_id, "service:payment-service");
}

#[test]
fn feign_client_with_no_name_or_value_stays_silent() {
    let src = r#"
        @FeignClient(url = "http://payment.internal")
        interface PaymentClient {
            void openLedger(String email);
        }
    "#;
    let facts = feign_facts(src, "PaymentClient.java");
    assert!(facts.nodes.is_empty());
    assert!(facts.call_targets.is_empty());
}

#[test]
fn every_method_in_the_interface_becomes_its_own_call_target() {
    let src = r#"
        @FeignClient("payment-service")
        interface PaymentClient {
            void openLedger(String email);
            void closeLedger(String email);
        }
    "#;
    let facts = feign_facts(src, "PaymentClient.java");
    let names: Vec<_> = facts.call_targets.iter().map(|t| t.name.as_str()).collect();
    assert_eq!(names, vec!["openLedger", "closeLedger"]);
}

#[test]
fn an_interface_with_no_feign_client_annotation_yields_nothing() {
    let src = r#"
        interface Plain {
            void m();
        }
    "#;
    let facts = feign_facts(src, "Plain.java");
    assert!(facts.nodes.is_empty());
    assert!(facts.call_targets.is_empty());
}

#[test]
fn the_service_node_points_at_the_feign_client_interfaces_own_declaration() {
    let src = "@FeignClient(\"payment-service\")\ninterface PaymentClient {\n    void openLedger(String email);\n}\n";
    let facts = feign_facts(src, "PaymentClient.java");
    assert_eq!(facts.nodes[0].source_file, "PaymentClient.java");
    assert_eq!(facts.nodes[0].start_line, 1);
}

#[test]
fn a_bodiless_method_on_a_jpa_repository_becomes_a_call_target() {
    let src = r#"
        interface AccountRepository extends JpaRepository<Account, Long> {
            Optional<Account> findByEmail(String email);
        }
    "#;
    let facts = repository_facts(src, "AccountRepository.java");
    assert_eq!(facts.call_targets.len(), 1);
    let target = &facts.call_targets[0];
    assert_eq!(target.name, "findByEmail");
    assert_eq!(target.scope.as_deref(), Some("AccountRepository"));
    assert_eq!(target.scope_supers, vec!["JpaRepository".to_string()]);
}

#[test]
fn every_marker_interface_in_the_allowlist_is_recognised() {
    for marker in REPOSITORY_MARKERS {
        let src = format!("interface R extends {marker} {{ Object findIt(); }}");
        let facts = repository_facts(&src, "R.java");
        assert_eq!(
            facts.call_targets.len(),
            1,
            "{marker} should trigger the carve-out"
        );
    }
}

#[test]
fn a_non_spring_data_super_interface_does_not_trigger_the_carve_out() {
    let src = "interface Ordering extends Comparable<Ordering> { int compareTo(Ordering o); }";
    let facts = repository_facts(src, "Ordering.java");
    assert!(facts.call_targets.is_empty());
}

#[test]
fn an_interface_with_no_extends_clause_at_all_does_not_trigger_the_carve_out() {
    let src = "interface Plain { void m(); }";
    let facts = repository_facts(src, "Plain.java");
    assert!(facts.call_targets.is_empty());
}

#[test]
fn a_bodied_method_on_a_repository_interface_is_not_a_carve_out_target() {
    let src = r#"
        interface AccountRepository extends JpaRepository<Account, Long> {
            Optional<Account> findByEmail(String email);
            default String describe() { return "account repository"; }
        }
    "#;
    let facts = repository_facts(src, "AccountRepository.java");
    assert_eq!(facts.call_targets.len(), 1);
    assert_eq!(facts.call_targets[0].name, "findByEmail");
}

#[test]
fn the_call_targets_node_id_matches_the_shared_def_node_id_format() {
    let src = "interface R extends CrudRepository<Account, Long> {\n    Object findIt();\n}\n";
    let facts = repository_facts(src, "R.java");
    assert_eq!(facts.call_targets[0].node_id, "R.java#2:findIt");
}

#[test]
fn several_bodiless_methods_each_become_their_own_call_target() {
    let src = r#"
        interface AccountRepository extends JpaRepository<Account, Long> {
            Optional<Account> findByEmail(String email);
            Optional<Account> findByStatus(String status);
        }
    "#;
    let facts = repository_facts(src, "AccountRepository.java");
    let names: Vec<_> = facts.call_targets.iter().map(|t| t.name.as_str()).collect();
    assert_eq!(names, vec!["findByEmail", "findByStatus"]);
}

#[test]
fn value_is_tried_before_path_wherever_they_stand() {
    let src = r#"
        @RestController
        class C {
            @GetMapping(path = "/p", value = "/v")
            void m() {}
        }
    "#;
    let facts = route_facts(src, "C.java");
    assert_eq!(facts.nodes.len(), 1);
    assert_eq!(facts.nodes[0].node_id, "route:GET:/v");
}

#[test]
fn name_is_tried_before_value_wherever_they_stand() {
    let src = r#"
        @FeignClient(value = "by-value", name = "by-name")
        interface Client {
            void call();
        }
    "#;
    let facts = feign_facts(src, "Client.java");
    assert_eq!(facts.nodes[0].node_id, "service:by-name");
}

#[test]
fn escape_sequences_keep_their_source_text() {
    with_method_annotation(
        r#"class C { @GetMapping("/a\tb") void m() {} }"#,
        |a, tree| {
            assert_eq!(bare_string_values(tree, a.arguments), vec![r"/a\tb"]);
        },
    );
}

#[test]
fn class_prefix_is_the_first_of_several_paths() {
    let src = r#"
        @Controller
        @RequestMapping(path = {"/one", "/two"})
        class C {
            @DeleteMapping("x")
            void m() {}
        }
    "#;
    let facts = route_facts(src, "C.java");
    let ids: Vec<_> = facts.nodes.iter().map(|n| n.node_id.as_str()).collect();
    assert_eq!(ids, vec!["route:DELETE:/one/x"]);
}

#[test]
fn the_argument_written_first_counts_where_the_preferred_one_holds_no_string() {
    let src = r#"
        @RestController
        @RequestMapping("/api")
        class C {
            @GetMapping(path = "/x", value = CONST)
            void m() {}
            @PostMapping(value = CONST, path = "/y")
            void n() {}
            @PutMapping(value = CONST, path = OTHER)
            void o() {}
            @PatchMapping(path = CONST, value = "/z")
            void p() {}
        }
    "#;
    let facts = route_facts(src, "C.java");
    let ids: Vec<_> = facts.nodes.iter().map(|n| n.node_id.as_str()).collect();
    assert_eq!(
        ids,
        vec!["route:GET:/api/x", "route:POST:/api", "route:PUT:/api", "route:PATCH:/api/z"]
    );
}

#[test]
fn a_feign_value_names_the_service_where_it_stands_before_a_name_without_a_string() {
    let src = r#"
        @FeignClient(value = "x", name = CONST)
        interface Client {
            void call();
        }
    "#;
    let facts = feign_facts(src, "Client.java");
    assert_eq!(facts.nodes.len(), 1);
    assert_eq!(facts.nodes[0].node_id, "service:x");
}

#[test]
fn a_feign_name_without_a_string_silences_a_value_behind_it() {
    let src = r#"@FeignClient(name = CONST, value = "x") interface Client { void call(); }"#;
    assert!(feign_facts(src, "Client.java").nodes.is_empty());
    let src = "@FeignClient(name = CONST) interface Client { void call(); }";
    assert!(feign_facts(src, "Client.java").nodes.is_empty());
}

#[test]
fn a_tree_of_other_text_without_framework_imports_adds_nothing() {
    let tree = parse("class C { void m() {} }");
    assert_eq!(extract_facts(&tree, "", "C.java"), FrameworkFacts::default());
}
