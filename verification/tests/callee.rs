use lci_codegraph::graph::callee::{
    callee_ref_of, declared_type_of, impl_type_name, qualifier_from_callee_node, supertype_names,
};
use lci_codegraph::syntax::SyntaxTree;
use tree_sitter::{Language, Parser};

fn language(name: &str) -> Language {
    match name {
        "rust" => tree_sitter_rust::LANGUAGE.into(),
        "python" => tree_sitter_python::LANGUAGE.into(),
        "javascript" => tree_sitter_javascript::LANGUAGE.into(),
        _ => tree_sitter_java::LANGUAGE.into(),
    }
}

fn with_node<R>(
    name: &str,
    src: &str,
    kind: &str,
    f: impl FnOnce(&SyntaxTree<'_>, usize) -> R,
) -> R {
    let mut parser = Parser::new();
    parser.set_language(&language(name)).expect("grammar loads");
    let parsed = parser.parse(src, None).expect("source parses");
    let tree = SyntaxTree::new(&parsed, src.as_bytes()).expect("the tree fits its source");
    let node = (0..tree.len())
        .find(|&i| tree.is_kind(i, kind))
        .unwrap_or_else(|| panic!("no {kind:?} node in {src:?}"));
    f(&tree, node)
}

#[test]
fn bare_call_has_name_and_no_qualifier() {
    with_node("rust", "fn go() { foo(); }", "call_expression", |tree, call| {
        let r = callee_ref_of(tree, call).expect("bare call has a callee ref");
        assert_eq!(r.name, "foo");
        assert_eq!(r.qualifier, None);
    });
}

#[test]
fn scoped_call_captures_name_and_its_qualifier() {
    with_node("rust", "fn go() { A::new(); }", "call_expression", |tree, call| {
        let r = callee_ref_of(tree, call).expect("scoped call has a callee ref");
        assert_eq!(r.name, "new");
        assert_eq!(r.qualifier.as_deref(), Some("A"));
    });
}

#[test]
fn nested_scoped_call_qualifier_is_the_segment_before_the_name() {
    with_node(
        "rust",
        "fn go() { a::b::foo(); }",
        "call_expression",
        |tree, call| {
            let r = callee_ref_of(tree, call).expect("nested scoped call has a callee ref");
            assert_eq!(r.name, "foo");
            assert_eq!(r.qualifier.as_deref(), Some("b"));
        },
    );
}

#[test]
fn method_call_field_expression_has_no_qualifier() {
    with_node(
        "rust",
        "fn go(x: X) { x.foo(); }",
        "call_expression",
        |tree, call| {
            let r = callee_ref_of(tree, call).expect("method call has a callee ref");
            assert_eq!(r.name, "foo");
            assert_eq!(r.qualifier, None);
        },
    );
}

#[test]
fn chained_method_call_resolves_to_the_final_segment() {
    with_node(
        "rust",
        "fn go(a: A) { a.b().c(); }",
        "call_expression",
        |tree, call| {
            let r = callee_ref_of(tree, call).expect("outer call has a callee ref");
            assert_eq!(r.name, "c");
            assert_eq!(r.qualifier, None);
        },
    );
}

#[test]
fn generic_function_call_unwraps_to_the_inner_callee() {
    with_node(
        "rust",
        "fn go() { foo::<T>(); }",
        "call_expression",
        |tree, call| {
            let r = callee_ref_of(tree, call).expect("turbofish call has a callee ref");
            assert_eq!(r.name, "foo");
            assert_eq!(r.qualifier, None);
        },
    );
}

#[test]
fn non_call_node_yields_no_callee_ref() {
    with_node(
        "rust",
        "fn go(arr: [i32; 3]) { let _ = arr[0]; }",
        "index_expression",
        |tree, node| {
            assert!(callee_ref_of(tree, node).is_none());
        },
    );
}

#[test]
fn impl_type_name_for_a_plain_inherent_impl() {
    with_node("rust", "impl S { fn f() {} }", "impl_item", |tree, node| {
        assert_eq!(impl_type_name(tree, node).as_deref(), Some("S"));
    });
}

#[test]
fn impl_type_name_for_a_trait_impl_is_the_implementing_type_not_the_trait() {
    with_node("rust", "impl T for S { fn f() {} }", "impl_item", |tree, node| {
        assert_eq!(impl_type_name(tree, node).as_deref(), Some("S"));
    });
}

#[test]
fn impl_type_name_for_a_generic_impl_uses_the_head_type() {
    with_node("rust", "impl Vec<i32> { fn f() {} }", "impl_item", |tree, node| {
        assert_eq!(impl_type_name(tree, node).as_deref(), Some("Vec"));
    });
}

#[test]
fn js_member_expression_receiver_is_the_qualifier() {
    with_node("javascript", "Foo.bar();",
        "member_expression",
        |tree, member| {
            let name_node = tree.field_child(member, "property").unwrap();
            assert_eq!(
                qualifier_from_callee_node(tree, name_node).as_deref(),
                Some("Foo")
            );
        },
    );
}

#[test]
fn python_capitalised_attribute_receiver_is_the_qualifier() {
    with_node("python", "Obj.m()", "attribute", |tree, attr| {
        let name_node = tree.field_child(attr, "attribute").unwrap();
        assert_eq!(
            qualifier_from_callee_node(tree, name_node).as_deref(),
            Some("Obj")
        );
    });
}

#[test]
fn java_capitalised_method_invocation_receiver_is_the_qualifier() {
    with_node("java", "class C { void go() { Obj.m(); } }",
        "method_invocation",
        |tree, call| {
            let name_node = tree.field_child(call, "name").unwrap();
            assert_eq!(
                qualifier_from_callee_node(tree, name_node).as_deref(),
                Some("Obj")
            );
        },
    );
}

#[test]
fn python_lowercase_attribute_receiver_yields_no_qualifier() {
    with_node("python", "obj.m()", "attribute", |tree, attr| {
        let name_node = tree.field_child(attr, "attribute").unwrap();
        assert_eq!(qualifier_from_callee_node(tree, name_node), None);
    });
}

#[test]
fn java_lowercase_method_invocation_receiver_yields_no_qualifier() {
    with_node("java", "class C { void go() { obj.m(); } }",
        "method_invocation",
        |tree, call| {
            let name_node = tree.field_child(call, "name").unwrap();
            assert_eq!(qualifier_from_callee_node(tree, name_node), None);
        },
    );
}

#[test]
fn js_lowercase_member_expression_receiver_yields_no_qualifier() {
    with_node("javascript", "a.helper();",
        "member_expression",
        |tree, member| {
            let name_node = tree.field_child(member, "property").unwrap();
            assert_eq!(qualifier_from_callee_node(tree, name_node), None);
        },
    );
}

#[test]
fn all_caps_constant_receiver_is_still_treated_as_a_type_qualifier() {
    with_node("javascript", "CONFIG.get();",
        "member_expression",
        |tree, member| {
            let name_node = tree.field_child(member, "property").unwrap();
            assert_eq!(
                qualifier_from_callee_node(tree, name_node).as_deref(),
                Some("CONFIG")
            );
        },
    );
}

#[test]
fn implicit_self_family_receivers_yield_no_qualifier() {
    for receiver in ["self", "cls", "this", "super"] {
        let src = format!("{receiver}.m();");
        with_node("javascript", &src, "member_expression", |tree, member| {
            let name_node = tree.field_child(member, "property").unwrap();
            assert_eq!(
                qualifier_from_callee_node(tree, name_node),
                None,
                "{receiver} must not yield a qualifier"
            );
        });
    }
}

#[test]
fn non_identifier_receiver_yields_no_qualifier() {
    with_node("javascript", "getObj().bar();",
        "member_expression",
        |tree, member| {
            let name_node = tree.field_child(member, "property").unwrap();
            assert_eq!(qualifier_from_callee_node(tree, name_node), None);
        },
    );
}

#[test]
fn bare_call_name_node_yields_no_qualifier() {
    with_node("javascript", "foo();", "call_expression", |tree, call| {
        let name_node = tree.field_child(call, "function").unwrap();
        assert_eq!(qualifier_from_callee_node(tree, name_node), None);
    });
}

fn java_qualifier_of_the_only_call(src: &str) -> Option<String> {
    with_node("java", src, "method_invocation", |tree, call| {
        let name_node = tree.field_child(call, "name").unwrap();
        qualifier_from_callee_node(tree, name_node)
    })
}

#[test]
fn java_qualifier_recovers_a_local_variables_declared_type() {
    assert_eq!(
        java_qualifier_of_the_only_call(
            "class C { void go() { Helper h = new Helper(); h.help(); } }"
        )
        .as_deref(),
        Some("Helper")
    );
}

#[test]
fn java_qualifier_recovers_a_formal_parameters_declared_type() {
    assert_eq!(
        java_qualifier_of_the_only_call("class C { void go(Helper h) { h.help(); } }")
            .as_deref(),
        Some("Helper")
    );
}

#[test]
fn java_qualifier_recovers_a_fields_declared_type() {
    assert_eq!(
        java_qualifier_of_the_only_call("class C { Helper h; void go() { h.help(); } }")
            .as_deref(),
        Some("Helper")
    );
}

#[test]
fn java_qualifier_prefers_a_local_over_a_field_of_the_same_name() {
    assert_eq!(
        java_qualifier_of_the_only_call(
            "class C { Widget widget; void go() { \
             Panel widget = new Panel(); widget.render(); } }"
        )
        .as_deref(),
        Some("Panel"),
        "the local must shadow the field"
    );
}

#[test]
fn java_qualifier_strips_generics_to_the_simple_head_name() {
    assert_eq!(
        java_qualifier_of_the_only_call(
            "class C { void go() { List<Account> items = null; items.size(); } }"
        )
        .as_deref(),
        Some("List")
    );
}

#[test]
fn java_qualifier_strips_package_qualification_to_the_simple_head_name() {
    assert_eq!(
        java_qualifier_of_the_only_call(
            "class C { void go() { com.example.Account acc = null; acc.save(); } }"
        )
        .as_deref(),
        Some("Account")
    );
}

#[test]
fn java_qualifier_strips_array_suffix_to_the_element_type() {
    assert_eq!(
        java_qualifier_of_the_only_call(
            "class C { void go() { Account[] accs = null; accs.clone(); } }"
        )
        .as_deref(),
        Some("Account")
    );
}

#[test]
fn declared_type_of_does_not_map_a_primitive_type_to_a_name() {
    with_node("java", "class C { void go(int x) { x.foo(); } }",
        "method_invocation",
        |tree, call| {
            let receiver = tree.field_child(call, "object").unwrap();
            assert_eq!(declared_type_of(tree, receiver, "x"), None);
        },
    );
}

#[test]
fn java_qualifier_of_a_primitive_receiver_is_dropped_entirely() {
    assert_eq!(
        java_qualifier_of_the_only_call("class C { void go(int x) { x.foo(); } }"),
        None
    );
}

#[test]
fn java_qualifier_is_dropped_when_no_declaration_is_found() {
    assert_eq!(
        java_qualifier_of_the_only_call("class C { void go() { obj.m(); } }"),
        None
    );
}

#[test]
fn java_qualifier_recovers_an_enhanced_for_loop_variables_declared_type() {
    assert_eq!(
        java_qualifier_of_the_only_call(
            "class C { void go() { for (Account a : accounts) { a.save(); } } }"
        )
        .as_deref(),
        Some("Account")
    );
}

#[test]
fn java_qualifier_recovers_a_caught_exceptions_declared_type() {
    assert_eq!(
        java_qualifier_of_the_only_call(
            "class C { void go() { \
             try {} catch (IOException e) { e.printStackTrace(); } } }"
        )
        .as_deref(),
        Some("IOException")
    );
}

#[test]
fn java_qualifier_does_not_recover_a_multi_catch_declared_type() {
    assert_eq!(
        java_qualifier_of_the_only_call(
            "class C { void go() { \
             try {} catch (IOException | SQLException e) { e.printStackTrace(); } } }"
        ),
        None
    );
}

#[test]
fn supertype_names_of_a_class_collects_both_the_superclass_and_interfaces() {
    with_node("java", "class Impl extends Base implements Foo, Bar {}",
        "class_declaration",
        |tree, class| {
            let mut names = supertype_names(tree, class);
            names.sort();
            assert_eq!(names, vec!["Bar", "Base", "Foo"]);
        },
    );
}

#[test]
fn supertype_names_of_an_interface_collects_extends_interfaces() {
    with_node("java", "interface Combined extends Foo, Bar {}",
        "interface_declaration",
        |tree, iface| {
            let mut names = supertype_names(tree, iface);
            names.sort();
            assert_eq!(names, vec!["Bar", "Foo"]);
        },
    );
}

#[test]
fn supertype_names_strips_generic_type_arguments() {
    with_node("java", "interface AccountRepository extends JpaRepository<Account, Long> {}",
        "interface_declaration",
        |tree, iface| {
            assert_eq!(supertype_names(tree, iface), vec!["JpaRepository"]);
        },
    );
}

#[test]
fn supertype_names_of_a_container_with_no_clause_is_empty() {
    with_node("java", "class Plain {}",
        "class_declaration",
        |tree, class| {
            assert!(supertype_names(tree, class).is_empty());
        },
    );
}

#[test]
fn java_local_of_a_primitive_type_hides_a_field_of_its_name() {
    assert_eq!(
        java_qualifier_of_the_only_call(
            "class C { Widget w; void go() { int w = 1; w.render(); } }"
        ),
        None
    );
    assert_eq!(
        java_qualifier_of_the_only_call("class C { Widget w; void go(int w) { w.render(); } }"),
        None
    );
}

#[test]
fn java_multi_catch_parameter_hides_a_field_of_its_name() {
    assert_eq!(
        java_qualifier_of_the_only_call(
            "class C { Widget e; void go() { try {} catch (A | B e) { e.render(); } } }"
        ),
        None
    );
}

#[test]
fn java_qualifier_of_a_later_name_in_one_declaration_is_recovered() {
    assert_eq!(
        java_qualifier_of_the_only_call("class C { Widget a, b; void go() { b.render(); } }")
            .as_deref(),
        Some("Widget")
    );
}

#[test]
fn java_name_declared_in_a_sibling_block_is_not_seen() {
    assert_eq!(
        java_qualifier_of_the_only_call(
            "class C { void go() { { Widget w = null; } w.render(); } }"
        ),
        None
    );
}
