use code_indexing::CodeIndex;
use code_indexing::syntax::SyntaxNode;

fn node(
    kind: &str,
    field: Option<&str>,
    start: usize,
    end: usize,
    children: Vec<SyntaxNode>,
) -> SyntaxNode {
    SyntaxNode {
        kind: kind.to_string(),
        field: field.map(|f| f.to_string()),
        start,
        end,
        children,
    }
}

/// `function f(){ g(); g(); }function g(){}` as the delegate parser sees it.
fn two_functions_tree() -> SyntaxNode {
    let call1 = node("call_expression", None, 14, 17, vec![
        node("identifier", Some("function"), 14, 15, vec![]),
    ]);
    let call2 = node("call_expression", None, 19, 22, vec![
        node("identifier", Some("function"), 19, 20, vec![]),
    ]);
    let f_decl = node("function_declaration", None, 0, 25, vec![
        node("identifier", Some("name"), 9, 10, vec![]),
        node("statement_block", Some("body"), 12, 25, vec![call1, call2]),
    ]);
    let g_decl = node("function_declaration", None, 25, 39, vec![
        node("identifier", Some("name"), 34, 35, vec![]),
        node("statement_block", Some("body"), 37, 39, vec![]),
    ]);
    node("program", None, 0, 39, vec![f_decl, g_decl])
}

#[test]
fn two_calls_yield_two_edges_and_a_two_level_tree() {
    let src = "function f(){ g(); g(); }function g(){}";
    let mut idx = CodeIndex::new();
    idx.extract_file(&two_functions_tree(), src);
    assert_eq!(idx.function_list(), vec!["f".to_string(), "g".to_string()]);
    assert_eq!(idx.function_body(&"f".to_string()), Some(&"{ g(); g(); }".to_string()));
    let tree = idx.serde_tree(&"f".to_string(), 2).expect("positive depth yields a node");
    assert_eq!(tree.name, "f".to_string());
    assert_eq!(tree.value, 2);
    assert_eq!(tree.children.len(), 2);
    for child in &tree.children {
        assert_eq!(child.name, "g".to_string());
        assert_eq!(child.value, 0);
        assert_eq!(child.children.len(), 0);
    }
}

/// `class C { m1(){ this.m2(); } m2(){} }` as the delegate parser sees it.
fn class_tree() -> SyntaxNode {
    let call = node("call_expression", None, 16, 25, vec![
        node("member_expression", Some("function"), 16, 23, vec![]),
    ]);
    let m1 = node("method_definition", None, 10, 28, vec![
        node("property_identifier", Some("name"), 10, 12, vec![]),
        node("statement_block", Some("body"), 14, 28, vec![call]),
    ]);
    let m2 = node("method_definition", None, 29, 35, vec![
        node("property_identifier", Some("name"), 29, 31, vec![]),
        node("statement_block", Some("body"), 33, 35, vec![]),
    ]);
    let body = node("class_body", None, 8, 37, vec![m1, m2]);
    let cls = node("class_declaration", None, 0, 37, vec![
        node("type_identifier", Some("name"), 6, 7, vec![]),
        body,
    ]);
    node("program", None, 0, 37, vec![cls])
}

#[test]
fn methods_are_qualified_and_this_is_rewritten() {
    let src = "class C { m1(){ this.m2(); } m2(){} }";
    let mut idx = CodeIndex::new();
    idx.extract_file(&class_tree(), src);
    assert_eq!(idx.function_list(), vec!["C.m1".to_string(), "C.m2".to_string()]);
    assert_eq!(idx.class_header(&"C".to_string()), Some(&"class C { ".to_string()));
    let tree = idx.serde_tree(&"C.m1".to_string(), 2).expect("positive depth yields a node");
    assert_eq!(tree.name, "C.m1".to_string());
    assert_eq!(tree.value, 1);
    assert_eq!(tree.children.len(), 1);
    assert_eq!(tree.children[0].name, "C.m2".to_string());
}

#[test]
fn class_without_methods_keeps_its_whole_text_as_header() {
    let src = "class D { x = 1 }";
    let cls = node("class_declaration", None, 0, 17, vec![
        node("type_identifier", Some("name"), 6, 7, vec![]),
        node("class_body", None, 8, 17, vec![]),
    ]);
    let root = node("program", None, 0, 17, vec![cls]);
    let mut idx = CodeIndex::new();
    idx.extract_file(&root, src);
    assert_eq!(idx.class_header(&"D".to_string()), Some(&"class D { x = 1 }".to_string()));
    assert_eq!(idx.function_list().len(), 0);
    assert!(idx.serde_tree(&"D".to_string(), 5).expect("positive depth").children.is_empty());
}

/// `function util(){ x(); }` where `x` names the one callee.
fn util_tree(callee_len: usize) -> SyntaxNode {
    // "function util(){ a(); }": name at 9..13, body at 15..23, call at 17..20
    let call = node("call_expression", None, 17, 17 + callee_len + 2, vec![
        node("identifier", Some("function"), 17, 17 + callee_len, vec![]),
    ]);
    let decl = node("function_declaration", None, 0, 23, vec![
        node("identifier", Some("name"), 9, 13, vec![]),
        node("statement_block", Some("body"), 15, 23, vec![call]),
    ]);
    node("program", None, 0, 23, vec![decl])
}

#[test]
fn repeated_declarations_keep_the_first_body_but_accumulate_edges() {
    let first = "function util(){ a(); }";
    let second = "function util(){ b(); }";
    let mut idx = CodeIndex::new();
    idx.extract_file(&util_tree(1), first);
    idx.extract_file(&util_tree(1), second);
    assert_eq!(idx.function_body(&"util".to_string()), Some(&"{ a(); }".to_string()));
    let tree = idx.serde_tree(&"util".to_string(), 2).expect("positive depth yields a node");
    assert_eq!(tree.value, 2);
    assert_eq!(tree.children.len(), 2);
    assert_eq!(tree.children[0].name, "a".to_string());
    assert_eq!(tree.children[1].name, "b".to_string());
}

#[test]
fn missing_fields_degrade_to_placeholders() {
    // a function declaration with no name and no body fields
    let decl = node("function_declaration", None, 0, 12, vec![
        node("statement_block", None, 10, 12, vec![]),
    ]);
    let root = node("program", None, 0, 12, vec![decl]);
    let mut idx = CodeIndex::new();
    idx.extract_file(&root, "function (){}");
    assert_eq!(idx.function_list(), vec!["<anonymous>".to_string()]);
    assert_eq!(idx.function_body(&"<anonymous>".to_string()), Some(&String::new()));
}

#[test]
fn spans_outside_the_text_never_panic() {
    let decl = node("function_declaration", None, 0, 99, vec![
        node("identifier", Some("name"), 90, 95, vec![]),
    ]);
    let root = node("program", None, 0, 99, vec![decl]);
    let mut idx = CodeIndex::new();
    idx.extract_file(&root, "short");
    assert_eq!(idx.function_list(), vec!["<anonymous>".to_string()]);
}
