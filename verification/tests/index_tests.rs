use code_indexing::Class;
use code_indexing::CodeIndex;
use code_indexing::Function;

#[test]
fn parallel_edges_are_retained() {
    let mut idx = CodeIndex::new();
    let f = "f".to_string();
    let g = "g".to_string();
    idx.add_edge(&f, &g);
    idx.add_edge(&f, &g);
    // ids are handed out in first-seen order starting at 1
    assert_eq!(idx.degree(1), 2);
    assert_eq!(idx.degree(2), 0);
}

#[test]
fn add_function_keeps_the_first_record() {
    let mut idx = CodeIndex::new();
    let first = Function { name: "util".to_string(), pkg: String::new(), body: "{ a(); }".to_string() };
    let second = Function { name: "util".to_string(), pkg: String::new(), body: "{ b(); }".to_string() };
    idx.add_function(&first);
    idx.add_function(&second);
    assert_eq!(idx.function_body(&"util".to_string()), Some(&"{ a(); }".to_string()));
}

#[test]
fn function_list_is_sorted_lexicographically() {
    let mut idx = CodeIndex::new();
    for name in ["delta", "alpha", "gamma", "beta"] {
        let f = Function { name: name.to_string(), pkg: String::new(), body: String::new() };
        idx.add_function(&f);
    }
    let listed = idx.function_list();
    assert_eq!(listed, vec![
        "alpha".to_string(),
        "beta".to_string(),
        "delta".to_string(),
        "gamma".to_string(),
    ]);
}

#[test]
fn qualified_names_join_class_and_method() {
    let m = Function { name: "m1".to_string(), pkg: "C".to_string(), body: String::new() };
    assert_eq!(m.str(), "C.m1".to_string());
    let free = Function::new("f".to_string(), String::new());
    assert_eq!(free.str(), "f".to_string());
}

#[test]
fn add_class_keeps_the_first_record() {
    let mut idx = CodeIndex::new();
    let first = Class { name: "C".to_string(), declaration: "class C { ".to_string() };
    let second = Class { name: "C".to_string(), declaration: "other".to_string() };
    idx.add_class(&first);
    idx.add_class(&second);
    assert_eq!(idx.class_header(&"C".to_string()), Some(&"class C { ".to_string()));
    assert_eq!(idx.class_header(&"D".to_string()), None);
}

#[test]
fn skip_list_matches_by_substring() {
    let idx = CodeIndex::new();
    assert!(idx.should_skip(&"web/node_modules/left-pad/index.ts".to_string()));
    assert!(idx.should_skip(&"cache/.pnpm/store.ts".to_string()));
    assert!(!idx.should_skip(&"src/app/main.ts".to_string()));
}

#[test]
fn skip_list_can_be_supplied_by_the_caller() {
    let mut idx = CodeIndex::new();
    idx.set_skip_dirs(vec!["generated".to_string()]);
    assert!(idx.should_skip(&"src/generated/api.ts".to_string()));
    assert!(!idx.should_skip(&"web/node_modules/x.ts".to_string()));
}
