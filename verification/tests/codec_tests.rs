use code_indexing::Class;
use code_indexing::CodeIndex;
use code_indexing::Function;

fn sample_index() -> CodeIndex {
    let mut idx = CodeIndex::new();
    idx.add_edge(&"f".to_string(), &"g".to_string());
    idx.add_edge(&"f".to_string(), &"g".to_string());
    idx.add_edge(&"C.m1".to_string(), &"C.m2".to_string());
    idx.add_function(&Function {
        name: "f".to_string(),
        pkg: String::new(),
        body: "{ g(); g(); }".to_string(),
    });
    idx.add_function(&Function {
        name: "m1".to_string(),
        pkg: "C".to_string(),
        body: "{ this.m2(); }".to_string(),
    });
    idx.add_class(&Class { name: "C".to_string(), declaration: "class C { ".to_string() });
    // a name outside ASCII exercises the character fields
    idx.intern(&"h\u{03bb}".to_string());
    idx
}

#[test]
fn loading_saved_bytes_restores_the_index() {
    let mut original = sample_index();
    let bytes = original.to_bytes();
    let mut loaded = match CodeIndex::from_bytes(&bytes) {
        Ok(idx) => idx,
        Err(_) => panic!("saved bytes must load"),
    };
    assert_eq!(loaded.function_list(), original.function_list());
    assert_eq!(loaded.function_body(&"f".to_string()), original.function_body(&"f".to_string()));
    assert_eq!(loaded.class_header(&"C".to_string()), original.class_header(&"C".to_string()));
    // ids were restored: the same names intern to the same ids
    assert_eq!(loaded.intern(&"h\u{03bb}".to_string()), original.intern(&"h\u{03bb}".to_string()));
    assert_eq!(loaded.intern(&"fresh".to_string()), original.intern(&"fresh".to_string()));
    let a = original.serde_tree(&"f".to_string(), 3).expect("node");
    let b = loaded.serde_tree(&"f".to_string(), 3).expect("node");
    assert_eq!(a.name, b.name);
    assert_eq!(a.value, b.value);
    assert_eq!(a.children.len(), b.children.len());
    for (x, y) in a.children.iter().zip(b.children.iter()) {
        assert_eq!(x.name, y.name);
        assert_eq!(x.value, y.value);
    }
    // both sides took the same calls since saving, so saving again agrees too
    assert_eq!(loaded.to_bytes(), original.to_bytes());
}

#[test]
fn truncated_bytes_are_a_fatal_decode_error() {
    let original = sample_index();
    let mut bytes = original.to_bytes();
    bytes.pop();
    assert!(CodeIndex::from_bytes(&bytes).is_err());
    assert!(CodeIndex::from_bytes(&vec![1u8, 2, 3]).is_err());
}

#[test]
fn trailing_bytes_are_a_fatal_decode_error() {
    let original = sample_index();
    let mut bytes = original.to_bytes();
    bytes.push(0);
    assert!(CodeIndex::from_bytes(&bytes).is_err());
}

#[test]
fn a_surrogate_character_field_is_a_fatal_decode_error() {
    // one name of one character whose 4-byte field holds 0xD800, a value no
    // character can take; the remaining counts are all zero
    let mut bytes: Vec<u8> = Vec::new();
    bytes.extend_from_slice(&[1, 0, 0, 0, 0, 0, 0, 0]); // one name
    bytes.extend_from_slice(&[1, 0, 0, 0, 0, 0, 0, 0]); // of one character
    bytes.extend_from_slice(&[0x00, 0xD8, 0x00, 0x00]); // the surrogate 0xD800
    for _ in 0..4 {
        bytes.extend_from_slice(&[0, 0, 0, 0, 0, 0, 0, 0]); // empty stores
    }
    assert!(CodeIndex::from_bytes(&bytes).is_err());
}

#[test]
fn an_empty_index_round_trips() {
    let idx = CodeIndex::new();
    let bytes = idx.to_bytes();
    let loaded = match CodeIndex::from_bytes(&bytes) {
        Ok(i) => i,
        Err(_) => panic!("saved bytes must load"),
    };
    assert_eq!(loaded.function_list().len(), 0);
    assert!(loaded.should_skip(&"x/node_modules/y.ts".to_string()));
}
