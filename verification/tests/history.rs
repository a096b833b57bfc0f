use basemind::history::{
    head_snapshot_id, line_range_in_blob, normalize_for_history, parse_hash_mode, HashMode,
};
use basemind::model::{FileMapL1, Symbol, SymbolKind};
use basemind::outlines::{outline_entry_for_blob, OutlineCache, OUTLINE_CACHE_CAP};
use basemind::syntax::{find_node_for_range, is_identifier_kind, is_literal_kind, symbol_fingerprint, SyntaxNode};

const RUST: &str = "rust";
const PYTHON: &str = "python";

#[test]
fn rust_whitespace_only_changes_normalize_equal() {
    let a = b"fn foo() {\n    let x = 1;\n}";
    let b = b"fn foo() {\r\n  let   x = 1;\n   }\n";
    assert_eq!(
        normalize_for_history(RUST, a),
        normalize_for_history(RUST, b),
        "autoformat-style whitespace changes should normalize to the same bytes"
    );
}

#[test]
fn rust_line_comment_changes_normalize_equal() {
    let a = b"fn foo() { let x = 1; }";
    let b = b"fn foo() {\n    // explain x\n    let x = 1; // trailing\n}";
    assert_eq!(
        normalize_for_history(RUST, a),
        normalize_for_history(RUST, b),
        "adding line comments should not register as a symbol-body change"
    );
}

#[test]
fn rust_block_comment_changes_normalize_equal() {
    let a = b"fn foo() { let x = 1; }";
    let b = b"fn foo() { /* docs */ let x = 1; /* trailing */ }";
    assert_eq!(
        normalize_for_history(RUST, a),
        normalize_for_history(RUST, b),
        "adding block comments should not register as a symbol-body change"
    );
}

#[test]
fn semantic_change_still_differs() {
    let a = b"fn foo() { let x = 1; }";
    let b = b"fn foo() { let x = 2; }";
    assert_ne!(
        normalize_for_history(RUST, a),
        normalize_for_history(RUST, b),
        "a literal value change must still register as different"
    );
}

#[test]
fn python_uses_hash_comments() {
    let a = b"def foo():\n    return 1";
    let b = b"def foo():\n    # comment\n    return 1";
    assert_eq!(normalize_for_history(PYTHON, a), normalize_for_history(PYTHON, b),);
}

#[test]
fn normal_form_has_exact_bytes() {
    assert_eq!(normalize_for_history(RUST, b"  a /* x */ b // y\n  c  "), b"a b c");
    assert_eq!(normalize_for_history("cobol", b" a // b"), b"a // b");
    assert_eq!(normalize_for_history(RUST, b"a /* never closed"), b"a");
}

fn leaf(source: &[u8], text: &str, kind: &str, from: usize) -> SyntaxNode {
    let at = from + source[from..].windows(text.len()).position(|w| w == text.as_bytes()).unwrap();
    SyntaxNode {
        kind: kind.to_string(),
        start: at,
        end: at + text.len(),
        named: kind.chars().all(|c| c.is_ascii_lowercase() || c == '_'),
        extra: kind.ends_with("comment"),
        children: vec![],
    }
}

/// A tree of `pub fn alpha() { let NAME = VALUE; NAME + 1 }`, with comments where there are any.
fn tree(source: &[u8], name: &str, value: &str) -> SyntaxNode {
    let mut children = vec![leaf(source, "alpha", "identifier", 0)];
    for comment in ["/* doc */", "// explain"] {
        if source.windows(comment.len()).any(|w| w == comment.as_bytes()) {
            children.push(leaf(source, comment, "line_comment", 0));
        }
    }
    let body = source.iter().position(|&b| b == b'{').unwrap();
    let first = leaf(source, name, "identifier", body);
    let number = leaf(source, value, "integer_literal", first.end);
    let second = leaf(source, name, "identifier", number.end);
    let one = leaf(source, "1", "integer_literal", second.end);
    children.push(first);
    children.push(number);
    children.push(second);
    children.push(one);
    children.sort_by_key(|c| c.start);
    let end = source.iter().rposition(|&b| b == b'}').unwrap() + 1;
    SyntaxNode {
        kind: "source_file".to_string(),
        start: 0,
        end: source.len(),
        named: true,
        extra: false,
        children: vec![SyntaxNode {
            kind: "function_item".to_string(),
            start: 0,
            end,
            named: true,
            extra: false,
            children,
        }],
    }
}

fn fingerprint_for(source: &[u8], name: &str, value: &str, mode: HashMode) -> Vec<u8> {
    let end = source.iter().rposition(|&b| b == b'}').unwrap() + 1;
    let map = FileMapL1 {
        language: RUST.to_string(),
        size_bytes: source.len() as u64,
        had_errors: false,
        error_count: 0,
        symbols: vec![Symbol {
            name: "alpha".to_string(),
            kind: SymbolKind::Function,
            start_byte: 0,
            end_byte: end as u32,
            start_row: 0,
            start_col: 0,
            signature: None,
            decorators: Vec::new(),
        }],
        imports: vec![],
        implementations: vec![],
    };
    let t = tree(source, name, value);
    symbol_fingerprint(&map, source, Some(&t), "alpha", None, RUST, mode).expect("fingerprint")
}

#[test]
fn structural_hash_ignores_formatter_and_comments() {
    let a = b"pub fn alpha() {\n    let x = 1;\n    x + 1\n}\n";
    let b = b"pub fn   alpha() { /* doc */\n    let  x  =  1;  // explain\n    x + 1\n}\n";
    assert_eq!(
        fingerprint_for(a, "x", "1", HashMode::StructuralExact),
        fingerprint_for(b, "x", "1", HashMode::StructuralExact),
        "structural hash must be stable under formatting + comment edits"
    );
}

#[test]
fn structural_hash_catches_literal_change() {
    let a = b"pub fn alpha() {\n    let x = 1;\n    x + 1\n}\n";
    let b = b"pub fn alpha() {\n    let x = 2;\n    x + 1\n}\n";
    assert_ne!(
        fingerprint_for(a, "x", "1", HashMode::StructuralExact),
        fingerprint_for(b, "x", "2", HashMode::StructuralExact),
        "Structural mode must register a literal value change as a body change"
    );
}

#[test]
fn structural_loose_ignores_literal_change() {
    let a = b"pub fn alpha() {\n    let x = 1;\n    x + 1\n}\n";
    let b = b"pub fn alpha() {\n    let x = 2;\n    x + 1\n}\n";
    assert_eq!(
        fingerprint_for(a, "x", "1", HashMode::StructuralLoose),
        fingerprint_for(b, "x", "2", HashMode::StructuralLoose),
        "StructuralLoose must ignore literal value churn"
    );
}

#[test]
fn structural_loose_still_catches_identifier_rename() {
    let a = b"pub fn alpha() {\n    let original = 1;\n    original + 1\n}\n";
    let b = b"pub fn alpha() {\n    let renamed = 1;\n    renamed + 1\n}\n";
    assert_ne!(
        fingerprint_for(a, "original", "1", HashMode::StructuralLoose),
        fingerprint_for(b, "renamed", "1", HashMode::StructuralLoose),
        "StructuralLoose must still catch identifier renames"
    );
}

#[test]
fn a_fingerprint_needs_the_symbol_and_a_parse() {
    let source = b"pub fn alpha() {}\n";
    let map = FileMapL1 {
        language: RUST.to_string(),
        size_bytes: 0,
        had_errors: false,
        error_count: 0,
        symbols: vec![Symbol {
            name: "alpha".to_string(),
            kind: SymbolKind::Function,
            start_byte: 0,
            end_byte: 900,
            start_row: 0,
            start_col: 0,
            signature: None,
            decorators: Vec::new(),
        }],
        imports: vec![],
        implementations: vec![],
    };
    assert!(symbol_fingerprint(&map, source, None, "beta", None, RUST, HashMode::Normalized).is_none());
    assert!(symbol_fingerprint(&map, source, None, "alpha", Some(SymbolKind::Struct), RUST, HashMode::Normalized).is_none());
    assert!(symbol_fingerprint(&map, source, None, "alpha", None, RUST, HashMode::StructuralExact).is_none());
    assert_eq!(
        symbol_fingerprint(&map, source, None, "alpha", None, RUST, HashMode::Normalized).unwrap(),
        b"pub fn alpha() {}"
    );
}

#[test]
fn the_smallest_node_of_a_range_is_found() {
    let source = b"pub fn alpha() {\n    let x = 1;\n    x + 1\n}\n";
    let t = tree(source, "x", "1");
    assert_eq!(find_node_for_range(&t, 7, 12).unwrap().kind, "identifier");
    assert_eq!(find_node_for_range(&t, 0, 20).unwrap().kind, "function_item");
    assert!(find_node_for_range(&t, 0, 9999).is_none());
    assert!(is_identifier_kind("identifier") && !is_identifier_kind("block"));
    assert!(is_literal_kind("rust", "string_literal") && !is_literal_kind("rust", "block"));
}

#[test]
fn line_range_counts_newlines_against_the_given_blob() {
    let blob = b"// hdr\n\nfn alpha() {\n    body;\n}\nfn beta() {}\n";
    let start = blob.windows(8).position(|w| w == b"fn alpha").unwrap();
    let end = blob.iter().position(|&b| b == b'}').unwrap() + 1;
    let sym = Symbol {
        name: "alpha".into(),
        kind: SymbolKind::Function,
        start_byte: start as u32,
        end_byte: end as u32,
        start_row: 2,
        start_col: 0,
        signature: None,
        decorators: Vec::new(),
    };
    assert_eq!(line_range_in_blob(&sym, blob), (3, 5));
    assert_eq!(line_range_in_blob(&sym, &blob[..start + 4]), (3, 3));
}

#[test]
fn a_snapshot_id_is_the_front_of_the_sha() {
    assert_eq!(head_snapshot_id("deadbeefcafe"), 0xdead_beef);
    assert_eq!(head_snapshot_id("DEADBEEF"), 0xdead_beef);
    assert_eq!(head_snapshot_id("dead"), 0);
    assert_eq!(head_snapshot_id("deadbeeg"), 0);
}

#[test]
fn hash_modes_parse_by_name() {
    for m in [HashMode::Normalized, HashMode::StructuralExact, HashMode::StructuralLoose] {
        assert_eq!(parse_hash_mode(&m.as_str().to_uppercase()).unwrap(), m);
    }
    let e = parse_hash_mode("Fuzzy").unwrap_err();
    assert_eq!(
        e.message(),
        "unknown hash_mode: fuzzy (expected normalized|structural|structural_loose)"
    );
}

fn sized_map(size: u64) -> FileMapL1 {
    FileMapL1 {
        language: RUST.to_string(),
        size_bytes: size,
        had_errors: false,
        error_count: 0,
        symbols: vec![],
        imports: vec![],
        implementations: vec![],
    }
}

#[test]
fn outline_cache_returns_same_arc_for_same_oid() {
    let mut cache = OutlineCache::new(8);
    let oid = [0u8, 0, 0, 0, 0, 0, 0, 0, 0, 0, 0, 0, 0, 0, 0, 0, 0, 0, 0, 2];
    let src = b"pub fn alpha() {}\n".to_vec();
    let a = outline_entry_for_blob(&mut cache, &oid, RUST, src.clone(), Some(sized_map(1))).unwrap();
    assert_eq!(a.map.size_bytes, 1);
    let b = outline_entry_for_blob(&mut cache, &oid, RUST, vec![], Some(sized_map(2))).unwrap();
    assert_eq!(b.map.size_bytes, 1, "second lookup must return the same cached entry");
    assert_eq!(b.source, src);
}

#[test]
fn outline_cache_tells_languages_apart_and_keeps_no_failures() {
    let mut cache = OutlineCache::new(OUTLINE_CACHE_CAP);
    let oid = [7u8; 20];
    assert!(outline_entry_for_blob(&mut cache, &oid, RUST, vec![], None).is_none());
    assert!(outline_entry_for_blob(&mut cache, &oid, RUST, vec![1], Some(sized_map(1))).is_some());
    assert!(outline_entry_for_blob(&mut cache, &oid, PYTHON, vec![1], None).is_none());
    assert_eq!(
        outline_entry_for_blob(&mut cache, &oid, RUST, vec![], None).unwrap().map.size_bytes,
        1
    );
}

#[test]
fn outline_cache_drops_the_least_recently_used() {
    let mut cache = OutlineCache::new(2);
    assert!(outline_entry_for_blob(&mut cache, &[1], RUST, vec![1], Some(sized_map(1))).is_some());
    assert!(outline_entry_for_blob(&mut cache, &[2], RUST, vec![2], Some(sized_map(2))).is_some());
    assert!(cache.touch(&[1], RUST));
    assert!(outline_entry_for_blob(&mut cache, &[3], RUST, vec![3], Some(sized_map(3))).is_some());
    assert!(!cache.touch(&[2], RUST));
    assert!(cache.touch(&[1], RUST));
    assert_eq!(cache.front().map.size_bytes, 1);
    assert!(cache.touch(&[3], RUST));
    assert_eq!(cache.front().source, vec![3u8]);
    assert!(outline_entry_for_blob(&mut cache, &[3], RUST, vec![9], None).is_some());
    assert!(!cache.touch(&[2], RUST));
}

#[test]
fn a_normal_form_is_normal_already() {
    let raw = b"fn f() { a / b; /* x */ c(); } // y\n\n  /* z */ g / /* w */ h";
    let once = normalize_for_history(RUST, raw);
    assert_eq!(normalize_for_history(RUST, &once), once);
    assert_eq!(once, b"fn f() { a / b; c(); } g / h".to_vec());
    let hash = normalize_for_history(PYTHON, b"x = 1  # one\n\ty = 2 # two");
    assert_eq!(hash, b"x = 1 y = 2".to_vec());
    assert_eq!(normalize_for_history(PYTHON, &hash), hash);
}
