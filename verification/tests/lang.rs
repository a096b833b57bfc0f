use basemind::lang::{
    classify_captures, combined_l1_source, has_override, intern, offline_requested, override_languages, plan_bootstrap,
    query_source, required_query_source, version_from_dir_name, BootstrapPlan, CaptureClass, QueryKind,
};
use basemind::tags::{
    adapt_tslp_tags, classify_capture, classify_pattern, extract_section, rewrite_capture, rewrite_pattern,
    split_top_level_patterns, PatternKind,
};

#[test]
fn extract_section_basic() {
    let src = ";; section: a\n(foo)\n;; section: b\n(bar)\n";
    assert_eq!(extract_section(src, "a").unwrap().trim(), "(foo)");
    assert_eq!(extract_section(src, "b").unwrap().trim(), "(bar)");
    assert_eq!(extract_section(src, "c"), None);
}

#[test]
fn has_override_for_each_supported() {
    for name in override_languages() {
        assert!(has_override(name), "missing override source for {name}");
    }
    assert!(!has_override("cpp"));
}

#[test]
fn intern_known_overrides_returns_static() {
    let owned = "rust".to_string();
    let id = intern(&owned, false).expect("rust must intern");
    assert_eq!(id, "rust");
    let again = intern("rust", true).expect("rust must intern");
    assert_eq!(id, again);
}

#[test]
fn intern_unknown_returns_none() {
    assert!(intern("this-is-not-a-real-grammar-name", false).is_none());
}

#[test]
fn a_pack_language_is_interned() {
    assert_eq!(intern("cpp", true), Some("cpp".to_string()));
}

#[test]
fn try_get_query_returns_none_for_unsupported_lang() {
    let res = query_source(None, None, QueryKind::Symbols);
    assert!(res.is_none());
}

#[test]
fn adapt_tslp_tags_emits_two_sections() {
    let src = "(function_item name: (identifier) @name) @definition.function\n\
               (call_expression function: (identifier) @name) @reference.call\n";
    let out = adapt_tslp_tags(src);
    assert!(out.contains(";; section: symbols"));
    assert!(out.contains(";; section: calls"));
    assert!(out.contains("@symbol.function"));
    assert!(out.contains("@symbol.name"));
    assert!(out.contains("@call.range"));
    assert!(out.contains("@call.callee"));
}

#[test]
fn adapt_tslp_tags_routes_reference_implementation() {
    let src = "(impl_item trait: (type_identifier) @name) @reference.implementation\n\
               (call_expression function: (identifier) @name) @reference.call\n";
    let out = adapt_tslp_tags(src);
    assert!(out.contains(";; section: implementations"));
    assert!(out.contains("@impl.trait_name"));
    assert!(out.contains("@impl.range"));
    assert!(out.contains("@call.range"));
    assert!(out.contains("@call.callee"));
    assert!(!out.contains("@reference.implementation"));
    assert!(!out.contains("@reference.call"));
}

#[test]
fn adapt_tslp_tags_drops_reference_class() {
    let src = "(object_creation_expression type: (identifier) @name) @reference.class\n\
               (call_expression function: (identifier) @name) @reference.call\n";
    let out = adapt_tslp_tags(src);
    assert!(!out.contains("@reference.class"));
    assert!(out.contains("@call.range"));
    assert!(out.contains("@call.callee"));
}

#[test]
fn adapt_tslp_tags_handles_multiline_patterns() {
    let src = "(struct_item\n    name: (type_identifier) @name) @definition.class\n";
    let out = adapt_tslp_tags(src);
    assert!(out.contains("@symbol.class"));
    assert!(out.contains("@symbol.name"));
}

#[test]
fn patterns_split_at_the_top_level_only() {
    let src = "(a (b) @x) @y ; a ( comment\n[(c) (d)] @z \"(\"";
    assert_eq!(split_top_level_patterns(src), ["(a (b) @x) @y", "(c)", "(d)"]);
}

#[test]
fn a_root_capture_may_stand_on_the_next_line() {
    assert_eq!(split_top_level_patterns("(a)\n@definition.x"), ["(a)\n@definition.x"]);
    assert_eq!(split_top_level_patterns("(a) \r\n\t@definition.x (b)"), ["(a) \r\n\t@definition.x", "(b)"]);
    let out = adapt_tslp_tags("(a)\n@definition.x");
    assert_eq!(extract_section(&out, "symbols").unwrap(), "(a)\n@symbol.x\n\n");
}

#[test]
fn only_captures_are_rewritten() {
    assert_eq!(rewrite_pattern("(a (#eq? @n \"é\"))", PatternKind::Definition), "(a (#eq? @n \"é\"))\n");
    assert_eq!(
        rewrite_pattern("(ß name: (i) @name) @definition.größe", PatternKind::Definition),
        "(ß name: (i) @symbol.name) @symbol.größe\n"
    );
    assert_eq!(rewrite_capture("reference.call", PatternKind::ReferenceCall), "call.range");
    assert!(matches!(classify_pattern("(a (b) @name) @reference.call"), PatternKind::ReferenceCall));
}

#[test]
fn adapted_sections_are_those_of_the_patterns() {
    let out = adapt_tslp_tags("(a) @reference.call\n(b) @reference.class\n");
    assert!(extract_section(&out, "symbols").is_none());
    assert!(extract_section(&out, "calls").is_some());
    assert!(extract_section(&out, "implementations").is_none());
    assert!(extract_section(&out, "imports").is_none());
    assert!(extract_section(&out, "docs").is_none());
}

#[test]
fn captures_are_classified_by_name() {
    assert!(matches!(classify_capture("definition.method"), PatternKind::Definition));
    assert!(matches!(classify_capture("reference.call"), PatternKind::ReferenceCall));
    assert!(matches!(classify_capture("reference.implementation"), PatternKind::ReferenceImplementation));
    assert!(matches!(classify_capture("name"), PatternKind::Other));
}

#[test]
fn override_sections_win_over_tags() {
    let file = ";; section: symbols\n(own) @symbol.name\n";
    let tags = "(f name: (i) @name) @definition.function\n";
    let own = query_source(Some(file), Some(tags), QueryKind::Symbols).unwrap();
    assert!(own.contains("(own)"));
    let adapted = query_source(None, Some(tags), QueryKind::Symbols).unwrap();
    assert!(adapted.contains("@symbol.function"));
    assert!(combined_l1_source(Some(file), None).is_some());
}

#[test]
fn a_missing_query_is_an_error() {
    let e = required_query_source("json", QueryKind::Symbols, None).unwrap_err();
    assert!(e.message().contains("json"));
    assert!(required_query_source("rust", QueryKind::Calls, Some("(x)".to_string())).is_ok());
}

#[test]
fn query_kinds_have_names() {
    assert_eq!(QueryKind::Symbols.name(), "symbols");
    assert_eq!(QueryKind::Imports.name(), "imports");
    assert_eq!(QueryKind::Calls.name(), "calls");
    assert_eq!(QueryKind::Docs.name(), "docs");
    assert_eq!(QueryKind::Implementations.name(), "implementations");
}

#[test]
fn offline_values() {
    assert!(!offline_requested(None));
    assert!(offline_requested(Some("1")));
    assert!(!offline_requested(Some("0")));
    assert!(!offline_requested(Some("")));
}

#[test]
fn a_complete_cache_downloads_nothing() {
    let installed: Vec<String> = override_languages().iter().map(|s| s.to_string()).collect();
    let plan: BootstrapPlan = plan_bootstrap(&installed, true).unwrap();
    assert!(plan.missing.is_empty());
    let refused = plan_bootstrap(&["rust".to_string()], true).err().unwrap();
    assert!(refused.message().contains("offline mode: missing grammars [\"python\", \"typescript\""));
    assert_eq!(plan_bootstrap(&[], false).unwrap().missing.len(), 6);
}

#[test]
fn the_version_is_read_from_the_directory_name() {
    assert_eq!(version_from_dir_name("v1.12.5"), Some("1.12.5".to_string()));
    assert_eq!(version_from_dir_name("libs"), None);
}

#[test]
fn capture_names_are_classified_in_order() {
    let names = vec!["symbol.name".to_string(), "import.module".to_string(), "impl.range".to_string(), "whatever".to_string()];
    let classes = classify_captures(&names);
    assert_eq!(
        classes,
        vec![CaptureClass::Symbol, CaptureClass::Import, CaptureClass::Impl, CaptureClass::Other]
    );
}
