use golab::lang::{all, for_path};

#[test]
fn every_grammar_compiles_its_query() {
    for spec in all() {
        let q = spec.query().unwrap_or_else(|e| panic!("{}: {e}", spec.name));
        assert!(q.pattern_count() > 0, "{} has no patterns", spec.name);
    }
}

#[test]
fn extension_routing() {
    assert_eq!(for_path("src/a/b.ts").unwrap().name, "typescript");
    assert_eq!(for_path("App.tsx").unwrap().name, "tsx");
    assert_eq!(for_path("main.RS").unwrap().name, "rust");
    assert!(for_path("Makefile").is_none());
}
