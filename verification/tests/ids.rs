use golab::ids::{symbol_id, unique_id, DEFAULT_REPO_ID};
use golab::model::SymbolKind;

#[test]
fn symbol_ids_are_identity_not_content() {
    let a = symbol_id(DEFAULT_REPO_ID, "src/pay.ts", SymbolKind::Function, "processPayment", 0);
    let b = symbol_id(DEFAULT_REPO_ID, "src/pay.ts", SymbolKind::Function, "processPayment", 0);
    assert_eq!(a, b);
    assert_ne!(a, symbol_id(DEFAULT_REPO_ID, "src/pay.ts", SymbolKind::Method, "processPayment", 0));
    assert_ne!(a, symbol_id(DEFAULT_REPO_ID, "src/other.ts", SymbolKind::Function, "processPayment", 0));
    assert_ne!(a, symbol_id(DEFAULT_REPO_ID, "src/pay.ts", SymbolKind::Function, "processPayment", 1));
}

#[test]
fn symbol_id_differs_by_repo_id_alone() {
    let a = symbol_id("R1", "src/pay.ts", SymbolKind::Function, "processPayment", 0);
    let b = symbol_id("R2", "src/pay.ts", SymbolKind::Function, "processPayment", 0);
    assert_ne!(a, b, "two repos with an identical relative path must not collide");
}

#[test]
fn unique_ids_do_not_collide() {
    let ids: std::collections::HashSet<_> = (0..1000).map(|n| unique_id("l", 1_700_000_000_000_000_000, n, 4321)).collect();
    assert_eq!(ids.len(), 1000);
}
