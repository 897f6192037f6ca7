use golab::sql::{referenced, tables};

fn names(src: &[u8]) -> Vec<String> {
    tables(src).into_iter().map(|t| t.name).collect()
}

#[test]
fn ddl_defines_tables() {
    let src = br#"
CREATE TABLE payments (
  id UUID PRIMARY KEY,
  amount INTEGER NOT NULL
);

CREATE TABLE IF NOT EXISTS ledger_entries (id UUID);

ALTER TABLE payments ADD COLUMN currency TEXT;
"#;
    assert_eq!(names(src), vec!["payments", "ledger_entries"]);
    assert_eq!(tables(src)[0].statement, "CREATE TABLE");
}

#[test]
fn a_migration_that_only_alters_still_registers_the_table() {
    let src = b"ALTER TABLE audit_log ADD COLUMN actor TEXT;\n";
    let t = tables(src);
    assert_eq!(t[0].name, "audit_log");
    assert_eq!(t[0].statement, "ALTER TABLE");
}

#[test]
fn schema_qualifiers_and_quoting_are_normalised() {
    let src = br#"CREATE TABLE "public"."Payments" (id INT);"#;
    assert_eq!(names(src), vec!["payments"]);
}

#[test]
fn code_references_are_matched_against_known_tables_only() {
    let known: Vec<String> = ["payments", "ledger_entries"]
        .iter()
        .map(|s| s.to_string())
        .collect();

    let code = r#"
        const rows = await db.query("SELECT * FROM payments WHERE id = $1", [id]);
        await db.query("INSERT INTO ledger_entries (id) VALUES ($1)", [id]);
        "#;
    let hit = referenced(code, &known);
    assert!(hit.contains(&"payments".to_string()));
    assert!(hit.contains(&"ledger_entries".to_string()));

    // A Python import is not a database read, even though it says "from".
    assert!(referenced("from collections import OrderedDict", &known).is_empty());
    // Nor is an unrelated table.
    assert!(referenced("SELECT * FROM sessions", &known).is_empty());
}

#[test]
fn joins_and_updates_count_as_references() {
    let known: Vec<String> = ["payments", "users"].iter().map(|s| s.to_string()).collect();
    let hit = referenced(
        "UPDATE payments SET x = 1; SELECT * FROM a JOIN users ON a.id = users.id",
        &known,
    );
    assert_eq!(hit.len(), 2);
}
