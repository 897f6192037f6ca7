use golab::imports::{extract_for_path, resolve, FileIndex};

fn index(files: &[&str]) -> FileIndex {
    FileIndex::new(files.iter().map(|s| s.to_string()).collect())
}

#[test]
fn typescript_relative_imports_resolve() {
    let idx = index(&["src/pay.ts", "src/ledger/index.ts", "src/util.tsx"]);
    assert_eq!(
        resolve("typescript", "src/app.ts", "./pay", &idx),
        vec!["src/pay.ts"]
    );
    assert_eq!(
        resolve("typescript", "src/app.ts", "./ledger", &idx),
        vec!["src/ledger/index.ts"]
    );
    assert_eq!(
        resolve("typescript", "src/deep/a.ts", "../util", &idx),
        vec!["src/util.tsx"]
    );
    // `./pay.js` in TypeScript source means pay.ts on disk.
    assert_eq!(
        resolve("typescript", "src/app.ts", "./pay.js", &idx),
        vec!["src/pay.ts"]
    );
    // Packages are not repo nodes.
    assert!(resolve("typescript", "src/app.ts", "react", &idx).is_empty());
}

#[test]
fn python_absolute_and_relative_imports_resolve() {
    let idx = index(&[
        "app/models.py",
        "app/services/pay.py",
        "app/services/__init__.py",
    ]);
    assert_eq!(
        resolve("python", "app/main.py", "app.models", &idx),
        vec!["app/models.py"]
    );
    assert_eq!(
        resolve("python", "app/services/pay.py", ".", &idx),
        Vec::<String>::new(),
        "a bare dot names the package, not a module"
    );
    assert_eq!(
        resolve("python", "app/services/pay.py", ".models", &idx),
        Vec::<String>::new()
    );
    assert_eq!(
        resolve("python", "app/services/other.py", "..models", &idx),
        vec!["app/models.py"]
    );
    assert!(resolve("python", "app/main.py", "os.path", &idx).is_empty());
}

#[test]
fn rust_mod_and_use_resolve() {
    let idx = index(&[
        "crates/core/src/lib.rs",
        "crates/core/src/pay.rs",
        "crates/core/src/ledger/mod.rs",
    ]);
    assert_eq!(
        resolve("rust", "crates/core/src/lib.rs", "pay", &idx),
        vec!["crates/core/src/pay.rs"]
    );
    assert_eq!(
        resolve("rust", "crates/core/src/lib.rs", "ledger", &idx),
        vec!["crates/core/src/ledger/mod.rs"]
    );
    assert_eq!(
        resolve("rust", "crates/core/src/pay.rs", "crate::ledger::Entry", &idx),
        vec!["crates/core/src/ledger/mod.rs"],
        "the trailing item name is not a module"
    );
    assert!(resolve("rust", "crates/core/src/pay.rs", "std::fmt::Debug", &idx).is_empty());
}

#[test]
fn go_imports_match_a_package_directory() {
    let idx = index(&["internal/pay/pay.go", "internal/pay/fees.go", "main.go"]);
    let mut hits = resolve("go", "main.go", "github.com/acme/svc/internal/pay", &idx);
    hits.sort();
    assert_eq!(hits, vec!["internal/pay/fees.go", "internal/pay/pay.go"]);
    assert!(resolve("go", "main.go", "fmt", &idx).is_empty());
}

#[test]
fn java_and_csharp_resolve_by_type_name_when_unambiguous() {
    let idx = index(&["src/Ledger.java", "src/Pay.java", "Other.cs"]);
    assert_eq!(
        resolve("java", "src/App.java", "com.acme.Ledger", &idx),
        vec!["src/Ledger.java"]
    );
    assert!(resolve("java", "src/App.java", "java.util.List", &idx).is_empty());
    assert_eq!(
        resolve("csharp", "App.cs", "Acme.Other", &idx),
        vec!["Other.cs"]
    );
}

#[test]
fn cpp_includes_resolve_relative_then_by_name() {
    let idx = index(&["src/pay.h", "src/pay.cpp", "include/ledger.h"]);
    assert_eq!(
        resolve("cpp", "src/pay.cpp", "pay.h", &idx),
        vec!["src/pay.h"]
    );
    assert_eq!(
        resolve("cpp", "src/pay.cpp", "ledger.h", &idx),
        vec!["include/ledger.h"]
    );
    assert!(resolve("cpp", "src/pay.cpp", "vector", &idx).is_empty());
}

#[test]
fn extraction_finds_specifiers_across_languages() {
    let cases: &[(&str, &[u8], &[&str])] = &[
        (
            "a.ts",
            b"import { charge } from './pay';\nimport React from 'react';\nconst x = require('./util');\n",
            &["./pay", "react", "./util"],
        ),
        (
            "a.py",
            b"import os\nfrom app.models import User\nfrom . import sibling\n",
            &["os", "app.models"],
        ),
        (
            "a.rs",
            b"mod pay;\nuse crate::ledger::Entry;\n",
            &["pay", "crate::ledger::Entry"],
        ),
        (
            "a.go",
            b"package main\nimport (\n  \"fmt\"\n  \"acme/pay\"\n)\n",
            &["fmt", "acme/pay"],
        ),
        ("a.java", b"import com.acme.Ledger;\n", &["com.acme.Ledger"]),
        ("a.cs", b"using Acme.Ledger;\n", &["Acme.Ledger"]),
        ("a.cpp", b"#include \"pay.h\"\n#include <vector>\n", &["pay.h", "vector"]),
    ];
    for (path, src, expected) in cases {
        let found: Vec<String> = extract_for_path(path, src)
            .into_iter()
            .map(|i| i.specifier)
            .collect();
        for want in *expected {
            assert!(found.contains(&want.to_string()), "{path}: {found:?}");
        }
    }
}

#[test]
fn a_plain_call_with_a_string_argument_is_not_an_import() {
    let found = extract_for_path("a.ts", b"log('./not-an-import');\n");
    assert!(found.is_empty(), "{found:?}");
}
