use golab::parse::{parse_path, ParsedFile};

fn names(pf: &ParsedFile) -> Vec<String> {
    let mut v: Vec<_> = pf
        .symbols
        .iter()
        .map(|s| format!("{}:{}", s.kind.as_str(), s.fqn))
        .collect();
    v.sort();
    v
}

#[test]
fn typescript_class_methods_and_arrow_consts() {
    let src = br#"
export class PaymentService {
  async processPayment(id: string) {
    return this.charge(id);
  }
  charge(id: string) { return 1; }
}

export const refund = async (id: string) => {
  return processPayment(id);
};

function processPayment(id: string) { return 0; }
"#;
    let pf = parse_path("src/pay.ts", src).unwrap();
    let n = names(&pf);
    assert!(n.contains(&"class:PaymentService".to_string()), "{n:?}");
    assert!(
        n.contains(&"method:PaymentService.processPayment".to_string()),
        "{n:?}"
    );
    assert!(n.contains(&"function:refund".to_string()), "{n:?}");
    assert!(n.contains(&"function:processPayment".to_string()), "{n:?}");

    // `refund` calls processPayment -> that edge must be attributed to refund.
    let refund_idx = pf.symbols.iter().position(|s| s.fqn == "refund").unwrap();
    assert!(pf
        .refs
        .iter()
        .any(|r| r.name == "processPayment" && r.from == Some(refund_idx)));
}

#[test]
fn python_nested_scopes() {
    let src = br#"
class Ledger:
    def post(self, entry):
        return self.validate(entry)

    def validate(self, entry):
        return True

def post(entry):
    return None
"#;
    let pf = parse_path("ledger.py", src).unwrap();
    let n = names(&pf);
    assert!(n.contains(&"class:Ledger".to_string()), "{n:?}");
    assert!(n.contains(&"function:Ledger.post".to_string()), "{n:?}");
    assert!(n.contains(&"function:post".to_string()), "{n:?}");
}

/// Rust methods must be scoped to their `impl` type, otherwise
/// `Wallet::balance` and a free `balance()` are indistinguishable.
#[test]
fn rust_impl_blocks_are_scopes() {
    let src = br#"
pub struct Wallet;

impl Wallet {
    pub fn balance(&self) -> u64 { self.raw() }
    fn raw(&self) -> u64 { 0 }
}

impl Ledger<T> {
    pub fn balance(&self) -> u64 { 1 }
}

pub fn balance() -> u64 { 0 }
"#;
    let pf = parse_path("wallet.rs", src).unwrap();
    let n = names(&pf);
    assert!(n.contains(&"function:Wallet.balance".to_string()), "{n:?}");
    assert!(n.contains(&"function:Wallet.raw".to_string()), "{n:?}");
    assert!(n.contains(&"function:Ledger.balance".to_string()), "{n:?}");
    assert!(n.contains(&"function:balance".to_string()), "{n:?}");
}

#[test]
fn same_name_siblings_get_distinct_disambiguators() {
    let src = br#"
def handler():
    pass

def handler():
    pass
"#;
    let pf = parse_path("dup.py", src).unwrap();
    let handlers: Vec<_> = pf.symbols.iter().filter(|s| s.name == "handler").collect();
    assert_eq!(handlers.len(), 2);
    assert_ne!(handlers[0].disambiguator, handlers[1].disambiguator);
}

/// Each supported grammar must find both a container and a callable in a
/// canonical snippet; otherwise leasing that language is a lie.
#[test]
fn every_language_extracts_symbols() {
    let cases: &[(&str, &[u8], &[&str])] = &[
        (
            "a.rs",
            b"struct Wallet;\nimpl Wallet { fn balance(&self) -> u64 { 0 } }\n",
            &["Wallet", "balance"],
        ),
        (
            "a.ts",
            b"export class Svc { pay(x: number) { return x; } }\nexport function top() {}\n",
            &["Svc", "pay", "top"],
        ),
        (
            "a.tsx",
            b"export class Svc { pay(x: number) { return x; } }\nexport function top() {}\n",
            &["Svc", "pay", "top"],
        ),
        (
            "a.js",
            b"class Svc { pay(x) { return x; } }\nfunction top() {}\n",
            &["Svc", "pay", "top"],
        ),
        (
            "a.py",
            b"class Svc:\n    def pay(self, x):\n        return x\n\ndef top():\n    pass\n",
            &["Svc", "pay", "top"],
        ),
        (
            "a.go",
            b"package main\ntype Svc struct{}\nfunc (s Svc) Pay() int { return 0 }\nfunc Top() {}\n",
            &["Svc", "Pay", "Top"],
        ),
        (
            "a.java",
            b"class Svc { int pay(int x) { return x; } }\n",
            &["Svc", "pay"],
        ),
        (
            "a.cs",
            b"class Svc { int Pay(int x) { return x; } }\n",
            &["Svc", "Pay"],
        ),
        (
            "a.cpp",
            b"class Svc { public: int pay(int x); };\nint top() { return 0; }\n",
            &["Svc", "pay", "top"],
        ),
    ];

    for (path, src, expected) in cases {
        let pf = parse_path(path, src).unwrap_or_else(|e| panic!("{path}: {e:?}"));
        let found: Vec<&str> = pf.symbols.iter().map(|s| s.name.as_str()).collect();
        for want in *expected {
            assert!(found.contains(want), "{path}: missing {want} in {found:?}");
        }
    }
}

#[test]
fn body_hash_tracks_content() {
    let a = parse_path("a.py", b"def f():\n    return 1\n").unwrap();
    let b = parse_path("a.py", b"def f():\n    return 2\n").unwrap();
    assert_ne!(a.symbols[0].body_hash, b.symbols[0].body_hash);
    assert_eq!(a.symbols[0].fqn, b.symbols[0].fqn);
}

#[test]
fn own_hash_ignores_nested_symbols() {
    let before = parse_path(
        "a.py",
        b"class C:\n    def m(self):\n        return 1\n",
    )
    .unwrap();
    let after = parse_path(
        "a.py",
        b"class C:\n    def m(self):\n        return 2\n",
    )
    .unwrap();

    let c_before = before.symbols.iter().find(|s| s.name == "C").unwrap();
    let c_after = after.symbols.iter().find(|s| s.name == "C").unwrap();
    assert_ne!(c_before.body_hash, c_after.body_hash, "body includes the method");
    assert_eq!(
        c_before.own_hash, c_after.own_hash,
        "editing a method must not count as editing its class"
    );

    let m_before = before.symbols.iter().find(|s| s.name == "m").unwrap();
    let m_after = after.symbols.iter().find(|s| s.name == "m").unwrap();
    assert_ne!(m_before.own_hash, m_after.own_hash);
}

#[test]
fn file_own_hash_tracks_top_level_only() {
    let a = parse_path("a.py", b"import os\n\ndef f():\n    return 1\n").unwrap();
    let b = parse_path("a.py", b"import os\n\ndef f():\n    return 2\n").unwrap();
    let c = parse_path("a.py", b"import sys\n\ndef f():\n    return 1\n").unwrap();
    assert_eq!(a.own_hash, b.own_hash, "a function body is not the file");
    assert_ne!(a.own_hash, c.own_hash, "changed imports are a file-level edit");
}
