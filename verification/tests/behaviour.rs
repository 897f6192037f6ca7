//! Each promise once, on concrete values.

use golab::command::{body_or_text, first_line, git_hook_script, mcp_args, Exit, Targets};
use golab::depends::{find_cycles, leads_to};
use golab::hooks::{answer_start, brief, edit_window, BriefTask, Briefing, Note, BLOCKED, EDITING};
use golab::ids::{content_hash, file_symbol_id, millis_or_zero, symbol_id, unique_id};
use golab::imports::{crate_root, join, normalize, parent_dir, stem_dir, unquote};
use golab::index::{parent_service, service_for, Service};
use golab::json::Json;
use golab::lease::{AcquireOptions, QUEUE_ABANDON_MS};
use golab::model::{
    AcquireOutcome, ConflictRelation, EdgeKind, LeaseState, Repo, Role, SymbolKind, TaskState,
};
use golab::order::{dedup_texts, sort_texts};
use golab::parse::{build, def_kind, elided_hash, parse_path, ref_kind, ParseError, RawDef, RawRef};
use golab::protocol::{merge, Direction, NewRequest};
use golab::repo::qualified_handle;
use golab::request_kind;
use golab::scan::{is_indexable, is_skipped, relative_path, scan, Found, ScanInput, ScanStats, SourceFile};
use golab::sql::{is_sql_path, tables};
use golab::store::{ErrorKind, Link, Store, Tick};
use golab::text;
use golab::walk::find_loops;
use golab::workspace::{db_path, directories, find_workspace, parent_path, strip_verbatim};

const START: i64 = 1_700_000_000_000;

fn at(now: i64) -> Tick {
    Tick { now, nanos: now as u64 * 1_000_000, pid: 7 }
}

fn some(s: &str) -> Option<String> {
    Some(s.to_string())
}

fn list(items: &[&str]) -> Vec<String> {
    items.iter().map(|s| s.to_string()).collect()
}

fn file(path: &str, body: &str) -> SourceFile {
    SourceFile {
        path: path.to_string(),
        bytes: Some(body.as_bytes().to_vec()),
        tests: Vec::new(),
        endpoints: Vec::new(),
        test_file: false,
    }
}

fn look(store: &mut Store, files: &[(&str, &str)], now: i64) -> ScanStats {
    let input = ScanInput {
        services: Some(Vec::new()),
        sql: Vec::new(),
        sources: files.iter().map(|(p, b)| file(p, b)).collect(),
    };
    scan(store, "R1", &input, false, now)
}

const CLASS: &str = "export class Bank {\n  pay(x: number) { return x; }\n  refund(x: number) { return -x; }\n}\nexport function audit() { return 3; }\n";

fn bank() -> Store {
    let mut store = Store::new();
    store.ensure_default_repo(START);
    look(&mut store, &[("src/bank.ts", CLASS)], START);
    store.register_agent("ann", "cursor", START);
    store.register_agent("ben", "cursor", START);
    store
}

fn ttl(secs: i64) -> AcquireOptions {
    AcquireOptions { ttl_secs: secs, ..Default::default() }
}

fn take(store: &mut Store, query: &str, agent: &str, now: i64) -> AcquireOutcome {
    store.acquire_ref(query, agent, &ttl(300), at(now)).unwrap().outcome
}

fn lease_id(outcome: &AcquireOutcome) -> String {
    outcome.lease().unwrap().id.clone()
}

// ------------------------------------------------------------------------- texts

#[test]
fn blanks_are_what_unicode_says() {
    assert_eq!(text::trim("\u{2003} a b\t\u{a0}"), "a b");
    assert_eq!(text::words_of(" a \u{2003}b\n"), list(&["a", "b"]));
    let blanks = [
        9u32, 10, 11, 12, 13, 0x20, 0x85, 0xa0, 0x1680, 0x2000, 0x2001, 0x2002, 0x2003, 0x2004, 0x2005, 0x2006,
        0x2007, 0x2008, 0x2009, 0x200a, 0x2028, 0x2029, 0x202f, 0x205f, 0x3000,
    ];
    for n in 0..0x11_0000u32 {
        if let Some(c) = char::from_u32(n) {
            assert_eq!(text::trim(&c.to_string()).is_empty(), blanks.contains(&n), "{n:x}");
            assert_eq!(c.is_whitespace(), blanks.contains(&n), "{n:x}");
        }
    }
}

#[test]
fn splitting_and_joining_undo_each_other() {
    let parts = text::split_on("a//b", '/');
    assert_eq!(parts, list(&["a", "", "b"]));
    assert_eq!(text::join_with(&parts, "/"), "a//b");
    assert_eq!(text::split_on_text("a::b::c", "::"), list(&["a", "b", "c"]));
}

#[test]
fn pieces_of_a_text_are_found() {
    assert_eq!(text::find("abcabc", "ca"), Some(2));
    assert_eq!(text::find("abc", "x"), None);
    assert!(text::contains("abc", ""));
    assert_eq!(text::last_piece("a.b.c", '.'), "c");
    assert_eq!(text::up_to_last("a.b.c", '.').as_deref(), Some("a.b"));
    assert_eq!(text::without_prefix("repo/x", "repo/").as_deref(), Some("x"));
    assert_eq!(text::without_suffix("a.ts", ".js"), None);
    assert_eq!(text::trim_of("\"[x]\"", "\"[]"), "x");
}

#[test]
fn numbers_are_written_in_tens() {
    assert_eq!(text::decimal_of(0), "0");
    assert_eq!(text::decimal_of(120), "120");
    assert_eq!(text::decimal_of_signed(-7), "-7");
    assert_eq!(text::decimal_of_signed(i64::MIN), "-9223372036854775808");
}

#[test]
fn texts_are_ordered_like_their_characters() {
    assert!(text::comes_before("a", "b"));
    assert!(text::comes_before("a", "aa"));
    assert!(!text::comes_before("b", "aa"));
    assert_eq!(sort_texts(list(&["b", "a", "b"])), list(&["a", "b", "b"]));
    assert_eq!(dedup_texts(&list(&["a", "b", "b"])), list(&["a", "b"]));
}

// --------------------------------------------------------------------------- ids

#[test]
fn a_hash_is_the_one_of_blake3() {
    assert_eq!(content_hash(b""), "af1349b9f5f9a1a6");
    assert_eq!(content_hash(b"golab"), blake3::hash(b"golab").to_hex().as_str()[..16]);
}

#[test]
fn a_symbol_id_is_the_hash_of_its_identity() {
    let mut whole: Vec<u8> = b"golab.symbol.v2\0R1\0src/a.ts\0function\0f\0".to_vec();
    whole.extend_from_slice(&3u32.to_le_bytes());
    let id = symbol_id("R1", "src/a.ts", SymbolKind::Function, "f", 3);
    let hex = blake3::hash(&whole).to_hex();
    assert!(id.starts_with("s_"));
    assert!(hex.as_str().starts_with(&id[2..]));
    assert_ne!(file_symbol_id("R1", "a"), file_symbol_id("R2", "a"));
}

#[test]
fn an_object_id_is_the_hash_of_when_and_where() {
    let mut whole: Vec<u8> = 5u64.to_le_bytes().to_vec();
    whole.extend_from_slice(&6u64.to_le_bytes());
    whole.extend_from_slice(&7u32.to_le_bytes());
    let hex = blake3::hash(&whole).to_hex();
    assert_eq!(unique_id("lease", 5, 6, 7), format!("lease_{}", &hex.as_str()[..12]));
}

#[test]
fn a_clock_before_the_epoch_counts_as_zero() {
    assert_eq!(millis_or_zero(None), 0);
    assert_eq!(millis_or_zero(Some(12)), 12);
    assert!(golab::ids::now_ms() > START);
}

// ----------------------------------------------------------------------- parsing

#[test]
fn capture_names_say_what_was_found() {
    assert_eq!(def_kind("definition.class"), Some(SymbolKind::Class));
    assert_eq!(def_kind("name"), None);
    assert_eq!(ref_kind("reference.call"), Some(EdgeKind::Calls));
    assert_eq!(ref_kind("definition.class"), None);
}

#[test]
fn a_file_of_no_language_is_not_parsed() {
    assert!(matches!(parse_path("Makefile", b"all:\n"), Err(ParseError::NoGrammar)));
}

#[test]
fn nested_symbols_carry_the_names_around_them() {
    let parsed = parse_path("src/bank.ts", CLASS.as_bytes()).unwrap();
    let class = parsed.symbols.iter().position(|s| s.name == "Bank").unwrap();
    let pay = parsed.symbols.iter().find(|s| s.name == "pay").unwrap();
    assert_eq!(pay.fqn, "Bank.pay");
    assert_eq!(pay.parent, Some(class));
}

// ----------------------------------------------------------------------- imports

#[test]
fn paths_are_normalised() {
    assert_eq!(normalize("a/./b/../c"), "a/c");
    assert_eq!(normalize(&normalize("a/./b/../c")), "a/c");
    assert_eq!(parent_dir("src/a/b.ts"), "src/a");
    assert_eq!(parent_dir("b.ts"), "");
    assert_eq!(join("", "x"), "x");
    assert_eq!(join("a", "x"), "a/x");
    assert_eq!(stem_dir("src/pay.rs"), "src/pay");
    assert_eq!(crate_root("crates/core/src/pay.rs"), "crates/core/src");
    assert_eq!(unquote("'./x'"), "./x");
}

// --------------------------------------------------------------------------- sql

#[test]
fn a_definition_wins_over_a_later_change() {
    let found = tables(b"ALTER TABLE t ADD x INT;\nCREATE TABLE t (id INT);\n");
    assert_eq!(found.len(), 1);
    assert_eq!(found[0].name, "t");
    assert_eq!(found[0].statement, "CREATE TABLE");
    assert!(tables(&[0xff, 0xfe]).is_empty(), "bytes that are no text hold no tables");
    assert!(is_sql_path("db/SCHEMA.SQL"));
    assert!(!is_sql_path("db/schema.py"));
}

#[test]
fn a_statement_creates_or_alters() {
    let found = tables(b"create  table if not exists a (id INT);\nDROP TABLE IF EXISTS b;\nalter table c ADD x INT;\n");
    let said: Vec<(&str, &str)> = found.iter().map(|t| (t.name.as_str(), t.statement.as_str())).collect();
    assert_eq!(said, [("a", "CREATE TABLE"), ("b", "ALTER TABLE"), ("c", "ALTER TABLE")]);
}

#[test]
fn a_reference_goes_to_the_innermost_of_two_that_start_together() {
    let def = |name: &str, start: usize, end: usize| RawDef {
        kind: SymbolKind::Function,
        name: name.to_string(),
        start_byte: start,
        end_byte: end,
        start_line: 0,
        end_line: 0,
    };
    let call = |start: usize, end: usize| RawRef { name: "f".to_string(), kind: EdgeKind::Calls, start_byte: start, end_byte: end };
    let source = [b'x'; 20];
    let file = build("rust", vec![def("inner", 0, 10), def("outer", 0, 20)], &vec![call(2, 3), call(12, 13)], &source);
    assert_eq!(file.symbols[0].name, "outer");
    assert_eq!(file.refs[0].from, Some(1));
    assert_eq!(file.refs[1].from, Some(0));
}

// ------------------------------------------------------------------------ leases

#[test]
fn the_first_in_line_is_served_first() {
    let mut store = bank();
    take(&mut store, "audit", "cid", START);
    let id = store.resolve("audit").unwrap().id;
    assert!(!take(&mut store, "audit", "ann", START + 1).is_granted());
    assert!(!take(&mut store, "audit", "ben", START + 2).is_granted());
    store.release_all("cid", START + 3);
    match take(&mut store, "audit", "ben", START + 4) {
        AcquireOutcome::Denied { conflicts } => {
            assert_eq!(conflicts.len(), 1);
            assert_eq!(conflicts[0].relation.as_str(), "queued");
            assert_eq!(conflicts[0].holder, "ann");
        }
        other => panic!("{other:?}"),
    }
    assert!(take(&mut store, "audit", "ann", START + 5).is_granted());
    assert!(store.queue_for(&id).iter().all(|q| q.agent != "ann"));
}

#[test]
fn lesser_claims_and_those_who_left_do_not_hold_up_the_line() {
    let mut store = bank();
    take(&mut store, "audit", "cid", START);
    let id = store.resolve("audit").unwrap().id;
    assert!(!take(&mut store, "audit", "eve", START + 1).is_granted(), "eve asks once and is gone");
    let low = AcquireOptions { priority: -1, ..ttl(300) };
    let late = START + QUEUE_ABANDON_MS + 100;
    assert!(!store.acquire(&id, "dan", &low, at(late)).unwrap().is_granted());
    assert!(!take(&mut store, "audit", "ann", late + 1).is_granted());
    assert!(!take(&mut store, "audit", "ben", late + 2).is_granted());
    store.release_all("cid", late + 3);
    match take(&mut store, "audit", "ben", late + 4) {
        AcquireOutcome::Denied { conflicts } => {
            assert_eq!(conflicts[0].relation, ConflictRelation::Queued);
            assert_eq!(conflicts[0].holder, "ann");
        }
        other => panic!("{other:?}"),
    }
    assert!(take(&mut store, "audit", "ann", late + 5).is_granted());
    let left: Vec<String> = store.queue_for(&id).into_iter().map(|q| q.agent).collect();
    assert_eq!(left, list(&["ben", "dan"]));
}

#[test]
fn finishing_a_task_answers_whoever_waits_for_it() {
    let mut store = bank();
    let task = store.add_task("pay", 0, &Vec::new(), START).unwrap();
    let other = store.add_task("refund", 0, &Vec::new(), START).unwrap();
    let ask = store.depend("ben", &task.id, &some("ann"), &None, 60, at(START + 1)).unwrap();
    let rest = store.depend("ben", &other.id, &some("ann"), &None, 60, at(START + 2)).unwrap();
    store.set_task_state(&task.id, TaskState::Done, &None, &None, false, START + 3).unwrap();
    assert_eq!(store.request(&ask.id).unwrap().state.as_str(), "fulfilled");
    assert!(store.request(&rest.id).unwrap().state.is_live());
}

#[test]
fn where_nothing_is_handed_out_nothing_changes() {
    let mut store = bank();
    let task = store.add_task("pay", 0, &Vec::new(), START).unwrap();
    store.set_task_scope(&task.id, &list(&["audit"]), START).unwrap();
    take(&mut store, "audit", "ann", START + 1);
    let before = store.clone();
    assert!(store.claim_next("ben", 60, at(START + 2)).unwrap().is_none());
    assert_eq!(store.events.len(), before.events.len());
    assert_eq!(store.leases.len(), before.leases.len());
    assert_eq!(store.queue.len(), before.queue.len());
    assert_eq!(store.task(&task.id).unwrap().task.state, TaskState::Pending);
}

#[test]
fn each_startable_task_is_counted_by_itself() {
    let mut store = bank();
    for title in ["pay", "refund"] {
        let task = store.add_task(title, 0, &Vec::new(), START).unwrap();
        store.set_task_scope(&task.id, &list(&["audit"]), START).unwrap();
    }
    assert_eq!(store.plan(START + 1).startable_now, 2);
}

#[test]
fn spans_may_come_in_any_order() {
    let source = b"a{bb}c{dd}e";
    let spans = vec![(1, 5), (6, 10)];
    let turned = vec![(6, 10), (1, 5)];
    let hash = elided_hash(source, 0, source.len(), &spans);
    assert_eq!(hash, content_hash(b"a\x00<nested>\x00c\x00<nested>\x00e"));
    assert_eq!(elided_hash(source, 0, source.len(), &turned), hash);
}

#[test]
fn events_after_one_come_in_order() {
    let mut store = bank();
    let last = store.recent_events(1).pop().map_or(0, |e| e.id);
    take(&mut store, "audit", "ann", START + 1);
    store.release_all("ann", START + 2);
    let kinds: Vec<String> = store.events_since(last, 10).into_iter().map(|e| e.kind).collect();
    assert_eq!(kinds, list(&["lease.acquired", "lease.released"]));
    assert_eq!(store.events_since(last, 1).len(), 1);
}

#[test]
fn a_store_whose_leases_share_an_id_is_unsound() {
    let mut store = bank();
    take(&mut store, "audit", "ann", START);
    assert!(store.check());
    let twin = store.leases[0].clone();
    store.leases.push(twin);
    assert!(!store.check());
}

#[test]
fn a_notice_is_for_its_addressee_and_not_for_its_sender() {
    let mut store = bank();
    asked(&mut store);
    assert_eq!(store.notifications(&some("ann"), 10, START + 9).iter().filter(|n| n.request.is_some()).count(), 1);
    assert_eq!(store.notifications(&some("ben"), 10, START + 9).iter().filter(|n| n.request.is_some()).count(), 0);
}

#[test]
fn a_shown_symbol_lists_what_is_in_it() {
    let store = bank();
    let shown = store.show("Bank").unwrap();
    let names: Vec<&str> = shown.children.iter().map(|c| c.name.as_str()).collect();
    assert_eq!(names, ["pay", "refund"]);
}

#[test]
fn a_denied_request_takes_nothing() {
    let mut store = bank();
    take(&mut store, "audit", "ann", START + 1);
    let before = store.active_leases(&None).len();
    assert!(!take(&mut store, "audit", "ben", START + 2).is_granted());
    assert_eq!(store.active_leases(&None).len(), before);
    assert_eq!(store.active_leases(&some("ben")).len(), 0);
}

#[test]
fn leases_run_out_once() {
    let mut store = bank();
    store.acquire_ref("audit", "ann", &ttl(1), at(START)).unwrap();
    assert_eq!(store.expire_due(START + 999), 0);
    assert_eq!(store.expire_due(START + 1_000), 1);
    assert_eq!(store.expire_due(START + 1_000), 0, "expiring again changes nothing");
    assert_eq!(store.lease_history(5)[0].state, LeaseState::Expired);
}

#[test]
fn the_line_is_by_priority_and_then_by_arrival() {
    let mut store = bank();
    take(&mut store, "audit", "ann", START);
    let id = store.resolve("audit").unwrap().id;
    for (agent, priority) in [("low", 1), ("late", 5), ("later", 5)] {
        let opts = AcquireOptions { priority, ..Default::default() };
        store.acquire(&id, agent, &opts, at(START + 1)).unwrap();
    }
    let line: Vec<String> = store.queue_for(&id).into_iter().map(|q| q.agent).collect();
    assert_eq!(line, list(&["late", "later", "low"]));
    // Polling keeps the place.
    let opts = AcquireOptions { priority: 5, ..Default::default() };
    store.acquire(&id, "late", &opts, at(START + 500)).unwrap();
    assert_eq!(store.queue_for(&id)[0].agent, "late");
    assert_eq!(store.waiting_count(), 3);
    assert_eq!(store.dequeue("low", &id), 1);
    assert_eq!(store.waiting_count(), 2);
}

#[test]
fn a_waiter_who_stopped_polling_loses_their_place() {
    let mut store = bank();
    let lease = lease_id(&take(&mut store, "audit", "ann", START));
    take(&mut store, "audit", "ben", START + 1);
    store.release(&lease, "ann", START + 2).unwrap();
    let late = START + 3 + QUEUE_ABANDON_MS;
    assert!(take(&mut store, "audit", "cid", late).is_granted());
}

#[test]
fn a_heartbeat_renews_only_ones_own() {
    let mut store = bank();
    take(&mut store, "Bank.pay", "ann", START);
    take(&mut store, "Bank.refund", "ben", START);
    let renewed = store.heartbeat("ann", &None, START + 5_000);
    assert_eq!(renewed.len(), 1);
    assert_eq!(renewed[0].expires_at, START + 5_000 + 300_000);
    assert_eq!(store.active_leases(&some("ben"))[0].expires_at, START + 300_000);
    assert_eq!(renewed[0].seconds_left(START + 5_000), 300);
}

#[test]
fn a_lease_ends_only_by_its_owner_and_once() {
    let mut store = bank();
    let id = lease_id(&take(&mut store, "audit", "ann", START));
    let err = store.release(&id, "ben", START + 1).unwrap_err();
    assert_eq!(err.kind, ErrorKind::WrongOwner);
    assert_eq!(err.text, format!("lease {id} belongs to ann, not ben"));
    store.release(&id, "ann", START + 2).unwrap();
    let err = store.release(&id, "ann", START + 3).unwrap_err();
    assert_eq!(err.kind, ErrorKind::LeaseOver);
    assert_eq!(err.text, format!("lease {id} is already released"));
    assert_eq!(store.release("lease_x", "ann", START).unwrap_err().kind, ErrorKind::NoSuchLease);
}

#[test]
fn a_lease_cannot_be_handed_to_its_holder() {
    let mut store = bank();
    let id = lease_id(&take(&mut store, "audit", "ann", START));
    let err = store.transfer_lease(&id, "ann", "ann", START + 1).unwrap_err();
    assert_eq!(err.kind, ErrorKind::AlreadyHolds);
    let err = store.transfer_lease(&id, "ben", "cid", START + 1).unwrap_err();
    assert_eq!(err.kind, ErrorKind::WrongOwner);
    let moved = store.transfer_lease(&id, "ann", "ben", START + 1).unwrap();
    assert_eq!(moved.agent, "ben");
    assert_eq!(moved.acquired_at, START + 1);
}

#[test]
fn an_unknown_symbol_cannot_be_leased() {
    let mut store = bank();
    let err = store.acquire("s_nowhere", "ann", &ttl(1), at(START)).unwrap_err();
    assert_eq!(err.kind, ErrorKind::UnknownSymbol);
    assert_eq!(err.text, "unknown symbol id: s_nowhere");
}

#[test]
fn preemption_says_who_lost_what() {
    let mut store = bank();
    take(&mut store, "Bank", "ann", START);
    let opts = AcquireOptions { priority: 4, preempt: true, ..Default::default() };
    let won = store.acquire_ref("Bank.pay", "ben", &opts, at(START + 1)).unwrap();
    assert!(won.outcome.is_granted());
    let event = store.recent_events(10).into_iter().find(|e| e.kind == "lease.preempted").unwrap();
    assert_eq!(event.agent.as_deref(), Some("ann"));
    assert_eq!(event.detail.text("by").as_deref(), Some("ben"));
}

#[test]
fn what_is_around_and_what_is_inside_block_differently() {
    let mut store = bank();
    take(&mut store, "Bank.pay", "ann", START);
    let class = store.resolve("Bank").unwrap().id;
    let file = store.resolve("src/bank.ts").unwrap().id;
    assert!(store.covers(&file, &class));
    assert!(!store.covers(&class, &file));
    let seen = store.conflicts_for(&class, "ben", START + 1);
    assert_eq!(seen.len(), 1);
    assert_eq!(seen[0].relation, ConflictRelation::Descendant);
    assert!(store.conflicts_for(&class, "ann", START + 1).is_empty(), "one's own never blocks");
    assert!(
        store.conflicts_for(&class, "ben", START + 300_000).is_empty(),
        "a lease that has run out is left aside"
    );
}

// ---------------------------------------------------------------------- requests

fn asked(store: &mut Store) -> String {
    take(store, "audit", "ann", START);
    store.ask_for_lease("audit", "ben", &None, 60, 0, &None, at(START + 1)).unwrap().id
}

#[test]
fn each_refusal_of_an_answer_has_its_reason() {
    let mut store = bank();
    let id = asked(&mut store);
    let kind = |r: Result<golab::model::Request, golab::store::StoreError>| r.unwrap_err().kind;
    assert_eq!(kind(store.decline_request("r_x", "ann", &None, START)), ErrorKind::NoSuchRequest);
    assert_eq!(kind(store.decline_request(&id, "cid", &None, START)), ErrorKind::NotAddressee);
    assert_eq!(kind(store.cancel_request(&id, "ann", START)), ErrorKind::NotSender);
    store.cancel_request(&id, "ben", START + 2).unwrap();
    assert_eq!(kind(store.decline_request(&id, "ann", &None, START + 3)), ErrorKind::AlreadyAnswered);

    let open = store
        .open_request(&NewRequest::new(request_kind::QUESTION, "ben", "who?"), at(START + 4))
        .unwrap();
    assert_eq!(kind(store.fulfill_request(&open.id, "ben", None, START + 5)), ErrorKind::OwnRequest);

    let own = NewRequest { to: some("ben"), ..NewRequest::new(request_kind::QUESTION, "ben", "me?") };
    assert_eq!(kind(store.open_request(&own, at(START + 6))), ErrorKind::ToSelf);

    let blank = NewRequest {
        to: some("ann"),
        ..NewRequest::new(request_kind::LEASE_TRANSFER, "ben", "give me something")
    };
    let blank = store.open_request(&blank, at(START + 7)).unwrap();
    assert_eq!(kind(store.accept_request(&blank.id, "ann", None, START + 8)), ErrorKind::NoSymbolNamed);
}

#[test]
fn asking_for_what_nobody_holds_is_refused() {
    let mut store = bank();
    let err = store.ask_for_lease("audit", "ben", &None, 60, 0, &None, at(START)).unwrap_err();
    assert_eq!(err.kind, ErrorKind::NobodyHolds);
    take(&mut store, "audit", "ben", START + 1);
    let err = store.ask_for_lease("audit", "ben", &None, 60, 0, &None, at(START + 2)).unwrap_err();
    assert_eq!(err.kind, ErrorKind::AlreadyHolds);
}

#[test]
fn a_handed_over_lease_keeps_its_id() {
    let mut store = bank();
    let id = asked(&mut store);
    let lease = store.active_leases(&None)[0].id.clone();
    let done = store.accept_request(&id, "ann", None, START + 2).unwrap();
    assert_eq!(done.state.as_str(), "fulfilled");
    assert_eq!(store.active_leases(&None)[0].id, lease);
    assert_eq!(store.active_leases(&None)[0].agent, "ben");
}

#[test]
fn a_deadline_ends_a_request_and_no_sooner() {
    let mut store = bank();
    let id = asked(&mut store);
    assert_eq!(store.request(&id).unwrap().seconds_until_deadline(START + 1), Some(60));
    assert_eq!(store.expire_requests(START + 60_000), 0);
    assert_eq!(store.expire_requests(START + 60_001), 1);
    assert_eq!(store.request(&id).unwrap().state.as_str(), "expired");
    assert_eq!(store.requests(&some("ben"), Direction::Outbox, true).len(), 0);
    assert_eq!(store.requests(&some("ben"), Direction::Outbox, false).len(), 1);
}

#[test]
fn merging_prefers_what_comes_later() {
    let base = Json::object().with("a", Json::Int(1)).with("b", Json::Int(2));
    let extra = Json::object().with("b", Json::Int(3));
    let merged = merge(base, extra);
    assert!(matches!(merged.get("a"), Some(Json::Int(1))));
    assert!(matches!(merged.get("b"), Some(Json::Int(3))));
    assert!(matches!(&merged, Json::Obj(m) if m.iter().filter(|x| x.0 == "b").count() == 1));
}

#[test]
fn progress_is_clamped_at_both_ends() {
    let mut store = bank();
    let p = store.record_progress("ann", &None, &None, Some(-5), None, &None, START + 1);
    assert_eq!(p.percent, Some(0));
    store.record_progress("ann", &None, &None, Some(50), None, &None, START + 2);
    assert_eq!(store.progress_for("ann", 10).len(), 2);
    assert_eq!(store.latest_progress()[0].percent, Some(50));
}

// ---------------------------------------------------------------- the scheduler

fn link(left: &str, right: &str) -> Link {
    Link { left: left.to_string(), right: right.to_string() }
}

#[test]
fn every_loop_is_reported_and_nothing_else() {
    let edges = vec![link("a", "b"), link("b", "c"), link("c", "a"), link("c", "d")];
    assert!(leads_to(&edges, "a", "d"));
    assert!(!leads_to(&edges, "d", "a"));
    let loops = find_cycles(&edges, &list(&["a", "d"]));
    assert_eq!(loops.len(), 1);
    let mut members = loops[0].clone();
    members.sort();
    assert_eq!(members, list(&["a", "b", "c"]));
    assert!(find_loops(&list(&["a", "b"]), &vec![link("a", "b")]).is_empty());
    assert_eq!(find_loops(&list(&["a", "b"]), &vec![link("a", "b"), link("b", "a")]).len(), 1);
}

#[test]
fn unknown_tasks_goals_and_agents_are_named() {
    let mut store = bank();
    assert_eq!(store.set_task_priority("T9", 1, START).unwrap_err().text, "no such task: T9");
    assert_eq!(store.goal_progress("G9").unwrap_err().kind, ErrorKind::NoSuchGoal);
    assert_eq!(store.set_agent_paused("zoe", true).unwrap_err().kind, ErrorKind::NoSuchAgent);
    let missing = store.add_task("x", 0, &list(&["T7"]), START).unwrap_err();
    assert_eq!(missing.kind, ErrorKind::NoSuchTask);
    assert_eq!(missing.text, "no such task: T7");
    assert!(store.tasks().is_empty(), "nothing is written down");
}

#[test]
fn only_the_assignee_moves_a_task() {
    let mut store = bank();
    store.add_task("x", 0, &Vec::new(), START).unwrap();
    store.claim_next("ann", 300, at(START + 1)).unwrap().unwrap();
    let err = store.set_task_state("T1", TaskState::Done, &some("ben"), &None, false, START + 2).unwrap_err();
    assert_eq!(err.kind, ErrorKind::NotAssignee);
    assert_eq!(err.text, "task T1 is assigned to ann");
    assert_eq!(store.task("T1").unwrap().task.state, TaskState::Running);
}

#[test]
fn work_of_the_living_stays_with_them() {
    let mut store = bank();
    store.add_task("x", 0, &Vec::new(), START).unwrap();
    store.claim_next("ann", 300, at(START + 1)).unwrap().unwrap();
    assert!(store.reassign_orphans(START + 2, 90_000).is_empty());
    let back = store.reassign_orphans(START + 200_000, 90_000);
    assert_eq!(back, list(&["T1"]));
    assert!(store.task("T1").unwrap().task.assignee.is_none());
}

#[test]
fn waiting_places_do_not_let_a_scope_be_taken_by_halves() {
    let mut store = bank();
    store.add_task("both", 0, &Vec::new(), START).unwrap();
    store.set_task_scope("T1", &list(&["Bank.pay", "audit"]), START).unwrap();
    // Somebody is in line for one of the two, which nobody holds any more.
    let lease = lease_id(&take(&mut store, "audit", "cid", START));
    take(&mut store, "audit", "dan", START + 1);
    store.release(&lease, "cid", START + 2).unwrap();
    assert!(store.claim_next("ann", 300, at(START + 3)).unwrap().is_none());
    assert!(store.active_leases(&some("ann")).is_empty(), "not even the free half");
}

#[test]
fn a_task_waits_for_what_it_depends_on() {
    let mut store = bank();
    store.add_task("first", 0, &Vec::new(), START).unwrap();
    store.add_task("second", 9, &list(&["T1"]), START).unwrap();
    let plan = store.plan(START + 1);
    assert_eq!(plan.waves.len(), 2);
    assert_eq!(plan.critical_path, list(&["T1", "T2"]));
    assert_eq!(store.task("T2").unwrap().blocked_by, list(&["T1"]));
    store.set_task_state("T1", TaskState::Done, &None, &None, false, START + 2).unwrap();
    assert!(store.task("T2").unwrap().ready);
}

#[test]
fn progress_of_a_goal_adds_up() {
    let mut store = bank();
    store.add_goal("g", 0, &None, &None, START).unwrap();
    for title in ["a", "b", "c"] {
        store.goal_decompose("G1", title, 0, &Vec::new(), &Vec::new(), START).unwrap();
    }
    store.claim_next("ann", 300, at(START + 1)).unwrap().unwrap();
    store.set_task_state("T2", TaskState::Done, &None, &None, true, START + 2).unwrap();
    let p = store.goal_progress("G1").unwrap();
    assert_eq!(p.total, 3);
    assert_eq!(p.done + p.running + p.in_review + p.pending, 3);
    assert_eq!(p.contributing_agents, list(&["ann"]));
}

#[test]
fn words_of_a_goal_find_symbols_whatever_their_case() {
    let store = bank();
    let found: Vec<String> = store.keyword_match_symbols("Fix REFUNDS now!").into_iter().map(|s| s.name).collect();
    assert!(found.contains(&"refund".to_string()), "{found:?}");
}

// ------------------------------------------------------------------- the scanner

#[test]
fn a_vanished_symbol_takes_its_lease_along() {
    let mut store = bank();
    take(&mut store, "audit", "ann", START + 1);
    let stats = look(&mut store, &[("src/bank.ts", "export class Bank {}\n")], START + 2);
    assert_eq!(stats.leases_dropped, 1);
    assert!(store.active_leases(&None).is_empty());
    assert!(store.resolve("audit").is_err());
}

#[test]
fn a_file_that_cannot_be_read_counts_as_failed() {
    let mut store = bank();
    let input = ScanInput {
        services: None,
        sql: Vec::new(),
        sources: vec![SourceFile { bytes: None, ..file("src/gone.ts", "") }],
    };
    let stats = scan(&mut store, "R1", &input, false, START + 1);
    assert_eq!(stats.files_seen, 1);
    assert_eq!(stats.files_failed, 1);
    assert_eq!(stats.files_removed, 0, "a partial scan prunes nothing");
}

#[test]
fn indexed_files_are_known_by_their_contents() {
    let store = bank();
    assert_eq!(store.indexed_files("R1"), list(&["src/bank.ts"]));
    assert!(store.indexed_files("R2").is_empty());
    assert_eq!(store.file_hash("R1", "src/bank.ts").as_deref(), Some(content_hash(CLASS.as_bytes()).as_str()));
}

#[test]
fn a_walk_sorts_what_it_finds() {
    let mut found = Found::new();
    for rel in ["b.ts", "a.py", "db/x.sql", "README.md", "package.json"] {
        found.push(rel.to_string(), rel == "package.json");
    }
    let found = found.sort();
    assert_eq!(found.sources, list(&["a.py", "b.ts"]));
    assert_eq!(found.sql, list(&["db/x.sql"]));
    assert_eq!(found.manifests, list(&["package.json"]));
    assert!(is_indexable("a.rs", false) && is_indexable("x", true) && !is_indexable("x.md", false));
    assert!(is_skipped("node_modules") && is_skipped(".golab") && !is_skipped("src"));
    assert_eq!(relative_path("/w", "/w/src/a.ts").as_deref(), Some("src/a.ts"));
    assert_eq!(relative_path("/w", "/elsewhere/a.ts"), None);
}

#[test]
fn the_deepest_service_owns_a_file() {
    let service = |name: &str, dir: &str| Service {
        name: name.to_string(),
        manifest: format!("{dir}/package.json"),
        ecosystem: "npm".to_string(),
        dir: dir.to_string(),
    };
    let all = vec![service("root", ""), service("api", "api"), service("auth", "api/auth")];
    assert_eq!(service_for("api/auth/x.ts", &all).unwrap().name, "auth");
    assert_eq!(service_for("api/x.ts", &all).unwrap().name, "api");
    assert_eq!(service_for("apix/x.ts", &all).unwrap().name, "root");
    assert_eq!(parent_service(&all[2], &all).unwrap().name, "api");
    assert!(parent_service(&all[0], &all).is_none());
}

// ----------------------------------------------------------------- repositories

#[test]
fn an_ambiguous_name_is_not_guessed() {
    let mut store = Store::new();
    store.ensure_default_repo(START);
    look(
        &mut store,
        &[("a.ts", "export function f() {}\n"), ("b.ts", "export function f() {}\n")],
        START,
    );
    let err = store.resolve("f").unwrap_err();
    assert_eq!(err.kind, ErrorKind::AmbiguousSymbol);
    assert_eq!(store.resolve("a.ts:f").unwrap().path, "a.ts");
    assert_eq!(store.resolve("nowhere").unwrap_err().kind, ErrorKind::UnknownSymbol);
}

#[test]
fn a_handle_names_its_repository_where_there_are_several() {
    let mut store = bank();
    let audit = store.resolve("audit").unwrap();
    assert_eq!(qualified_handle(&store, &audit), "src/bank.ts:audit");
    let second: Repo = store.add_repo("web", &None, START).unwrap();
    assert_eq!(second.id, "R2");
    assert!(qualified_handle(&store, &audit).ends_with("src/bank.ts:audit"));
    assert_ne!(qualified_handle(&store, &audit), "src/bank.ts:audit");
    assert_eq!(store.add_repo("/abs", &None, START).unwrap_err().kind, ErrorKind::AbsoluteRoot);
}

// ------------------------------------------------------------------- workspaces

#[test]
fn the_nearest_workspace_wins() {
    let here = list(&["/w", "/w/inner"]);
    assert_eq!(find_workspace("/w/inner/src", &here).as_deref(), Some("/w/inner"));
    assert_eq!(find_workspace("/w/other", &here).as_deref(), Some("/w"));
    assert_eq!(find_workspace("/elsewhere", &here), None);
    assert_eq!(directories("/a/b"), list(&["/a/b", "/a", "/"]));
    assert_eq!(parent_path("/a").as_deref(), Some("/"));
    assert_eq!(parent_path("/"), None);
    assert_eq!(db_path("/w"), "/w/.golab/runtime.db");
    assert_eq!(strip_verbatim(r"\\?\C:\w"), r"C:\w");
}

// --------------------------------------------------------------------- commands

#[test]
fn an_exit_code_carries_the_answer() {
    assert_eq!(Exit::Success.code(), 0);
    assert_eq!(Exit::Denied.code(), 1);
    assert_eq!(Exit::Failed.code(), 2);
}

#[test]
fn a_long_line_is_cut() {
    assert_eq!(first_line("one\r\ntwo"), "one");
    let long = "x".repeat(61);
    assert_eq!(first_line(&long), format!("{}…", "x".repeat(57)));
    assert_eq!(first_line(&"x".repeat(60)), "x".repeat(60));
    assert_eq!(first_line(""), "");
}

#[test]
fn a_body_that_is_no_json_is_a_text() {
    let body = body_or_text(None, "plain words");
    assert_eq!(body.text("text").as_deref(), Some("plain words"));
    assert!(matches!(body_or_text(Some(Json::Int(3)), "3"), Json::Int(3)));
}

#[test]
fn the_git_hook_runs_this_program() {
    let script = git_hook_script("/bin/golab");
    assert!(script.starts_with("#!/bin/sh\n# installed by `golab hook install`\n"));
    assert!(script.ends_with("[ -n \"$GOLAB_SKIP\" ] && exit 0\nexec \"/bin/golab\" check\n"));
    assert_eq!(Targets::of(false, false, false), Targets { git: true, editor: false, mcp: false });
    assert_eq!(Targets::of(false, true, false), Targets { git: false, editor: true, mcp: false });
    assert_eq!(mcp_args(&None), list(&["mcp"]));
}

#[test]
fn a_session_opens_with_what_matters() {
    let packet = Briefing {
        task: None,
        startable: 2,
        notices: 1,
        memory: vec![Note { key: "rounding".to_string(), value: "always round half up".to_string() }],
    };
    let text = brief("ann", &packet);
    assert!(text.contains("`ann`"));
    assert!(text.contains("check_edit"));
    assert!(text.contains("2 task(s) are ready to start"));
    assert!(text.contains("1 unread request(s)"));
    assert!(text.contains("- rounding: always round half up\n"));
    let busy = Briefing {
        task: Some(BriefTask {
            id: "T1".to_string(),
            title: "wire it".to_string(),
            scope: list(&["a.ts:f", "b.ts:g"]),
        }),
        startable: 2,
        notices: 0,
        memory: Vec::new(),
    };
    let text = brief("ann", &busy);
    assert!(text.contains("You are on T1: wire it. Scope: a.ts:f, b.ts:g.\n"));
    assert!(!text.contains("ready to start"));
    let said = answer_start(&Some(text.clone())).out.unwrap();
    assert_eq!(said.get("hookSpecificOutput").unwrap().text("additionalContext"), Some(text));
    assert!(answer_start(&None).out.is_none());
}

#[test]
fn a_refused_edit_shows_as_blocked() {
    let mut store = bank();
    take(&mut store, "audit", "ann", START);
    let refused = store.guard("ben", "R1", "src/bank.ts", &None, START + 1).unwrap();
    assert_eq!(edit_window("ben", &refused).kind, BLOCKED);
    let free = store.guard("ben", "R1", "src/other.ts", &None, START + 1).unwrap();
    assert_eq!(edit_window("ben", &free).kind, EDITING);
}

#[test]
fn roles_have_words() {
    assert_eq!(Role::parse("api"), Some(Role::Api));
    assert_eq!(Role::parse("nonsense"), None);
    assert_eq!(SymbolKind::parse(SymbolKind::Table.as_str()), Some(SymbolKind::Table));
}
