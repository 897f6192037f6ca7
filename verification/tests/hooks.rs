use golab::guard::{GuardReport, GuardSuggestion, GuardVerdict};
use golab::hooks::{deny_reason, edited_paths, rank};
use golab::json::Json;

fn object(key: &str, value: &str) -> Json {
    Json::object().with(key, Json::str(value))
}

fn call(input: Json) -> Json {
    Json::object().with("tool_input", input)
}

#[test]
fn every_editing_tool_shape_is_understood() {
    // Missing any of these is a hole an agent walks straight through.
    let edit = call(object("file_path", "/repo/src/pay.ts"));
    assert_eq!(edited_paths(&edit), vec![String::from("/repo/src/pay.ts")]);

    let notebook = call(object("notebook_path", "/repo/a.ipynb"));
    assert_eq!(edited_paths(&notebook), vec![String::from("/repo/a.ipynb")]);

    let multi = call(Json::object().with(
        "edits",
        Json::Arr(vec![
            object("file_path", "/repo/a.ts"),
            object("file_path", "/repo/b.ts"),
            object("file_path", "/repo/a.ts"),
        ]),
    ));
    assert_eq!(
        edited_paths(&multi),
        vec![String::from("/repo/a.ts"), String::from("/repo/b.ts")],
        "duplicates collapse; a file is judged once"
    );
}

#[test]
fn a_payload_we_do_not_recognise_yields_nothing_to_guard() {
    assert!(edited_paths(&Json::object()).is_empty());
    assert!(edited_paths(&call(object("command", "ls"))).is_empty());
}

#[test]
fn a_denial_says_how_to_get_to_yes() {
    let report = GuardReport {
        agent: "bob".into(),
        repo_id: "R1".into(),
        path: "src/pay.ts".into(),
        anchor: Some("s_x".into()),
        anchor_handle: Some("src/pay.ts:charge".into()),
        verdict: GuardVerdict::Denied,
        conflicts: Vec::new(),
        lease_id: None,
        via: None,
        yours_within: Vec::new(),
        unindexed: false,
        suggestions: vec![GuardSuggestion {
            action: "request-transfer".into(),
            symbol: "src/pay.ts:charge".into(),
            holder: Some("alice".into()),
            seconds_until_free: Some(200),
            command: "golab request lease src/pay.ts:charge".into(),
            tool: "ask".into(),
        }],
        summary: "src/pay.ts:charge is held by alice for another 3m 20s".into(),
    };

    let reason = deny_reason(&report);
    assert!(reason.contains("alice"), "{reason}");
    assert!(
        reason.contains("lease-transfer"),
        "the model has to be told how to negotiate, not just told no: {reason}"
    );
}

#[test]
fn an_about_to_lapse_lease_says_wait_rather_than_ask() {
    let report = GuardReport {
        agent: "bob".into(),
        repo_id: "R1".into(),
        path: "src/pay.ts".into(),
        anchor: None,
        anchor_handle: None,
        verdict: GuardVerdict::Denied,
        conflicts: Vec::new(),
        lease_id: None,
        via: None,
        yours_within: Vec::new(),
        unindexed: false,
        suggestions: vec![GuardSuggestion {
            action: "wait".into(),
            symbol: "src/pay.ts:charge".into(),
            holder: Some("alice".into()),
            seconds_until_free: Some(4),
            command: "golab lease acquire src/pay.ts:charge --wait 9".into(),
            tool: "claim_symbol".into(),
        }],
        summary: "held by alice".into(),
    };
    assert!(deny_reason(&report).contains("wait rather than interrupt"));
}

#[test]
fn the_worst_verdict_across_a_multi_file_call_wins() {
    assert!(rank(GuardVerdict::Denied) > rank(GuardVerdict::Warn));
    assert!(rank(GuardVerdict::Warn) > rank(GuardVerdict::Allowed));
}
