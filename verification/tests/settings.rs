use golab::json::Json;
use golab::settings::{
    editor_hooks, remove_hooks_matching, remove_mcp_server, upsert_hook, upsert_mcp_server, EditorHook,
};

fn theirs() -> Json {
    let run = Json::object()
        .with("type", Json::str("command"))
        .with("command", Json::str("somebody-elses-tool"));
    let entry = Json::object()
        .with("matcher", Json::str("Bash"))
        .with("hooks", Json::Arr(vec![run]));
    Json::object()
        .with("model", Json::str("large"))
        .with("hooks", Json::object().with("PreToolUse", Json::Arr(vec![entry])))
}

fn install(doc: &Json) -> Json {
    let mut out = doc.clone();
    for h in editor_hooks("/bin/golab") {
        out = upsert_hook(&out, &h);
    }
    out
}

fn entries<'a>(doc: &'a Json, event: &str) -> Vec<&'a Json> {
    match doc.get("hooks").and_then(|h| h.get(event)) {
        Some(Json::Arr(v)) => v.iter().collect(),
        _ => Vec::new(),
    }
}

fn command(entry: &Json) -> String {
    match entry.get("hooks") {
        Some(Json::Arr(v)) => v[0].text("command").unwrap(),
        _ => String::new(),
    }
}

#[test]
fn an_editor_asks_before_every_edit() {
    let hooks = editor_hooks("/bin/golab");
    let commands: Vec<&str> = hooks.iter().map(|h| h.command.as_str()).collect();
    assert_eq!(
        commands,
        vec![
            "\"/bin/golab\" hook session-start",
            "\"/bin/golab\" hook guard",
            "\"/bin/golab\" hook post-tool",
            "\"/bin/golab\" hook session-end",
        ]
    );
    assert_eq!(hooks[1].matcher.as_deref(), Some("Edit|Write|MultiEdit|NotebookEdit"));
    assert_eq!(hooks[1].timeout, 10);
}

#[test]
fn installing_merges_and_is_idempotent() {
    let once = install(&theirs());
    let after = install(&once);
    assert_eq!(after.text("model").as_deref(), Some("large"), "unrelated keys survive");

    let pre = entries(&after, "PreToolUse");
    assert_eq!(pre.len(), 2, "installed twice, added once: {pre:?}");
    assert!(pre.iter().any(|e| command(e) == "somebody-elses-tool"), "another tool's hook must survive");
    for event in ["SessionStart", "PostToolUse", "SessionEnd"] {
        assert_eq!(entries(&after, event).len(), 1, "{event} missing");
    }

    let gone = remove_hooks_matching(&after, " hook ");
    assert_eq!(gone.text("model").as_deref(), Some("large"));
    let pre = entries(&gone, "PreToolUse");
    assert_eq!(pre.len(), 1);
    assert_eq!(command(pre[0]), "somebody-elses-tool");
    assert!(gone.get("hooks").unwrap().get("SessionStart").is_none());
}

#[test]
fn a_document_without_settings_gets_them() {
    let hook = EditorHook {
        event: "Stop".to_string(),
        matcher: None,
        command: "golab hook stop".to_string(),
        timeout: 3,
    };
    let doc = upsert_hook(&Json::object(), &hook);
    assert_eq!(entries(&doc, "Stop").len(), 1);
    assert!(matches!(remove_hooks_matching(&Json::object(), " hook "), Json::Obj(v) if v.is_empty()));
}

#[test]
fn a_server_is_registered_beside_the_others() {
    let other = Json::object().with("command", Json::str("other-server"));
    let doc = Json::object().with("mcpServers", Json::object().with("other", other));
    let mine = Json::object()
        .with("command", Json::str("golab"))
        .with("args", Json::strings(&golab::command::mcp_args(&Some("alice".to_string()))));

    let after = upsert_mcp_server(&doc, "golab", mine);
    let servers = after.get("mcpServers").unwrap();
    assert_eq!(servers.get("other").unwrap().text("command").as_deref(), Some("other-server"));
    match servers.get("golab").unwrap().get("args") {
        Some(Json::Arr(args)) => {
            let words: Vec<&str> = args
                .iter()
                .map(|a| match a {
                    Json::Str(s) => s.as_str(),
                    other => panic!("expected a word, got {other:?}"),
                })
                .collect();
            assert_eq!(words, vec!["mcp", "--as", "alice"]);
            assert!(
                !words.contains(&"--root"),
                "an absolute root would break this config for anyone else's checkout"
            );
        }
        other => panic!("expected a list, got {other:?}"),
    }

    let gone = remove_mcp_server(&after, "golab");
    let servers = gone.get("mcpServers").unwrap();
    assert!(servers.get("golab").is_none());
    assert_eq!(servers.get("other").unwrap().text("command").as_deref(), Some("other-server"));
}
