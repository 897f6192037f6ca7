//! The configuration files of other programs, edited without costing them anything
//! they held.
//!
//! A settings file lists, for each event, the commands to run. Installing adds what
//! is missing and touches nothing else; installing again adds nothing. Uninstalling
//! takes out what was installed and leaves everybody else's entries in place.

use vstd::prelude::*;
use vstd::string::*;

use crate::json::{member, Json, JsonV};
use crate::members::{
    array_of, items, items_of, law_put_is_there, members, members_of, object_of, place, put, Member,
};
use crate::rows::{each, find_row, keep};
use crate::store::{append, first_where, law_first_where, no_rows};
use crate::text::{cat3, contains, contains_text, same};

verus! {

broadcast use vstd::string::group_string_axioms;

/// One command for one event of an editor.
#[derive(Debug)]
pub struct EditorHook {
    pub event: String,
    /// Which tools it is about; every one where there is none.
    pub matcher: Option<String>,
    pub command: String,
    /// How long it may take, in seconds.
    pub timeout: i64,
}

/// The contents of an [`EditorHook`].
pub struct EditorHookV {
    pub event: Seq<char>,
    pub matcher: Option<Seq<char>>,
    pub command: Seq<char>,
    pub timeout: i64,
}

impl DeepView for EditorHook {
    type V = EditorHookV;

    open spec fn deep_view(&self) -> EditorHookV {
        EditorHookV {
            event: self.event@,
            matcher: self.matcher.deep_view(),
            command: self.command@,
            timeout: self.timeout,
        }
    }
}

/// The command that runs a callback of this program.
pub open spec fn callback(exe: Seq<char>, name: Seq<char>) -> Seq<char> {
    "\""@ + exe + "\" hook "@ + name
}

/// What an editor is asked to run: joining when a session starts, asking before
/// every edit, reporting after it, and leaving at the end. Every editing tool asks,
/// or an agent could reach around the guard.
pub open spec fn hooks_for(exe: Seq<char>) -> Seq<EditorHookV> {
    seq![
        EditorHookV {
            event: "SessionStart"@,
            matcher: None,
            command: callback(exe, "session-start"@),
            timeout: 15,
        },
        EditorHookV {
            event: "PreToolUse"@,
            matcher: Some("Edit|Write|MultiEdit|NotebookEdit"@),
            command: callback(exe, "guard"@),
            timeout: 10,
        },
        EditorHookV {
            event: "PostToolUse"@,
            matcher: Some("Edit|Write|MultiEdit"@),
            command: callback(exe, "post-tool"@),
            timeout: 10,
        },
        EditorHookV {
            event: "SessionEnd"@,
            matcher: None,
            command: callback(exe, "session-end"@),
            timeout: 15,
        },
    ]
}

fn callback_of(exe: &str, name: &str) -> (r: String)
    ensures
        r@ == callback(exe@, name@),
{
    let head = cat3("\"", exe, "\" hook ");
    crate::text::cat(head.as_str(), name)
}

/// What an editor is asked to run.
pub fn editor_hooks(exe: &str) -> (r: Vec<EditorHook>)
    ensures
        r.deep_view() == hooks_for(exe@),
{
    let mut out: Vec<EditorHook> = no_rows();
    append(
        &mut out,
        EditorHook {
            event: "SessionStart".to_owned(),
            matcher: None,
            command: callback_of(exe, "session-start"),
            timeout: 15,
        },
    );
    append(
        &mut out,
        EditorHook {
            event: "PreToolUse".to_owned(),
            matcher: Some("Edit|Write|MultiEdit|NotebookEdit".to_owned()),
            command: callback_of(exe, "guard"),
            timeout: 10,
        },
    );
    append(
        &mut out,
        EditorHook {
            event: "PostToolUse".to_owned(),
            matcher: Some("Edit|Write|MultiEdit".to_owned()),
            command: callback_of(exe, "post-tool"),
            timeout: 10,
        },
    );
    append(
        &mut out,
        EditorHook {
            event: "SessionEnd".to_owned(),
            matcher: None,
            command: callback_of(exe, "session-end"),
            timeout: 15,
        },
    );
    assert(out.deep_view() =~= hooks_for(exe@));
    out
}

// ------------------------------------------------------------------ the document

/// Does a command that an entry runs hold a text?
pub open spec fn runs(e: JsonV, text: Seq<char>) -> bool {
    first_where(items(e.at("hooks"@)), |h: JsonV| command_has(h, text)) is Some
}

/// Does a command hold a text?
pub open spec fn command_has(h: JsonV, text: Seq<char>) -> bool {
    h.text_at("command"@) is Some && contains_text(h.text_at("command"@)->Some_0, text)
}

/// The entry for a command.
pub open spec fn entry(h: EditorHookV) -> JsonV {
    let run = JsonV::Obj(
        seq![
            ("type"@, JsonV::Str("command"@)),
            ("command"@, JsonV::Str(h.command)),
            ("timeout"@, JsonV::Int(h.timeout as int)),
        ],
    );
    let hooks = ("hooks"@, JsonV::Arr(seq![run]));
    match h.matcher {
        Some(m) => JsonV::Obj(seq![("matcher"@, JsonV::Str(m)), hooks]),
        None => JsonV::Obj(seq![hooks]),
    }
}

/// The entries for an event.
pub open spec fn entries(doc: JsonV, event: Seq<char>) -> Seq<JsonV> {
    items(member(members(doc.at("hooks"@)), event))
}

/// Settings with a command added for its event, unless it is there.
pub open spec fn with_hook(doc: JsonV, h: EditorHookV) -> JsonV {
    let now = entries(doc, h.event);
    if first_where(now, |e: JsonV| runs(e, h.command)) is Some {
        doc
    } else {
        JsonV::Obj(
            put(
                members(Some(doc)),
                "hooks"@,
                JsonV::Obj(
                    put(members(doc.at("hooks"@)), h.event, JsonV::Arr(now.push(entry(h)))),
                ),
            ),
        )
    }
}

/// A list without the entries that run a command with a text.
pub open spec fn swept(v: JsonV, text: Seq<char>) -> JsonV {
    match v {
        JsonV::Arr(a) => JsonV::Arr(a.filter(|e: JsonV| !runs(e, text))),
        other => other,
    }
}

/// Is this a list without items?
pub open spec fn is_empty_list(v: JsonV) -> bool {
    v matches JsonV::Arr(a) && a.len() == 0
}

/// Settings without the entries that run a command with a text, and without the
/// events for which that leaves nothing.
pub open spec fn without_hooks(doc: JsonV, text: Seq<char>) -> JsonV {
    if doc.at("hooks"@) is None {
        doc
    } else {
        JsonV::Obj(
            put(
                members(Some(doc)),
                "hooks"@,
                JsonV::Obj(
                    members(doc.at("hooks"@)).map_values(
                        |x: (Seq<char>, JsonV)| (x.0, swept(x.1, text)),
                    ).filter(|x: (Seq<char>, JsonV)| !is_empty_list(x.1)),
                ),
            ),
        )
    }
}

/// A list of servers with one more, or with that one changed.
pub open spec fn with_server(doc: JsonV, name: Seq<char>, server: JsonV) -> JsonV {
    JsonV::Obj(
        put(
            members(Some(doc)),
            "mcpServers"@,
            JsonV::Obj(put(members(doc.at("mcpServers"@)), name, server)),
        ),
    )
}

/// A list of servers without one.
pub open spec fn without_server(doc: JsonV, name: Seq<char>) -> JsonV {
    if doc.at("mcpServers"@) is None {
        doc
    } else {
        JsonV::Obj(
            put(
                members(Some(doc)),
                "mcpServers"@,
                JsonV::Obj(
                    members(doc.at("mcpServers"@)).filter(
                        |x: (Seq<char>, JsonV)| x.0 != name,
                    ),
                ),
            ),
        )
    }
}

// ------------------------------------------------------------------- in practice

fn does_run(e: &Json, text: &str) -> (r: bool)
    ensures
        r == runs(e.deep_view(), text@),
{
    let test = |h: &Json| -> (b: bool)
        ensures b == command_has(h.deep_view(), text@)
    {
        match h.text("command") {
            Some(c) => contains(c.as_str(), text),
            None => false,
        }
    };
    find_row(
        &items_of(e.get("hooks")),
        test,
        Ghost(|h: JsonV| command_has(h, text@)),
    ).is_some()
}

fn entry_of(h: &EditorHook) -> (r: Json)
    ensures
        r.deep_view() == entry(h.deep_view()),
{
    let run = Json::object().with("type", Json::str("command")).with(
        "command",
        Json::Str(h.command.clone()),
    ).with("timeout", Json::Int(h.timeout));
    let ghost run_v = run.deep_view();
    proof {
        assert(run_v->Obj_0 =~= seq![
            ("type"@, JsonV::Str("command"@)),
            ("command"@, JsonV::Str(h.command@)),
            ("timeout"@, JsonV::Int(h.timeout as int)),
        ]);
    }
    let mut list: Vec<Json> = no_rows();
    append(&mut list, run);
    assert(list.deep_view() =~= seq![run_v]);
    let hooks = array_of(list);
    let ghost hv = ("hooks"@, hooks.deep_view());
    match &h.matcher {
        Some(m) => {
            let r = Json::object().with("matcher", Json::Str(m.clone())).with("hooks", hooks);
            assert(r.deep_view()->Obj_0 =~= seq![("matcher"@, JsonV::Str(m@)), hv]);
            r
        },
        None => {
            let r = Json::object().with("hooks", hooks);
            assert(r.deep_view()->Obj_0 =~= seq![hv]);
            r
        },
    }
}

/// Adds a command for its event to some settings, unless it is there.
pub fn upsert_hook(doc: &Json, h: &EditorHook) -> (r: Json)
    ensures
        r.deep_view() == with_hook(doc.deep_view(), h.deep_view()),
{
    let events = members_of(doc.get("hooks"));
    let events_doc = object_of(events);
    assert(events_doc.deep_view().at(h.event@) == member(
        members(doc.deep_view().at("hooks"@)),
        h.event@,
    ));
    let mut list = items_of(events_doc.get(h.event.as_str()));
    assert(list.deep_view() == entries(doc.deep_view(), h.event@));
    let test = |e: &Json| -> (b: bool)
        ensures b == runs(e.deep_view(), h.deep_view().command)
    {
        does_run(e, h.command.as_str())
    };
    if find_row(&list, test, Ghost(|e: JsonV| runs(e, h.deep_view().command))).is_some() {
        return doc.clone();
    }
    append(&mut list, entry_of(h));
    let events = place(members_of(doc.get("hooks")), h.event.as_str(), array_of(list));
    object_of(place(members_of(Some(doc)), "hooks", object_of(events)))
}

fn sweep_list(v: &Json, text: &str) -> (r: Json)
    ensures
        r.deep_view() == swept(v.deep_view(), text@),
{
    match v {
        Json::Arr(_) => {
            let test = |e: &Json| -> (b: bool)
                ensures b == !runs(e.deep_view(), text@)
            {
                !does_run(e, text)
            };
            array_of(keep(&items_of(Some(v)), test, Ghost(|e: JsonV| !runs(e, text@))))
        },
        _ => v.clone(),
    }
}

/// Takes the entries that run a command with a text out of some settings.
pub fn remove_hooks_matching(doc: &Json, text: &str) -> (r: Json)
    ensures
        r.deep_view() == without_hooks(doc.deep_view(), text@),
{
    if doc.get("hooks").is_none() {
        return doc.clone();
    }
    let sweep = |x: &Member| -> (y: Member)
        ensures y.deep_view() == (x.deep_view().0, swept(x.deep_view().1, text@))
    {
        Member { key: x.key.clone(), value: sweep_list(&x.value, text) }
    };
    let test = |x: &Member| -> (b: bool)
        ensures b == !is_empty_list(x.deep_view().1)
    {
        match &x.value {
            Json::Arr(a) => {
                assert(x.value.deep_view()->Arr_0.len() == a@.len());
                a.len() > 0
            },
            _ => true,
        }
    };
    let left = keep(
        &each(
            &members_of(doc.get("hooks")),
            sweep,
            Ghost(|x: (Seq<char>, JsonV)| (x.0, swept(x.1, text@))),
        ),
        test,
        Ghost(|x: (Seq<char>, JsonV)| !is_empty_list(x.1)),
    );
    object_of(place(members_of(Some(doc)), "hooks", object_of(left)))
}

/// Registers a server, or changes how it is registered.
pub fn upsert_mcp_server(doc: &Json, name: &str, server: Json) -> (r: Json)
    ensures
        r.deep_view() == with_server(doc.deep_view(), name@, server.deep_view()),
{
    let servers = place(members_of(doc.get("mcpServers")), name, server);
    object_of(place(members_of(Some(doc)), "mcpServers", object_of(servers)))
}

/// Takes a server out.
pub fn remove_mcp_server(doc: &Json, name: &str) -> (r: Json)
    ensures
        r.deep_view() == without_server(doc.deep_view(), name@),
{
    if doc.get("mcpServers").is_none() {
        return doc.clone();
    }
    let test = |x: &Member| -> (b: bool)
        ensures b == (x.deep_view().0 != name@)
    {
        !same(x.key.as_str(), name)
    };
    let left = keep(
        &members_of(doc.get("mcpServers")),
        test,
        Ghost(|x: (Seq<char>, JsonV)| x.0 != name@),
    );
    object_of(place(members_of(Some(doc)), "mcpServers", object_of(left)))
}

// ------------------------------------------------------------------------ laws

/// Installing a command leaves every other setting as it was.
pub proof fn law_other_settings_survive(doc: JsonV, h: EditorHookV, key: Seq<char>)
    requires
        doc is Obj,
        key != "hooks"@,
    ensures
        with_hook(doc, h).at(key) == doc.at(key),
{
    let hooks = JsonV::Obj(
        put(
            members(doc.at("hooks"@)),
            h.event,
            JsonV::Arr(entries(doc, h.event).push(entry(h))),
        ),
    );
    law_put_is_there(doc->Obj_0, "hooks"@, hooks, key);
}

/// Installing a command keeps every entry that was there, in its place.
pub proof fn law_other_hooks_survive(doc: JsonV, h: EditorHookV, event: Seq<char>)
    ensures
        entries(doc, event).is_prefix_of(entries(with_hook(doc, h), event)),
{
    let list = JsonV::Arr(entries(doc, h.event).push(entry(h)));
    let events = put(members(doc.at("hooks"@)), h.event, list);
    law_put_is_there(members(doc.at("hooks"@)), h.event, list, event);
    law_put_is_there(members(Some(doc)), "hooks"@, JsonV::Obj(events), "hooks"@);
    assert(with_hook(doc, h) != doc ==> with_hook(doc, h).at("hooks"@) == Some(JsonV::Obj(events)));
}

/// Installing twice adds once.
pub proof fn law_installing_is_idempotent(doc: JsonV, h: EditorHookV)
    ensures
        with_hook(with_hook(doc, h), h) == with_hook(doc, h),
{
    let q = |e: JsonV| runs(e, h.command);
    if first_where(entries(doc, h.event), q) is None {
        let list = entries(doc, h.event).push(entry(h));
        let events = put(members(doc.at("hooks"@)), h.event, JsonV::Arr(list));
        law_put_is_there(members(doc.at("hooks"@)), h.event, JsonV::Arr(list), h.event);
        law_put_is_there(members(Some(doc)), "hooks"@, JsonV::Obj(events), "hooks"@);
        assert(entries(with_hook(doc, h), h.event) == list);
        lemma_entry_runs(h);
        law_first_where(list, q);
        assert(q(list[list.len() - 1]));
    }
}

/// The entry for a command runs it.
proof fn lemma_entry_runs(h: EditorHookV)
    ensures
        runs(entry(h), h.command),
{
    reveal_strlit("matcher");
    reveal_strlit("hooks");
    reveal_strlit("type");
    reveal_strlit("command");
    reveal_strlit("timeout");
    let run = JsonV::Obj(
        seq![
            ("type"@, JsonV::Str("command"@)),
            ("command"@, JsonV::Str(h.command)),
            ("timeout"@, JsonV::Int(h.timeout as int)),
        ],
    );
    let m = run->Obj_0;
    reveal_with_fuel(member, 4);
    assert("timeout"@[0] != "command"@[0]);
    assert(m.last().0 != "command"@);
    assert(m.drop_last().last() == m[1]);
    assert(member(m.drop_last(), "command"@) == Some(JsonV::Str(h.command)));
    assert(run.text_at("command"@) == Some(h.command));
    assert(h.command.subrange(0, h.command.len() as int) =~= h.command);
    let list = seq![run];
    let e = entry(h)->Obj_0;
    assert(entry(h).at("hooks"@) == Some(JsonV::Arr(list)));
    let p = |x: JsonV| command_has(x, h.command);
    law_first_where(list, p);
    assert(contains_text(h.command, h.command));
    assert(p(list[0]));
}

/// Uninstalling leaves nothing that runs such a command.
pub proof fn law_nothing_is_left_behind(doc: JsonV, text: Seq<char>, event: Seq<char>, i: int)
    requires
        0 <= i < entries(without_hooks(doc, text), event).len(),
    ensures
        !runs(entries(without_hooks(doc, text), event)[i], text),
{
    if doc.at("hooks"@) is Some {
        let f = |x: (Seq<char>, JsonV)| (x.0, swept(x.1, text));
        let p = |x: (Seq<char>, JsonV)| !is_empty_list(x.1);
        let swept_all = members(doc.at("hooks"@)).map_values(f);
        let left = swept_all.filter(p);
        law_put_is_there(members(Some(doc)), "hooks"@, JsonV::Obj(left), "hooks"@);
        assert(members(without_hooks(doc, text).at("hooks"@)) == left);
        lemma_member_is_in(left, event);
        let x = choose|x: (Seq<char>, JsonV)| left.contains(x) && x.1 == member(left, event)->Some_0;
        let k = left.index_of(x);
        swept_all.lemma_filter_pred(p, k);
        swept_all.lemma_filter_contains_rev(p, x);
        let j = swept_all.index_of(x);
        let a = members(doc.at("hooks"@))[j].1;
        assert(x.1 == swept(a, text));
        let keepers = |e: JsonV| !runs(e, text);
        a->Arr_0.lemma_filter_pred(keepers, i);
    } else {
        assert(members(doc.at("hooks"@)) =~= Seq::empty());
    }
}

/// A member is the value of one of the members.
proof fn lemma_member_is_in(m: Seq<(Seq<char>, JsonV)>, key: Seq<char>)
    ensures
        member(m, key) is Some ==> exists|x: (Seq<char>, JsonV)| #[trigger]
            m.contains(x) && x.1 == member(m, key)->Some_0,
    decreases m.len(),
{
    if m.len() > 0 {
        if m.last().0 == key {
            let x = m.last();
            assert(m[m.len() - 1] == x);
            assert(m.contains(x) && x.1 == member(m, key)->Some_0);
        } else {
            lemma_member_is_in(m.drop_last(), key);
            if member(m, key) is Some {
                let x = choose|x: (Seq<char>, JsonV)| #[trigger]
                    m.drop_last().contains(x) && x.1 == member(m.drop_last(), key)->Some_0;
                let k = m.drop_last().index_of(x);
                assert(m[k] == x);
                assert(m.contains(x));
                assert(member(m, key) == member(m.drop_last(), key));
            }
        }
    }
}

} // verus!
