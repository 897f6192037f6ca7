//! What editor hooks decide.
//!
//! A tool is only called if the model decides to call it; a hook fires in any case,
//! which is the difference between "please check before editing" and "you cannot
//! edit this". A denial is said twice, as a structured decision and as an exit code
//! with the reason, so that a client that understands either one blocks.

use vstd::prelude::*;
use vstd::string::*;

use crate::guard::{
    GuardReport, GuardReportV, GuardSuggestion, GuardSuggestionV, GuardVerdict,
};
use crate::ids::file_symbol_id;
use crate::index::file_id_of;
use crate::json::{Json, JsonV};
use crate::repo::components;
use crate::rows::{find_row, Row};
use crate::scan::{components_of, relative_of, relative_path};
use crate::store::{append, first_where, no_rows, Store, StoreV};
use crate::text::{
    cat, cat3, decimal, decimal_of, join, join_with, same, split, split_on, starts_with, without_prefix,
};

verus! {

broadcast use vstd::string::group_string_axioms;

/// An edit that is about to happen.
pub const EDITING: &'static str = "editing";

/// An edit that happened.
pub const EDITED: &'static str = "edited";

/// An edit that was refused.
pub const BLOCKED: &'static str = "blocked";

/// What a callback answers its host.
#[derive(Debug)]
pub struct HookAnswer {
    /// A structured decision for the standard output.
    pub out: Option<Json>,
    /// A reason for the standard error.
    pub err: Option<String>,
    /// The exit code.
    pub code: i64,
}

/// The contents of a [`HookAnswer`].
pub struct HookAnswerV {
    pub out: Option<JsonV>,
    pub err: Option<Seq<char>>,
    pub code: i64,
}

impl DeepView for HookAnswer {
    type V = HookAnswerV;

    open spec fn deep_view(&self) -> HookAnswerV {
        HookAnswerV {
            out: self.out.deep_view(),
            err: self.err.deep_view(),
            code: self.code,
        }
    }
}

/// Somebody about to change a file, refused it, or done with it.
#[derive(Debug)]
pub struct EditWindow {
    pub agent: String,
    pub repo_id: String,
    pub path: String,
    pub kind: String,
    pub symbol_id: Option<String>,
    pub symbol_handle: Option<String>,
    pub task: Option<String>,
    pub verdict: Option<String>,
}

/// The contents of an [`EditWindow`].
pub struct EditWindowV {
    pub agent: Seq<char>,
    pub repo_id: Seq<char>,
    pub path: Seq<char>,
    pub kind: Seq<char>,
    pub symbol_id: Option<Seq<char>>,
    pub symbol_handle: Option<Seq<char>>,
    pub task: Option<Seq<char>>,
    pub verdict: Option<Seq<char>>,
}

impl DeepView for EditWindow {
    type V = EditWindowV;

    open spec fn deep_view(&self) -> EditWindowV {
        EditWindowV {
            agent: self.agent@,
            repo_id: self.repo_id@,
            path: self.path@,
            kind: self.kind@,
            symbol_id: self.symbol_id.deep_view(),
            symbol_handle: self.symbol_handle.deep_view(),
            task: self.task.deep_view(),
            verdict: self.verdict.deep_view(),
        }
    }
}

impl Clone for EditWindow {
    fn clone(&self) -> (r: Self)
        ensures
            r.deep_view() == self.deep_view(),
    {
        let r = EditWindow {
            agent: self.agent.clone(),
            repo_id: self.repo_id.clone(),
            path: self.path.clone(),
            kind: self.kind.clone(),
            symbol_id: self.symbol_id.clone(),
            symbol_handle: self.symbol_handle.clone(),
            task: self.task.clone(),
            verdict: self.verdict.clone(),
        };
        r
    }
}

/// The task an agent is on.
#[derive(Debug)]
pub struct BriefTask {
    pub id: String,
    pub title: String,
    /// The handles it is scoped to.
    pub scope: Vec<String>,
}

/// The contents of a [`BriefTask`].
pub struct BriefTaskV {
    pub id: Seq<char>,
    pub title: Seq<char>,
    pub scope: Seq<Seq<char>>,
}

impl DeepView for BriefTask {
    type V = BriefTaskV;

    open spec fn deep_view(&self) -> BriefTaskV {
        BriefTaskV {
            id: self.id@,
            title: self.title@,
            scope: self.scope.deep_view(),
        }
    }
}

impl Clone for BriefTask {
    fn clone(&self) -> (r: Self)
        ensures
            r.deep_view() == self.deep_view(),
    {
        let r = BriefTask {
            id: self.id.clone(),
            title: self.title.clone(),
            scope: self.scope.clone(),
        };
        assert(r.scope.deep_view() =~= self.scope.deep_view());
        r
    }
}

/// A decision the team recorded.
#[derive(Debug)]
pub struct Note {
    pub key: String,
    pub value: String,
}

/// The contents of a [`Note`].
pub struct NoteV {
    pub key: Seq<char>,
    pub value: Seq<char>,
}

impl DeepView for Note {
    type V = NoteV;

    open spec fn deep_view(&self) -> NoteV {
        NoteV {
            key: self.key@,
            value: self.value@,
        }
    }
}

impl Clone for Note {
    fn clone(&self) -> (r: Self)
        ensures
            r.deep_view() == self.deep_view(),
    {
        let r = Note {
            key: self.key.clone(),
            value: self.value.clone(),
        };
        r
    }
}

/// What an agent is told at the start of a session.
#[derive(Debug)]
pub struct Briefing {
    pub task: Option<BriefTask>,
    /// How many tasks are ready to start.
    pub startable: usize,
    /// How many requests are unread.
    pub notices: usize,
    pub memory: Vec<Note>,
}

/// The contents of a [`Briefing`].
pub struct BriefingV {
    pub task: Option<BriefTaskV>,
    pub startable: usize,
    pub notices: usize,
    pub memory: Seq<NoteV>,
}

impl DeepView for Briefing {
    type V = BriefingV;

    open spec fn deep_view(&self) -> BriefingV {
        BriefingV {
            task: self.task.deep_view(),
            startable: self.startable,
            notices: self.notices,
            memory: self.memory.deep_view(),
        }
    }
}

impl Clone for Briefing {
    fn clone(&self) -> (r: Self)
        ensures
            r.deep_view() == self.deep_view(),
    {
        let r = Briefing {
            task: self.task.clone(),
            startable: self.startable,
            notices: self.notices,
            memory: self.memory.clone(),
        };
        assert(r.memory.deep_view() =~= self.memory.deep_view());
        r
    }
}

// ------------------------------------------------------------------- the payload

/// A member that is a text with something in it.
pub open spec fn text_in(v: JsonV, key: Seq<char>) -> Option<Seq<char>> {
    match v.text_at(key) {
        Some(s) => if s.len() > 0 {
            Some(s)
        } else {
            None
        },
        None => None,
    }
}

/// A member that is a text with something in it.
pub fn str_at(v: &Json, key: &str) -> (r: Option<String>)
    ensures
        r.deep_view() == text_in(v.deep_view(), key@),
{
    match v.text(key) {
        Some(s) => {
            if s.as_str().is_empty() {
                None
            } else {
                Some(s)
            }
        },
        None => None,
    }
}

/// Does a path begin at where it is read from, in so many words?
pub open spec fn begins_here(path: Seq<char>) -> bool {
    split(path, '/')[0] == "."@
}

/// Do two texts name the same path? They do if they have the same components.
pub open spec fn same_path(a: Seq<char>, b: Seq<char>) -> bool {
    &&& "/"@.is_prefix_of(a) == "/"@.is_prefix_of(b)
    &&& begins_here(a) == begins_here(b)
    &&& components(a) == components(b)
}

/// Is the path one of these?
pub open spec fn names_path(paths: Seq<Seq<char>>, p: Seq<char>) -> bool {
    exists|i: int| 0 <= i < paths.len() && same_path(#[trigger] paths[i], p)
}

/// Some paths with one more, unless it is there.
pub open spec fn with_path(paths: Seq<Seq<char>>, p: Option<Seq<char>>) -> Seq<Seq<char>> {
    match p {
        Some(x) => if names_path(paths, x) {
            paths
        } else {
            paths.push(x)
        },
        None => paths,
    }
}

/// Some paths with those of a list of edits.
pub open spec fn with_edits(paths: Seq<Seq<char>>, edits: Seq<JsonV>) -> Seq<Seq<char>>
    decreases edits.len(),
{
    if edits.len() == 0 {
        paths
    } else {
        with_path(with_edits(paths, edits.drop_last()), text_in(edits.last(), "file_path"@))
    }
}

/// Every path that a tool call is about to touch, each once. All the shapes that
/// editing tools use count: an agent that can reach around the guard with another
/// tool is not guarded.
pub open spec fn paths_edited(payload: JsonV) -> Seq<Seq<char>> {
    let input = match payload.at("tool_input"@) {
        Some(x) => x,
        None => JsonV::Obj(Seq::empty()),
    };
    let named = with_path(
        with_path(Seq::empty(), text_in(input, "file_path"@)),
        text_in(input, "notebook_path"@),
    );
    match input.at("edits"@) {
        Some(JsonV::Arr(edits)) => with_edits(named, edits),
        _ => named,
    }
}

fn is_same_path(a: &str, b: &str) -> (r: bool)
    ensures
        r == same_path(a@, b@),
{
    if starts_with(a, "/") != starts_with(b, "/") || starts_here(a) != starts_here(b) {
        return false;
    }
    let x = components_of(a);
    let y = components_of(b);
    let ghost xv = x.deep_view();
    let ghost yv = y.deep_view();
    proof {
        assert(x@.len() == xv.len());
        assert(y@.len() == yv.len());
    }
    if x.len() != y.len() {
        return false;
    }
    let mut i: usize = 0;
    while i < x.len()
        invariant
            xv == x.deep_view(),
            yv == y.deep_view(),
            xv == components(a@),
            yv == components(b@),
            x@.len() == y@.len(),
            i <= x@.len(),
            forall|k: int| 0 <= k < i ==> (#[trigger] xv[k]) == yv[k],
        decreases x@.len() - i,
    {
        assert(xv[i as int] == x@[i as int]@ && yv[i as int] == y@[i as int]@);
        if !same(x[i].as_str(), y[i].as_str()) {
            return false;
        }
        i += 1;
    }
    assert(xv =~= yv);
    true
}

fn starts_here(path: &str) -> (r: bool)
    ensures
        r == begins_here(path@),
{
    let parts = split_on(path, '/');
    let ghost pv = parts.deep_view();
    proof {
        crate::text::law_split_join(path@, '/');
        assert(parts@.len() == pv.len());
        assert(pv[0] == parts@[0]@);
    }
    same(parts[0].as_str(), ".")
}

fn has_path(paths: &Vec<String>, x: &str) -> (r: bool)
    ensures
        r == names_path(paths.deep_view(), x@),
{
    let ghost pv = paths.deep_view();
    let mut i: usize = 0;
    while i < paths.len()
        invariant
            pv == paths.deep_view(),
            i <= paths@.len(),
            forall|k: int| 0 <= k < i ==> !same_path(#[trigger] pv[k], x@),
        decreases paths@.len() - i,
    {
        assert(pv[i as int] == paths@[i as int]@);
        if is_same_path(paths[i].as_str(), x) {
            assert(same_path(pv[i as int], x@));
            return true;
        }
        i += 1;
    }
    assert(paths@.len() == pv.len());
    false
}

fn add_path(paths: &mut Vec<String>, p: Option<String>)
    ensures
        final(paths).deep_view() == with_path(old(paths).deep_view(), p.deep_view()),
{
    if let Some(x) = p {
        if !has_path(paths, x.as_str()) {
            append(paths, x);
        }
    }
}

/// Every path that a tool call is about to touch, each once.
pub fn edited_paths(payload: &Json) -> (r: Vec<String>)
    ensures
        r.deep_view() == paths_edited(payload.deep_view()),
{
    let none = Json::object();
    let input = match payload.get("tool_input") {
        Some(x) => x,
        None => &none,
    };
    let ghost iv = input.deep_view();
    let mut out: Vec<String> = no_rows();
    add_path(&mut out, str_at(input, "file_path"));
    add_path(&mut out, str_at(input, "notebook_path"));
    let ghost named = out.deep_view();
    if let Some(j) = input.get("edits") {
        if let Json::Arr(edits) = j {
            let ghost ev = j.deep_view()->Arr_0;
            assert(ev.len() == edits@.len());
            let mut i: usize = 0;
            assert(with_edits(named, ev.take(0)) == named);
            while i < edits.len()
                invariant
                    ev.len() == edits@.len(),
                    forall|k: int| 0 <= k < ev.len() ==> #[trigger] ev[k] == edits@[k].deep_view(),
                    i <= edits@.len(),
                    out.deep_view() == with_edits(named, ev.take(i as int)),
                decreases edits@.len() - i,
            {
                proof {
                    assert(ev.take(i + 1).drop_last() =~= ev.take(i as int));
                    assert(ev.take(i + 1).last() == ev[i as int]);
                }
                add_path(&mut out, str_at(&edits[i], "file_path"));
                i += 1;
            }
            assert(ev.take(i as int) =~= ev);
        }
    }
    out
}

// -------------------------------------------------------------------- the verdict

/// How bad a verdict is.
pub open spec fn badness(v: GuardVerdict) -> u8 {
    match v {
        GuardVerdict::Allowed => 0,
        GuardVerdict::Warn => 1,
        GuardVerdict::Denied => 2,
    }
}

/// How bad a verdict is.
pub fn rank(v: GuardVerdict) -> (r: u8)
    ensures
        r == badness(v),
{
    match v {
        GuardVerdict::Allowed => 0,
        GuardVerdict::Warn => 1,
        GuardVerdict::Denied => 2,
    }
}

/// The first of the reports with the worst verdict. One denied file is enough to
/// refuse a call, because the call is atomic.
pub open spec fn worst_of(reports: Seq<GuardReportV>) -> Option<GuardReportV>
    decreases reports.len(),
{
    if reports.len() == 0 {
        None
    } else {
        match worst_of(reports.drop_last()) {
            Some(w) => if badness(reports.last().verdict) > badness(w.verdict) {
                Some(reports.last())
            } else {
                Some(w)
            },
            None => Some(reports.last()),
        }
    }
}

/// The first of the reports with the worst verdict.
pub fn worst(reports: &Vec<GuardReport>) -> (r: Option<GuardReport>)
    ensures
        r.deep_view() == worst_of(reports.deep_view()),
{
    let ghost all = reports.deep_view();
    let mut best: Option<usize> = None;
    let mut i: usize = 0;
    while i < reports.len()
        invariant
            all == reports.deep_view(),
            i <= reports@.len(),
            match best {
                Some(k) => k < i && worst_of(all.take(i as int)) == Some(
                    reports@[k as int].deep_view(),
                ),
                None => worst_of(all.take(i as int)) is None,
            },
        decreases reports@.len() - i,
    {
        proof {
            assert(all.take(i + 1).drop_last() =~= all.take(i as int));
            assert(all.take(i + 1).last() == reports@[i as int].deep_view());
        }
        match best {
            Some(k) => {
                if rank(reports[i].verdict) > rank(reports[k].verdict) {
                    best = Some(i);
                }
            },
            None => {
                best = Some(i);
            },
        }
        i += 1;
    }
    assert(all.take(i as int) =~= all);
    match best {
        Some(k) => Some(reports[k].clone()),
        None => None,
    }
}

/// The number of seconds, none below zero.
pub open spec fn seconds(n: Option<i64>) -> nat {
    match n {
        Some(s) => if s > 0 {
            s as nat
        } else {
            0
        },
        None => 0,
    }
}

/// What a denial says about getting it: waiting where that is suggested first, else
/// asking.
pub open spec fn way_to_yes(s: GuardSuggestionV) -> Seq<char> {
    if s.action == "wait"@ {
        " It frees up in about "@ + decimal(seconds(s.seconds_until_free))
            + "s — wait rather than interrupt them."@
    } else {
        " Ask for it with the golab `ask` tool (kind=lease-transfer, symbol=\""@ + s.symbol
            + "\"), or run: "@ + s.command
    }
}

/// What a denial says about staying out of the way.
pub open spec fn way_around(s: GuardSuggestionV) -> Seq<char> {
    " If your change does not touch "@ + s.symbol
        + ", you may edit a different symbol in this file instead — re-check with the `check_edit` tool naming that symbol."@
}

/// Why an edit is refused: not "no", but "no, and here is how to get to yes".
pub open spec fn refusal_of(r: GuardReportV) -> Seq<char> {
    let head = "golab: "@ + r.summary + "."@;
    let ask = first_where(
        r.suggestions,
        |s: GuardSuggestionV| s.action == "request-transfer"@ || s.action == "wait"@,
    );
    let narrow = first_where(r.suggestions, |s: GuardSuggestionV| s.action == "narrow"@);
    let mid = match ask {
        Some(s) => head + way_to_yes(s),
        None => head,
    };
    match narrow {
        Some(s) => mid + way_around(s),
        None => mid,
    }
}

/// Why an edit is refused, and how to get to yes.
pub fn deny_reason(report: &GuardReport) -> (r: String)
    ensures
        r@ == refusal_of(report.deep_view()),
{
    let mut msg = cat3("golab: ", report.summary.as_str(), ".");
    let ask = |s: &GuardSuggestion| -> (b: bool)
        ensures b == (s.deep_view().action == "request-transfer"@ || s.deep_view().action == "wait"@)
    {
        same(s.action.as_str(), "request-transfer") || same(s.action.as_str(), "wait")
    };
    let narrow = |s: &GuardSuggestion| -> (b: bool)
        ensures b == (s.deep_view().action == "narrow"@)
    {
        same(s.action.as_str(), "narrow")
    };
    if let Some(i) = find_row(
        &report.suggestions,
        ask,
        Ghost(
            |s: GuardSuggestionV| s.action == "request-transfer"@ || s.action == "wait"@,
        ),
    ) {
        let s = &report.suggestions[i];
        let way = if same(s.action.as_str(), "wait") {
            let n: u64 = match s.seconds_until_free {
                Some(x) => {
                    if x > 0 {
                        x as u64
                    } else {
                        0
                    }
                },
                None => 0,
            };
            cat3(
                " It frees up in about ",
                decimal_of(n).as_str(),
                "s — wait rather than interrupt them.",
            )
        } else {
            let head = cat3(
                " Ask for it with the golab `ask` tool (kind=lease-transfer, symbol=\"",
                s.symbol.as_str(),
                "\"), or run: ",
            );
            cat(head.as_str(), s.command.as_str())
        };
        msg = cat(msg.as_str(), way.as_str());
    }
    if let Some(i) = find_row(
        &report.suggestions,
        narrow,
        Ghost(|s: GuardSuggestionV| s.action == "narrow"@),
    ) {
        let s = &report.suggestions[i];
        let way = cat3(
            " If your change does not touch ",
            s.symbol.as_str(),
            ", you may edit a different symbol in this file instead — re-check with the `check_edit` tool naming that symbol.",
        );
        msg = cat(msg.as_str(), way.as_str());
    }
    msg
}

/// The structured form of a denial.
pub open spec fn denial(reason: Seq<char>) -> JsonV {
    JsonV::Obj(
        seq![
            (
                "hookSpecificOutput"@,
                JsonV::Obj(
                    seq![
                        ("hookEventName"@, JsonV::Str("PreToolUse"@)),
                        ("permissionDecision"@, JsonV::Str("deny"@)),
                        ("permissionDecisionReason"@, JsonV::Str(reason)),
                    ],
                ),
            ),
        ],
    )
}

/// Saying nothing. An explicit "allow" would override the user's own rules.
pub open spec fn silence() -> HookAnswerV {
    HookAnswerV { out: None, err: None, code: 0 }
}

/// What the guard answers: silence unless the worst report refuses the call. The
/// mode says how to say no: `json`, `exit`, or anything else for both.
pub open spec fn guard_answer(mode: Seq<char>, reports: Seq<GuardReportV>) -> HookAnswerV {
    match worst_of(reports) {
        None => silence(),
        Some(r) => if !(r.verdict is Denied) {
            silence()
        } else {
            HookAnswerV {
                out: if mode == "exit"@ {
                    None
                } else {
                    Some(denial(refusal_of(r)))
                },
                err: if mode == "json"@ {
                    None
                } else {
                    Some(refusal_of(r))
                },
                code: if mode == "json"@ {
                    0
                } else {
                    2
                },
            }
        },
    }
}

/// What the guard answers.
pub fn answer_guard(mode: &str, reports: &Vec<GuardReport>) -> (r: HookAnswer)
    ensures
        r.deep_view() == guard_answer(mode@, reports.deep_view()),
{
    let quiet = HookAnswer { out: None, err: None, code: 0 };
    match worst(reports) {
        None => quiet,
        Some(w) => {
            if !w.blocking() {
                return quiet;
            }
            let reason = deny_reason(&w);
            let out = if same(mode, "exit") {
                None
            } else {
                let inner = Json::object().with("hookEventName", Json::str("PreToolUse")).with(
                    "permissionDecision",
                    Json::str("deny"),
                ).with("permissionDecisionReason", Json::str(reason.as_str()));
                let ghost want = denial(reason@)->Obj_0[0].1;
                assert(inner.deep_view()->Obj_0 =~= want->Obj_0);
                let d = Json::object().with("hookSpecificOutput", inner);
                assert(d.deep_view()->Obj_0 =~= denial(reason@)->Obj_0);
                Some(d)
            };
            let (err, code) = if same(mode, "json") {
                (None, 0)
            } else {
                (Some(reason), 2)
            };
            HookAnswer { out, err, code }
        },
    }
}

/// The edit window that a report opens. A refused edit is exactly the contention
/// worth showing.
pub open spec fn window_of(agent: Seq<char>, r: GuardReportV) -> EditWindowV {
    EditWindowV {
        agent,
        repo_id: r.repo_id,
        path: r.path,
        kind: if r.verdict is Denied {
            BLOCKED@
        } else {
            EDITING@
        },
        symbol_id: r.anchor,
        symbol_handle: r.anchor_handle,
        task: None,
        verdict: Some(r.verdict.word()),
    }
}

/// The edit window that a report opens.
pub fn edit_window(agent: &str, report: &GuardReport) -> (r: EditWindow)
    ensures
        r.deep_view() == window_of(agent@, report.deep_view()),
{
    EditWindow {
        agent: agent.to_owned(),
        repo_id: report.repo_id.clone(),
        path: report.path.clone(),
        kind: if report.blocking() {
            BLOCKED.to_owned()
        } else {
            EDITING.to_owned()
        },
        symbol_id: report.anchor.clone(),
        symbol_handle: report.anchor_handle.clone(),
        task: None,
        verdict: Some(report.verdict.as_str().to_owned()),
    }
}

// -------------------------------------------------------------------- the session

/// The context that a session opens with.
pub open spec fn context_of(text: Seq<char>) -> JsonV {
    JsonV::Obj(
        seq![
            (
                "hookSpecificOutput"@,
                JsonV::Obj(
                    seq![
                        ("hookEventName"@, JsonV::Str("SessionStart"@)),
                        ("additionalContext"@, JsonV::Str(text)),
                    ],
                ),
            ),
        ],
    )
}

/// The answer to the start of a session.
pub fn answer_start(text: &Option<String>) -> (r: HookAnswer)
    ensures
        r.deep_view() == (match text.deep_view() {
            Some(t) => HookAnswerV { out: Some(context_of(t)), err: None, code: 0 },
            None => silence(),
        }),
{
    match text {
        None => HookAnswer { out: None, err: None, code: 0 },
        Some(t) => {
            let inner = Json::object().with("hookEventName", Json::str("SessionStart")).with(
                "additionalContext",
                Json::str(t.as_str()),
            );
            let ghost want = context_of(t@)->Obj_0[0].1;
            assert(inner.deep_view()->Obj_0 =~= want->Obj_0);
            let d = Json::object().with("hookSpecificOutput", inner);
            assert(d.deep_view()->Obj_0 =~= context_of(t@)->Obj_0);
            HookAnswer { out: Some(d), err: None, code: 0 }
        },
    }
}

/// The first decisions of the team, a line each.
pub open spec fn memory_lines(notes: Seq<NoteV>) -> Seq<char>
    decreases notes.len(),
{
    if notes.len() == 0 {
        Seq::empty()
    } else {
        memory_lines(notes.drop_last()) + "- "@ + notes.last().key + ": "@ + notes.last().value + "\n"@
    }
}

/// How many decisions of the team are told.
pub const MAX_NOTES: usize = 5;

/// What an agent is told at the start of a session.
pub open spec fn brief_of(agent: Seq<char>, b: BriefingV) -> Seq<char> {
    let head = "This repository is coordinated by golab; you are `"@ + agent
        + "`. Other people and agents may be editing it right now. Call the golab `check_edit` tool before editing a file, and do not edit anything it reports as denied.\n"@;
    let work = match b.task {
        Some(t) => head + "You are on "@ + t.id + ": "@ + t.title + ". Scope: "@ + join(
            t.scope,
            ", "@,
        ) + ".\n"@,
        None => if b.startable > 0 {
            head + decimal(b.startable as nat)
                + " task(s) are ready to start; call the golab `next_task` tool to take one.\n"@
        } else {
            head
        },
    };
    let asked = if b.notices > 0 {
        work + decimal(b.notices as nat)
            + " unread request(s) from other agents — call `inbox`.\n"@
    } else {
        work
    };
    if b.memory.len() > 0 {
        asked + "Team decisions already recorded:\n"@ + memory_lines(
            crate::arch::at_most(b.memory, MAX_NOTES as nat),
        )
    } else {
        asked
    }
}

impl Row for Note {
    fn copy(&self) -> (r: Self) {
        self.clone()
    }
}

fn note_lines(notes: &Vec<Note>) -> (r: String)
    ensures
        r@ == memory_lines(notes.deep_view()),
{
    let ghost all = notes.deep_view();
    let mut out = String::new();
    let mut i: usize = 0;
    assert(out@ =~= memory_lines(all.take(0)));
    while i < notes.len()
        invariant
            all == notes.deep_view(),
            i <= notes@.len(),
            out@ == memory_lines(all.take(i as int)),
        decreases notes@.len() - i,
    {
        proof {
            assert(all.take(i + 1).drop_last() =~= all.take(i as int));
            assert(all.take(i + 1).last() == notes@[i as int].deep_view());
        }
        let head = cat3(out.as_str(), "- ", notes[i].key.as_str());
        let mid = cat3(head.as_str(), ": ", notes[i].value.as_str());
        out = cat(mid.as_str(), "\n");
        i += 1;
    }
    assert(all.take(i as int) =~= all);
    out
}

/// What an agent is told at the start of a session.
pub fn brief(agent: &str, b: &Briefing) -> (r: String)
    ensures
        r@ == brief_of(agent@, b.deep_view()),
{
    let mut out = cat3(
        "This repository is coordinated by golab; you are `",
        agent,
        "`. Other people and agents may be editing it right now. Call the golab `check_edit` tool before editing a file, and do not edit anything it reports as denied.\n",
    );
    match &b.task {
        Some(t) => {
            let a = cat3(out.as_str(), "You are on ", t.id.as_str());
            let c = cat3(a.as_str(), ": ", t.title.as_str());
            let scope = join_with(&t.scope, ", ");
            let d = cat3(c.as_str(), ". Scope: ", scope.as_str());
            out = cat(d.as_str(), ".\n");
        },
        None => {
            if b.startable > 0 {
                out = cat3(
                    out.as_str(),
                    decimal_of(b.startable as u64).as_str(),
                    " task(s) are ready to start; call the golab `next_task` tool to take one.\n",
                );
            }
        },
    }
    if b.notices > 0 {
        out = cat3(
            out.as_str(),
            decimal_of(b.notices as u64).as_str(),
            " unread request(s) from other agents — call `inbox`.\n",
        );
    }
    assert(b.memory@.len() == b.memory.deep_view().len());
    if b.memory.len() > 0 {
        let lines = note_lines(&crate::graph::first_rows(&b.memory, MAX_NOTES));
        out = cat3(out.as_str(), "Team decisions already recorded:\n", lines.as_str());
    }
    out
}

// ---------------------------------------------------------------- after the edit

/// A path of a workspace as its repository sees it.
pub open spec fn inside_root(root: Seq<char>, path: Seq<char>) -> Seq<char> {
    if root == "."@ {
        path
    } else if (root + "/"@).is_prefix_of(path) {
        path.skip((root + "/"@).len() as int)
    } else {
        Seq::empty()
    }
}

impl StoreV {
    /// The repository that owns a path, and the path inside it. Paths are read from
    /// the root of the workspace unless they are absolute.
    pub open spec fn locate(self, root: Seq<char>, path: Seq<char>) -> Option<(Seq<char>, Seq<char>)> {
        let rel = if "/"@.is_prefix_of(path) {
            relative_of(root, path)
        } else {
            Some(crate::text::replaced(path, '\\', '/'))
        };
        match rel {
            None => None,
            Some(p) => match self.repo_for_path(p) {
                Some(r) => Some((r.id, inside_root(r.root_path, p))),
                None => None,
            },
        }
    }

    /// The first of some paths whose file is indexed: its symbol and its path.
    pub open spec fn anchor(self, root: Seq<char>, paths: Seq<Seq<char>>) -> Option<(Seq<char>, Seq<char>)>
        decreases paths.len(),
    {
        if paths.len() == 0 {
            None
        } else {
            match self.anchor(root, paths.drop_last()) {
                Some(a) => Some(a),
                None => match self.locate(root, paths.last()) {
                    Some((repo, rel)) => if self.symbol(file_id_of(repo, rel)) is Some {
                        Some((file_id_of(repo, rel), rel))
                    } else {
                        None
                    },
                    None => None,
                },
            }
        }
    }

    /// What progress an edit reports: the symbol, and a note in words.
    pub open spec fn edit_note(self, root: Seq<char>, paths: Seq<Seq<char>>) -> (
        Option<Seq<char>>,
        Seq<char>,
    ) {
        match self.anchor(root, paths) {
            Some((id, rel)) => (Some(id), "edited "@ + rel),
            None => if paths.len() > 0 {
                (None, "edited "@ + paths[0])
            } else {
                (None, "edited"@)
            },
        }
    }
}

impl Store {
    /// The repository that owns a path, and the path inside it.
    pub fn locate(&self, root: &str, path: &str) -> (r: Option<(String, String)>)
        ensures
            match r {
                Some((a, b)) => self@.locate(root@, path@) == Some((a@, b@)),
                None => self@.locate(root@, path@) is None,
            },
    {
        let rel = if starts_with(path, "/") {
            match relative_path(root, path) {
                Some(p) => p,
                None => {
                    return None;
                },
            }
        } else {
            crate::text::replace_char(path, '\\', '/')
        };
        match self.repo_for_path(rel.as_str()) {
            Some(repo) => {
                let inner = if same(repo.root_path.as_str(), ".") {
                    rel
                } else {
                    match without_prefix(rel.as_str(), cat(repo.root_path.as_str(), "/").as_str()) {
                        Some(x) => x,
                        None => {
                            let none = String::new();
                            assert(none@ =~= Seq::empty());
                            none
                        },
                    }
                };
                Some((repo.id, inner))
            },
            None => None,
        }
    }

    fn anchor(&self, root: &str, paths: &Vec<String>) -> (r: Option<(String, String)>)
        ensures
            match r {
                Some((a, b)) => self@.anchor(root@, paths.deep_view()) == Some((a@, b@)),
                None => self@.anchor(root@, paths.deep_view()) is None,
            },
    {
        let ghost all = paths.deep_view();
        let mut found: Option<(String, String)> = None;
        let mut i: usize = 0;
        while i < paths.len()
            invariant
                all == paths.deep_view(),
                i <= paths@.len(),
                match found {
                    Some((a, b)) => self@.anchor(root@, all.take(i as int)) == Some((a@, b@)),
                    None => self@.anchor(root@, all.take(i as int)) is None,
                },
            decreases paths@.len() - i,
        {
            proof {
                assert(all.take(i + 1).drop_last() =~= all.take(i as int));
                assert(all.take(i + 1).last() == paths@[i as int]@);
            }
            if found.is_none() {
                if let Some((repo, rel)) = self.locate(root, paths[i].as_str()) {
                    let id = file_symbol_id(repo.as_str(), rel.as_str());
                    if self.symbol_at(id.as_str()).is_some() {
                        found = Some((id, rel));
                    }
                }
            }
            i += 1;
        }
        assert(all.take(i as int) =~= all);
        found
    }

    /// What progress an edit reports: the symbol, and a note in words.
    pub fn edit_note(&self, root: &str, paths: &Vec<String>) -> (r: (Option<String>, String))
        ensures
            (r.0.deep_view(), r.1@) == self@.edit_note(root@, paths.deep_view()),
    {
        match self.anchor(root, paths) {
            Some((id, rel)) => (Some(id), cat("edited ", rel.as_str())),
            None => {
                assert(paths@.len() == paths.deep_view().len());
                if paths.len() > 0 {
                    assert(paths.deep_view()[0] == paths@[0]@);
                    (None, cat("edited ", paths[0].as_str()))
                } else {
                    (None, "edited".to_owned())
                }
            },
        }
    }
}

// ------------------------------------------------------------------------ laws

/// A call is refused exactly where one of its files is: the worst verdict wins.
pub proof fn law_one_denied_file_refuses_the_call(reports: Seq<GuardReportV>)
    ensures
        (worst_of(reports) matches Some(w) && w.verdict is Denied) <==> exists|i: int|
            0 <= i < reports.len() && (#[trigger] reports[i]).verdict is Denied,
        worst_of(reports) matches Some(w) ==> forall|i: int|
            0 <= i < reports.len() ==> badness((#[trigger] reports[i]).verdict) <= badness(w.verdict),
        worst_of(reports) is None <==> reports.len() == 0,
    decreases reports.len(),
{
    if reports.len() > 0 {
        let t = reports.drop_last();
        law_one_denied_file_refuses_the_call(t);
        let w = worst_of(reports)->Some_0;
        assert forall|i: int| 0 <= i < reports.len() implies badness((#[trigger] reports[i]).verdict)
            <= badness(w.verdict) by {
            if i < t.len() {
                assert(t[i] == reports[i]);
            }
        }
        if w.verdict is Denied {
            if worst_of(t) matches Some(v) && v.verdict is Denied {
                let i = choose|i: int| 0 <= i < t.len() && (#[trigger] t[i]).verdict is Denied;
                assert(reports[i].verdict is Denied);
            } else {
                assert(reports[reports.len() - 1].verdict is Denied);
            }
        }
        if exists|i: int| 0 <= i < reports.len() && (#[trigger] reports[i]).verdict is Denied {
            let i = choose|i: int| 0 <= i < reports.len() && (#[trigger] reports[i]).verdict is Denied;
            assert(badness(reports[i].verdict) <= badness(w.verdict));
        }
    }
}

/// A denial blocks a client that reads the structured decision and one that only
/// looks at the exit code, unless the mode leaves one of them out.
pub proof fn law_a_denial_is_said_twice(mode: Seq<char>, reports: Seq<GuardReportV>)
    requires
        worst_of(reports) matches Some(w) && w.verdict is Denied,
    ensures
        mode != "exit"@ ==> guard_answer(mode, reports).out is Some,
        mode != "json"@ ==> guard_answer(mode, reports).code == 2 && guard_answer(
            mode,
            reports,
        ).err is Some,
{
}

/// No path is guarded twice.
pub proof fn law_paths_once(paths: Seq<Seq<char>>, p: Option<Seq<char>>)
    requires
        forall|i: int, j: int|
            0 <= i < j < paths.len() ==> !same_path(#[trigger] paths[i], #[trigger] paths[j]),
    ensures
        forall|i: int, j: int|
            0 <= i < j < with_path(paths, p).len() ==> !same_path(
                #[trigger] with_path(paths, p)[i],
                #[trigger] with_path(paths, p)[j],
            ),
{
}

} // verus!
