//! What a call of an editing tool is answered.

use vstd::prelude::*;
use vstd::string::*;

use crate::arch::at_most;
use crate::claim_laws::lemma_first;
use crate::guard::{GuardReportV, GuardSuggestionV};
use crate::hooks::{
    brief_of, guard_answer, law_one_denied_file_refuses_the_call, memory_lines, names_path, paths_edited, refusal_of,
    same_path, text_in, way_to_yes, with_edits, with_path, worst_of, BriefingV, NoteV, MAX_NOTES,
};
use crate::json::JsonV;
use crate::store::first_where;
use crate::text::{decimal, join};

verus! {

broadcast use vstd::string::group_string_axioms;

/// Does a call name a path to edit: as its file, as its notebook, or as the file of one of
/// its edits?
pub open spec fn edits_path(payload: JsonV, p: Seq<char>) -> bool {
    &&& p.len() > 0
    &&& payload.at("tool_input"@) matches Some(input) && {
        ||| input.text_at("file_path"@) == Some(p)
        ||| input.text_at("notebook_path"@) == Some(p)
        ||| input.at("edits"@) matches Some(JsonV::Arr(edits)) && exists|k: int|
            0 <= k < edits.len() && (#[trigger] edits[k]).text_at("file_path"@) == Some(p)
    }
}

proof fn lemma_with_path(paths: Seq<Seq<char>>, p: Option<Seq<char>>)
    ensures
        p matches Some(x) ==> names_path(with_path(paths, p), x),
        forall|x: Seq<char>| names_path(paths, x) ==> #[trigger] names_path(with_path(paths, p), x),
        forall|k: int|
            0 <= k < with_path(paths, p).len() ==> paths.contains(#[trigger] with_path(paths, p)[k]) || p == Some(
                with_path(paths, p)[k],
            ),
{
    let r = with_path(paths, p);
    if let Some(x) = p {
        if !names_path(paths, x) {
            assert(same_path(r[paths.len() as int], x));
        }
    }
    assert forall|x: Seq<char>| names_path(paths, x) implies #[trigger] names_path(r, x) by {
        let i = choose|i: int| 0 <= i < paths.len() && same_path(#[trigger] paths[i], x);
        assert(r[i] == paths[i]);
    }
    assert forall|k: int| 0 <= k < r.len() implies paths.contains(#[trigger] r[k]) || p == Some(r[k]) by {
        if k < paths.len() {
            assert(r[k] == paths[k]);
        }
    }
}

proof fn lemma_with_edits(paths: Seq<Seq<char>>, edits: Seq<JsonV>)
    ensures
        forall|k: int|
            0 <= k < edits.len() && text_in(#[trigger] edits[k], "file_path"@) is Some ==> names_path(
                with_edits(paths, edits),
                text_in(edits[k], "file_path"@)->0,
            ),
        forall|x: Seq<char>| names_path(paths, x) ==> #[trigger] names_path(with_edits(paths, edits), x),
        forall|n: int|
            0 <= n < with_edits(paths, edits).len() ==> paths.contains(#[trigger] with_edits(paths, edits)[n])
                || exists|k: int|
                0 <= k < edits.len() && text_in(#[trigger] edits[k], "file_path"@) == Some(
                    with_edits(paths, edits)[n],
                ),
    decreases edits.len(),
{
    if edits.len() > 0 {
        let init = edits.drop_last();
        let last = edits.len() - 1;
        lemma_with_edits(paths, init);
        let a = with_edits(paths, init);
        let p = text_in(edits.last(), "file_path"@);
        lemma_with_path(a, p);
        let r = with_edits(paths, edits);
        assert forall|k: int| 0 <= k < edits.len() && text_in(#[trigger] edits[k], "file_path"@) is Some implies names_path(
            r,
            text_in(edits[k], "file_path"@)->0,
        ) by {
            if k < last {
                assert(init[k] == edits[k]);
                assert(names_path(a, text_in(init[k], "file_path"@)->0));
            }
        }
        assert forall|n: int| 0 <= n < r.len() implies paths.contains(#[trigger] r[n]) || exists|k: int|
            0 <= k < edits.len() && text_in(#[trigger] edits[k], "file_path"@) == Some(r[n]) by {
            if p == Some(r[n]) {
                assert(text_in(edits[last], "file_path"@) == Some(r[n]));
            } else {
                assert(a.contains(r[n]));
                let m = choose|m: int| 0 <= m < a.len() && a[m] == r[n];
                if !paths.contains(a[m]) {
                    let k = choose|k: int|
                        0 <= k < init.len() && text_in(#[trigger] init[k], "file_path"@) == Some(a[m]);
                    assert(edits[k] == init[k]);
                }
            }
        }
    }
}

/// Every path that a call edits is looked at.
pub proof fn law_edited_paths_are_looked_at(payload: JsonV, p: Seq<char>)
    requires
        edits_path(payload, p),
    ensures
        exists|k: int|
            0 <= k < paths_edited(payload).len() && same_path(#[trigger] paths_edited(payload)[k], p),
{
    let input = payload.at("tool_input"@)->0;
    let none = Seq::<Seq<char>>::empty();
    let f = text_in(input, "file_path"@);
    let n = text_in(input, "notebook_path"@);
    lemma_with_path(none, f);
    let a = with_path(none, f);
    lemma_with_path(a, n);
    let named = with_path(a, n);
    if f == Some(p) {
        assert(names_path(a, p));
    }
    if let Some(JsonV::Arr(edits)) = input.at("edits"@) {
        lemma_with_edits(named, edits);
        if !names_path(named, p) {
            let k = choose|k: int| 0 <= k < edits.len() && (#[trigger] edits[k]).text_at("file_path"@) == Some(p);
            assert(text_in(edits[k], "file_path"@) == Some(p));
        }
    }
    assert(names_path(paths_edited(payload), p));
}

/// Nothing else is looked at.
pub proof fn law_only_edited_paths_are_looked_at(payload: JsonV, n: int)
    requires
        0 <= n < paths_edited(payload).len(),
    ensures
        edits_path(payload, paths_edited(payload)[n]),
{
    let input = match payload.at("tool_input"@) {
        Some(x) => x,
        None => JsonV::Obj(Seq::empty()),
    };
    let none = Seq::<Seq<char>>::empty();
    let f = text_in(input, "file_path"@);
    let b = text_in(input, "notebook_path"@);
    lemma_with_path(none, f);
    let a = with_path(none, f);
    lemma_with_path(a, b);
    let named = with_path(a, b);
    let r = paths_edited(payload);
    let x = r[n];
    if let Some(JsonV::Arr(edits)) = input.at("edits"@) {
        lemma_with_edits(named, edits);
        if !named.contains(x) {
            let k = choose|k: int| 0 <= k < edits.len() && text_in(#[trigger] edits[k], "file_path"@) == Some(x);
            assert(edits[k].text_at("file_path"@) == Some(x));
        }
    } else {
        assert(named.contains(x));
    }
    if named.contains(x) {
        let m = choose|m: int| 0 <= m < named.len() && named[m] == x;
        assert(a.contains(named[m]) || b == Some(named[m]));
        if a.contains(x) {
            let q = choose|q: int| 0 <= q < a.len() && a[q] == x;
            assert(none.contains(a[q]) || f == Some(a[q]));
        }
    }
}

/// A call is refused where one of its files is, and said so as the mode has it: on the
/// error stream with a code, as a decision, or both. Otherwise nothing is said.
pub proof fn law_refusals(mode: Seq<char>, reports: Seq<GuardReportV>)
    ensures
        ({
            let a = guard_answer(mode, reports);
            let refused = exists|i: int| 0 <= i < reports.len() && (#[trigger] reports[i]).verdict is Denied;
            &&& !refused ==> a.out is None && a.err is None && a.code == 0
            &&& refused ==> {
                &&& a.out is Some <==> mode != "exit"@
                &&& a.err is Some <==> mode != "json"@
                &&& a.code == if mode == "json"@ {
                    0int
                } else {
                    2int
                }
                &&& a.err matches Some(text) ==> exists|i: int|
                    0 <= i < reports.len() && (#[trigger] reports[i]).verdict is Denied && text == refusal_of(reports[i])
            }
        }),
{
    law_one_denied_file_refuses_the_call(reports);
    lemma_worst(reports);
}

proof fn lemma_worst(reports: Seq<GuardReportV>)
    ensures
        worst_of(reports) matches Some(w) ==> exists|i: int| 0 <= i < reports.len() && #[trigger] reports[i] == w,
    decreases reports.len(),
{
    if reports.len() > 0 {
        let init = reports.drop_last();
        lemma_worst(init);
        let last = reports.len() - 1;
        if let Some(w) = worst_of(init) {
            let i = choose|i: int| 0 <= i < init.len() && #[trigger] init[i] == w;
            assert(reports[i] == w);
        }
        assert(reports[last] == reports.last());
    }
}

// ------------------------------------------------------------------------- what is said

/// Is a piece somewhere in a text?
pub open spec fn mentions_text(text: Seq<char>, piece: Seq<char>) -> bool {
    exists|pre: Seq<char>, post: Seq<char>| text == #[trigger] (pre + piece + post)
}

proof fn lemma_mentions(pre: Seq<char>, piece: Seq<char>, post: Seq<char>)
    ensures
        mentions_text(pre + piece + post, piece),
        mentions_text(pre + piece, piece),
{
    let none = Seq::<char>::empty();
    assert(pre + piece =~= pre + piece + none);
}

pub(crate) proof fn lemma_mentions_on(text: Seq<char>, piece: Seq<char>, more: Seq<char>)
    requires
        mentions_text(text, piece),
    ensures
        mentions_text(text + more, piece),
        mentions_text(more + text, piece),
{
    let (pre, post) = choose|pre: Seq<char>, post: Seq<char>| text == #[trigger] (pre + piece + post);
    assert(text + more =~= pre + piece + (post + more));
    assert(more + text =~= (more + pre) + piece + post);
}

proof fn lemma_memory_lines(notes: Seq<NoteV>, k: int)
    requires
        0 <= k < notes.len(),
    ensures
        mentions_text(memory_lines(notes), notes[k].key + ": "@ + notes[k].value),
    decreases notes.len(),
{
    let init = notes.drop_last();
    let x = notes.last();
    let before = memory_lines(init);
    let piece = notes[k].key + ": "@ + notes[k].value;
    let line = "- "@ + x.key + ": "@ + x.value + "\n"@;
    assert(memory_lines(notes) =~= before + line);
    if k < notes.len() - 1 {
        assert(init[k] == notes[k]);
        lemma_memory_lines(init, k);
        lemma_mentions_on(before, piece, line);
    } else {
        assert(memory_lines(notes) =~= (before + "- "@) + piece + "\n"@);
    }
}

/// An agent that starts a session is told what it works on, or else how much it could
/// start; how many requests wait for it; and the first decisions that were recorded.
pub proof fn law_briefing(agent: Seq<char>, b: BriefingV, k: int)
    ensures
        ({
            let text = brief_of(agent, b);
            &&& mentions_text(text, "you are `"@ + agent + "`"@)
            &&& b.task matches Some(t) ==> mentions_text(text, "You are on "@ + t.id + ": "@ + t.title)
            &&& b.task is None && b.startable > 0 ==> mentions_text(
                text,
                decimal(b.startable as nat) + " task(s) are ready to start"@,
            )
            &&& b.notices > 0 ==> mentions_text(text, decimal(b.notices as nat) + " unread request(s)"@)
            &&& 0 <= k < b.memory.len() && k < 5 ==> mentions_text(
                text,
                b.memory[k].key + ": "@ + b.memory[k].value,
            )
        }),
{
    let text = brief_of(agent, b);
    let head = "This repository is coordinated by golab; you are `"@ + agent
        + "`. Other people and agents may be editing it right now. Call the golab `check_edit` tool before editing a file, and do not edit anything it reports as denied.\n"@;
    let own = "you are `"@ + agent + "`"@;
    assert(mentions_text(head, own)) by {
        reveal_strlit("This repository is coordinated by golab; you are `");
        reveal_strlit("you are `");
        reveal_strlit("`");
        reveal_strlit(
            "`. Other people and agents may be editing it right now. Call the golab `check_edit` tool before editing a file, and do not edit anything it reports as denied.\n",
        );
        let a = "This repository is coordinated by golab; you are `"@;
        let c = "`. Other people and agents may be editing it right now. Call the golab `check_edit` tool before editing a file, and do not edit anything it reports as denied.\n"@;
        let n = "you are `"@.len() as int;
        assert(a.skip(a.len() - n) =~= "you are `"@);
        assert(c.take(1) =~= "`"@);
        assert(a =~= a.take(a.len() - n) + "you are `"@);
        assert(c =~= "`"@ + c.skip(1));
        assert(head =~= a.take(a.len() - n) + own + c.skip(1));
    }
    let work = match b.task {
        Some(t) => head + "You are on "@ + t.id + ": "@ + t.title + ". Scope: "@ + join(t.scope, ", "@) + ".\n"@,
        None => if b.startable > 0 {
            head + decimal(b.startable as nat)
                + " task(s) are ready to start; call the golab `next_task` tool to take one.\n"@
        } else {
            head
        },
    };
    let added = work.skip(head.len() as int);
    assert(work =~= head + added);
    lemma_mentions_on(head, own, added);
    if let Some(t) = b.task {
        let piece = "You are on "@ + t.id + ": "@ + t.title;
        assert(work =~= head + piece + (". Scope: "@ + join(t.scope, ", "@) + ".\n"@));
    } else if b.startable > 0 {
        reveal_strlit(" task(s) are ready to start; call the golab `next_task` tool to take one.\n");
        reveal_strlit(" task(s) are ready to start");
        let c = " task(s) are ready to start; call the golab `next_task` tool to take one.\n"@;
        let d = " task(s) are ready to start"@;
        assert(c.take(d.len() as int) =~= d);
        assert(work =~= head + (decimal(b.startable as nat) + d) + c.skip(d.len() as int));
    }
    let asked = if b.notices > 0 {
        work + decimal(b.notices as nat) + " unread request(s) from other agents — call `inbox`.\n"@
    } else {
        work
    };
    let more = asked.skip(work.len() as int);
    assert(asked =~= work + more);
    lemma_mentions_on(work, own, more);
    if let Some(t) = b.task {
        lemma_mentions_on(work, "You are on "@ + t.id + ": "@ + t.title, more);
    } else if b.startable > 0 {
        lemma_mentions_on(work, decimal(b.startable as nat) + " task(s) are ready to start"@, more);
    }
    if b.notices > 0 {
        reveal_strlit(" unread request(s) from other agents — call `inbox`.\n");
        reveal_strlit(" unread request(s)");
        let c = " unread request(s) from other agents — call `inbox`.\n"@;
        let d = " unread request(s)"@;
        assert(c.take(d.len() as int) =~= d);
        assert(asked =~= work + (decimal(b.notices as nat) + d) + c.skip(d.len() as int));
    }
    let rest = text.skip(asked.len() as int);
    assert(text =~= asked + rest);
    lemma_mentions_on(asked, own, rest);
    if let Some(t) = b.task {
        lemma_mentions_on(asked, "You are on "@ + t.id + ": "@ + t.title, rest);
    } else if b.startable > 0 {
        lemma_mentions_on(asked, decimal(b.startable as nat) + " task(s) are ready to start"@, rest);
    }
    if b.notices > 0 {
        lemma_mentions_on(asked, decimal(b.notices as nat) + " unread request(s)"@, rest);
    }
    if 0 <= k < b.memory.len() && k < 5 {
        let notes = at_most(b.memory, MAX_NOTES as nat);
        assert(notes[k] == b.memory[k]);
        lemma_memory_lines(notes, k);
        let lines = memory_lines(notes);
        let front = asked + "Team decisions already recorded:\n"@;
        assert(text =~= front + lines);
        lemma_mentions_on(lines, b.memory[k].key + ": "@ + b.memory[k].value, front);
    }
}

/// A refusal says what is held by whom, and how to ask for it.
pub proof fn law_refusal_text(r: GuardReportV, k: int)
    ensures
        mentions_text(refusal_of(r), r.summary),
        0 <= k < r.suggestions.len() && r.suggestions[k].action == "request-transfer"@ && (forall|j: int|
            0 <= j < k ==> (#[trigger] r.suggestions[j]).action != "request-transfer"@ && r.suggestions[j].action
                != "wait"@) ==> mentions_text(refusal_of(r), r.suggestions[k].command) && mentions_text(
            refusal_of(r),
            r.suggestions[k].symbol,
        ),
{
    let head = "golab: "@ + r.summary + "."@;
    lemma_mentions("golab: "@, r.summary, "."@);
    let asks = |s: GuardSuggestionV| s.action == "request-transfer"@ || s.action == "wait"@;
    let ask = first_where(r.suggestions, asks);
    let mid = match ask {
        Some(s) => head + way_to_yes(s),
        None => head,
    };
    let a = mid.skip(head.len() as int);
    assert(mid =~= head + a);
    lemma_mentions_on(head, r.summary, a);
    let text = refusal_of(r);
    let z = text.skip(mid.len() as int);
    assert(text =~= mid + z);
    lemma_mentions_on(mid, r.summary, z);
    if 0 <= k < r.suggestions.len() && r.suggestions[k].action == "request-transfer"@ && (forall|j: int|
        0 <= j < k ==> (#[trigger] r.suggestions[j]).action != "request-transfer"@ && r.suggestions[j].action
            != "wait"@) {
        let x = r.suggestions[k];
        assert forall|j: int| 0 <= j < k implies !asks(#[trigger] r.suggestions[j]) by {}
        lemma_first(r.suggestions, asks, k);
        assert(x.action != "wait"@) by {
            reveal_strlit("request-transfer");
            reveal_strlit("wait");
            assert("wait"@.len() == 4 && "request-transfer"@.len() == 16);
        }
        let front = " Ask for it with the golab `ask` tool (kind=lease-transfer, symbol=\""@;
        let y = way_to_yes(x);
        assert(y =~= front + x.symbol + ("\"), or run: "@ + x.command));
        assert(y =~= (front + x.symbol + "\"), or run: "@) + x.command);
        lemma_mentions(front, x.symbol, "\"), or run: "@ + x.command);
        lemma_mentions(front + x.symbol + "\"), or run: "@, x.command, Seq::empty());
        lemma_mentions_on(y, x.symbol, head);
        lemma_mentions_on(y, x.command, head);
        lemma_mentions_on(mid, x.symbol, z);
        lemma_mentions_on(mid, x.command, z);
    }
}

} // verus!
