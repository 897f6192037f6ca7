//! What a human needs to be told.
//!
//! Every fact here is already in the requests and the events; what is addressed to
//! agents there is ranked and phrased here for whoever is watching. It is a query,
//! not a second set of books: a tally kept apart can disagree with what happened.
//! Each notice carries the consequence beside the fact, so that a reader can tell
//! whether they have to do anything.

use vstd::prelude::*;
use vstd::string::*;

use crate::arch::{at_most, distinct, distinct_texts};
use crate::graph::{first_rows, ImpactNode, ImpactNodeV};
use crate::ids::file_symbol_id;
use crate::index::file_id_of;
use crate::json::{Json, JsonV};
use crate::model::{Event, EventV, Request, RequestV, SymbolV};
use crate::order::{law_sorted_keeps, law_sorted_ordered, rank, sorted, stable_sort, weak_order, Ranked};
use crate::protocol::{listed, Direction};
use crate::request_kind;
use crate::rows::{each, keep, Row};
use crate::store::{append, first_where, no_rows, RequestRow, RequestRowV, Store, StoreV};
use crate::text::{
    cat, cat3, decimal, decimal_of, decimal_of_signed, join, join_with, same, signed_decimal, trim, trimmed,
};

verus! {

broadcast use vstd::string::group_string_axioms;

/// How far back an event can be and still be worth showing, in milliseconds.
pub const WINDOW_MS: i64 = 7_200_000;

/// How many notices are shown where nobody says.
pub const DEFAULT_LIMIT: usize = 25;

/// How many dependants are named before "and so many more".
pub const MAX_DEPENDANTS: usize = 3;

/// How loudly to say it.
#[derive(Debug, Clone, Copy, PartialEq, Eq, Structural)]
pub enum Severity {
    /// Something happened; nobody has to move.
    Info,
    /// Somebody probably has to look.
    Warn,
    /// Work is stopped until somebody acts.
    Blocking,
}

impl Severity {
    /// The word for this value.
    pub open spec fn word(self) -> Seq<char> {
        match self {
            Severity::Info => "info"@,
            Severity::Warn => "warn"@,
            Severity::Blocking => "blocking"@,
        }
    }

    pub fn as_str(self) -> (r: &'static str)
        ensures
            r@ == self.word(),
    {
        match self {
            Severity::Info => "info",
            Severity::Warn => "warn",
            Severity::Blocking => "blocking",
        }
    }
}

/// No two values of [`Severity`] share a word.
pub proof fn law_severity_words(a: Severity, b: Severity)
    requires
        a.word() == b.word(),
    ensures
        a == b,
{
    reveal_strlit("info");
    reveal_strlit("warn");
    reveal_strlit("blocking");
    assert("info"@.len() == 4 && "info"@[0] == 'i');
    assert("warn"@.len() == 4 && "warn"@[0] == 'w');
    assert("blocking"@.len() == 8 && "blocking"@[0] == 'b');
    let x = a.word();
    let y = b.word();
    assert(x.len() == y.len());
    assert(x[0] == y[0]);
}

/// Something worth telling.
#[derive(Debug)]
pub struct Notice {
    /// `req:<id>` or `evt:<id>`.
    pub id: String,
    pub kind: String,
    pub severity: Severity,
    /// One line, phrased for a person.
    pub title: String,
    /// Why it matters to them.
    pub detail: Option<String>,
    /// Who caused it.
    pub actor: Option<String>,
    /// Who should act; nobody in particular means everybody.
    pub audience: Option<String>,
    pub symbol_handle: Option<String>,
    pub task: Option<String>,
    /// The box on the picture that it lands on.
    pub node: Option<String>,
    pub ts: i64,
    /// The request, where it is one that can be answered.
    pub request: Option<String>,
}

/// The contents of a [`Notice`].
pub struct NoticeV {
    pub id: Seq<char>,
    pub kind: Seq<char>,
    pub severity: Severity,
    pub title: Seq<char>,
    pub detail: Option<Seq<char>>,
    pub actor: Option<Seq<char>>,
    pub audience: Option<Seq<char>>,
    pub symbol_handle: Option<Seq<char>>,
    pub task: Option<Seq<char>>,
    pub node: Option<Seq<char>>,
    pub ts: i64,
    pub request: Option<Seq<char>>,
}

impl DeepView for Notice {
    type V = NoticeV;

    open spec fn deep_view(&self) -> NoticeV {
        NoticeV {
            id: self.id@,
            kind: self.kind@,
            severity: self.severity,
            title: self.title@,
            detail: self.detail.deep_view(),
            actor: self.actor.deep_view(),
            audience: self.audience.deep_view(),
            symbol_handle: self.symbol_handle.deep_view(),
            task: self.task.deep_view(),
            node: self.node.deep_view(),
            ts: self.ts,
            request: self.request.deep_view(),
        }
    }
}

impl Clone for Notice {
    fn clone(&self) -> (r: Self)
        ensures
            r.deep_view() == self.deep_view(),
    {
        let r = Notice {
            id: self.id.clone(),
            kind: self.kind.clone(),
            severity: self.severity,
            title: self.title.clone(),
            detail: self.detail.clone(),
            actor: self.actor.clone(),
            audience: self.audience.clone(),
            symbol_handle: self.symbol_handle.clone(),
            task: self.task.clone(),
            node: self.node.clone(),
            ts: self.ts,
            request: self.request.clone(),
        };
        r
    }
}

impl Row for Notice {
    fn copy(&self) -> (r: Self) {
        self.clone()
    }
}

impl Ranked for Notice {
    /// The newest first.
    open spec fn before(a: NoticeV, b: NoticeV) -> bool {
        a.ts > b.ts
    }

    fn is_before(&self, other: &Self) -> (r: bool) {
        self.ts > other.ts
    }
}

/// What a notice says.
#[derive(Debug)]
pub struct Wording {
    pub severity: Severity,
    pub title: String,
    pub detail: Option<String>,
}

/// The contents of a [`Wording`].
pub struct WordingV {
    pub severity: Severity,
    pub title: Seq<char>,
    pub detail: Option<Seq<char>>,
}

impl DeepView for Wording {
    type V = WordingV;

    open spec fn deep_view(&self) -> WordingV {
        WordingV {
            severity: self.severity,
            title: self.title@,
            detail: self.detail.deep_view(),
        }
    }
}

/// The text, or another where there is none.
pub open spec fn text_or(a: Option<Seq<char>>, b: Seq<char>) -> Seq<char> {
    match a {
        Some(x) => x,
        None => b,
    }
}

fn or_else(a: &Option<String>, b: &str) -> (r: String)
    ensures
        r@ == text_or(a.deep_view(), b@),
{
    match a {
        Some(x) => x.clone(),
        None => b.to_owned(),
    }
}

/// How many follow-up tasks a change has opened.
pub open spec fn follow_ups(body: JsonV) -> nat {
    match body.at("follow_up_tasks"@) {
        Some(JsonV::Arr(a)) => a.len(),
        _ => 0,
    }
}

/// Who holds what was refused.
pub open spec fn first_holder(detail: JsonV) -> Option<Seq<char>> {
    match detail.at("conflicts"@) {
        Some(JsonV::Arr(a)) => if a.len() > 0 {
            a[0].text_at("holder"@)
        } else {
            None
        },
        _ => None,
    }
}

/// The first names of a list, put into a sentence that says who depends on
/// something or who calls it.
pub open spec fn phrase(
    names: Seq<Seq<char>>,
    sep: Seq<char>,
    tail: Seq<char>,
    one: Seq<char>,
    many: Seq<char>,
) -> Seq<char> {
    let named = at_most(names, MAX_DEPENDANTS as nat);
    if names.len() > MAX_DEPENDANTS {
        join(named, sep) + tail + " and "@ + decimal((names.len() - MAX_DEPENDANTS) as nat) + " more "@
            + many + " this."@
    } else if names.len() == 1 {
        names[0] + tail + " "@ + one + " this."@
    } else {
        join(named, sep) + tail + " "@ + many + " this."@
    }
}

fn say(names: &Vec<String>, sep: &str, tail: &str, one: &str, many: &str) -> (r: String)
    requires
        names@.len() > 0,
    ensures
        r@ == phrase(names.deep_view(), sep@, tail@, one@, many@),
{
    let ghost nv = names.deep_view();
    let n = names.len();
    assert(n == nv.len());
    let named = join_with(&first_rows(names, MAX_DEPENDANTS), sep);
    if n > MAX_DEPENDANTS {
        let head = cat3(named.as_str(), tail, " and ");
        let count = decimal_of((n - MAX_DEPENDANTS) as u64);
        let mid = cat3(head.as_str(), count.as_str(), " more ");
        cat3(mid.as_str(), many, " this.")
    } else if n == 1 {
        assert(nv[0] == names@[0]@);
        let head = cat3(names[0].as_str(), tail, " ");
        cat3(head.as_str(), one, " this.")
    } else {
        let head = cat3(named.as_str(), tail, " ");
        cat3(head.as_str(), many, " this.")
    }
}

impl StoreV {
    /// The name of the nearest service around a symbol.
    pub open spec fn owning_service(self, id: Seq<char>) -> Option<Seq<char>> {
        match first_where(self.ancestors(id), |a: SymbolV| a.kind is Service) {
            Some(a) => Some(a.name),
            None => None,
        }
    }

    /// The services of what a change reaches, but for one.
    pub open spec fn services_reached(self, nodes: Seq<ImpactNodeV>, own: Option<Seq<char>>) -> Seq<
        Seq<char>,
    >
        decreases nodes.len(),
    {
        if nodes.len() == 0 {
            Seq::empty()
        } else {
            let rest = self.services_reached(nodes.drop_last(), own);
            match self.owning_service(nodes.last().symbol.id) {
                Some(name) => if own == Some(name) {
                    rest
                } else {
                    rest.push(name)
                },
                None => rest,
            }
        }
    }

    /// Who depends on a symbol, as a sentence: the other services that a change to it
    /// reaches, or its callers where all of them are in its own.
    pub open spec fn dependants_phrase(self, symbol: Option<Seq<char>>) -> Option<Seq<char>> {
        match symbol {
            None => None,
            Some(id) => {
                let reached = self.impact(id, 2);
                let services = distinct(self.services_reached(reached, self.owning_service(id)));
                let callers = distinct(
                    reached.filter(|n: ImpactNodeV| n.symbol.id != id).map_values(
                        |n: ImpactNodeV| n.symbol.name,
                    ),
                );
                if services.len() > 0 {
                    Some(phrase(services, ", "@, ""@, "depends on"@, "depend on"@))
                } else if callers.len() > 0 {
                    Some(phrase(callers, "(), "@, "()"@, "calls"@, "call"@))
                } else {
                    None
                }
            },
        }
    }

    /// The box that a symbol is in: the nearest service around it, or its file.
    pub open spec fn node_for_symbol(self, symbol: Option<Seq<char>>) -> Option<Seq<char>> {
        match symbol {
            None => None,
            Some(id) => match first_where(self.ancestors(id), |a: SymbolV| a.kind is Service) {
                Some(a) => Some(a.id),
                None => match self.symbol(id) {
                    Some(s) => Some(file_id_of(s.repo_id, s.path)),
                    None => None,
                },
            },
        }
    }

    /// The box that a handle is in. A handle that means nothing any more is in none.
    pub open spec fn node_for_handle(self, handle: Option<Seq<char>>) -> Option<Seq<char>> {
        match handle {
            None => None,
            Some(h) => match self.resolve(h) {
                Ok(s) => self.node_for_symbol(Some(s.id)),
                Err(_) => None,
            },
        }
    }

    /// What the notice of a change says.
    pub open spec fn change_detail(self, r: RequestV) -> Option<Seq<char>> {
        let who = self.dependants_phrase(r.resource_symbol);
        let n = follow_ups(r.body);
        let said = if n > 0 {
            Some(
                text_or(who, Seq::empty()) + " "@ + decimal(n) + " follow-up task(s) opened."@,
            )
        } else {
            who
        };
        match said {
            Some(d) => Some(trimmed(d)),
            None => None,
        }
    }

    /// What the notice of a request says.
    pub open spec fn request_wording(self, r: RequestV) -> WordingV {
        if r.kind == request_kind::API_CHANGE@ {
            WordingV {
                severity: Severity::Warn,
                title: match r.resource_handle {
                    Some(h) => h + " changed"@,
                    None => r.subject,
                },
                detail: self.change_detail(r),
            }
        } else if r.kind == request_kind::REVIEW@ {
            WordingV {
                severity: Severity::Blocking,
                title: "Review sent back: "@ + r.subject,
                detail: r.body.text_at("reason"@),
            }
        } else if r.kind == request_kind::LEASE_TRANSFER@ {
            WordingV {
                severity: Severity::Blocking,
                title: r.from + " wants "@ + text_or(r.resource_handle, r.subject),
                detail: Some(
                    "Held by "@ + text_or(r.to, "nobody"@)
                        + ". Accepting hands it over atomically."@,
                ),
            }
        } else if r.kind == request_kind::DEPENDENCY@ {
            WordingV {
                severity: Severity::Warn,
                title: r.from + " is blocked on "@ + text_or(r.resource_task, "a task"@),
                detail: Some(r.subject),
            }
        } else if r.kind == request_kind::INTERFACE@ {
            WordingV {
                severity: Severity::Warn,
                title: r.from + " needs an interface: "@ + r.subject,
                detail: None,
            }
        } else {
            WordingV { severity: Severity::Info, title: r.subject, detail: None }
        }
    }

    /// The notice of a request.
    pub open spec fn notice_for_request(self, r: RequestV) -> NoticeV {
        let w = self.request_wording(r);
        NoticeV {
            id: "req:"@ + r.id,
            kind: r.kind,
            severity: w.severity,
            title: w.title,
            detail: w.detail,
            actor: Some(r.from),
            audience: r.to,
            symbol_handle: r.resource_handle,
            task: r.task,
            node: self.node_for_symbol(r.resource_symbol),
            ts: r.created_at,
            request: Some(r.id),
        }
    }

    /// The notice of an event, if it is one worth interrupting somebody for.
    pub open spec fn notice_for_event(self, e: EventV) -> Option<NoticeV> {
        match event_wording(e) {
            None => None,
            Some((kind, w)) => Some(
                NoticeV {
                    id: "evt:"@ + signed_decimal(e.id as int),
                    kind,
                    severity: w.severity,
                    title: w.title,
                    detail: w.detail,
                    actor: e.agent,
                    audience: None,
                    symbol_handle: e.symbol_handle,
                    task: e.task,
                    node: self.node_for_handle(e.symbol_handle),
                    ts: e.ts,
                    request: None,
                },
            ),
        }
    }

    /// The notices of events.
    pub open spec fn event_notices(self, events: Seq<EventV>) -> Seq<NoticeV>
        decreases events.len(),
    {
        if events.len() == 0 {
            Seq::empty()
        } else {
            let rest = self.event_notices(events.drop_last());
            match self.notice_for_event(events.last()) {
                Some(n) => rest.push(n),
                None => rest,
            }
        }
    }

    /// The requests that still wait for an answer, higher priority first.
    pub open spec fn open_requests(self) -> Seq<RequestV> {
        sorted(
            self.requests.filter(|q: RequestRowV| listed(q, None, Direction::All, true)),
            rank::<RequestRow>(),
        ).map_values(|q: RequestRowV| self.request_of(q))
    }

    /// Everything worth telling somebody, as it is found.
    pub open spec fn all_notices(self, audience: Option<Seq<char>>, now: i64) -> Seq<NoticeV> {
        self.open_requests().filter(|r: RequestV| concerns(r, audience)).map_values(
            |r: RequestV| self.notice_for_request(r),
        ) + self.event_notices(
            self.recent(400).filter(|e: EventV| e.ts >= now - WINDOW_MS),
        )
    }

    /// Everything worth telling somebody, the newest first.
    pub open spec fn notifications(self, audience: Option<Seq<char>>, limit: usize, now: i64) -> Seq<
        NoticeV,
    > {
        at_most(
            sorted(self.all_notices(audience, now), rank::<Notice>()),
            if limit == 0 {
                DEFAULT_LIMIT as nat
            } else {
                limit as nat
            },
        )
    }
}

/// Does a request concern somebody? One that is addressed to somebody else does not,
/// whoever opened it; one to everybody does. Nobody in particular is concerned by
/// all.
pub open spec fn concerns(r: RequestV, audience: Option<Seq<char>>) -> bool {
    audience matches Some(who) ==> (r.to matches Some(t) ==> t == who)
}

/// What the notice of an event says, with its kind. The list is short on purpose:
/// every grant and release is on the timeline, and a notice of each would be one
/// nobody reads.
pub open spec fn event_wording(e: EventV) -> Option<(Seq<char>, WordingV)> {
    if e.kind == "task.unblocked"@ {
        Some(
            (
                "unblocked"@,
                WordingV {
                    severity: Severity::Info,
                    title: text_or(e.detail.text_at("title"@), text_or(e.task, "A task"@))
                        + " can start"@,
                    detail: None,
                },
            ),
        )
    } else if e.kind == "task.blocked"@ || e.kind == "task.failed"@ {
        Some(
            (
                "blocked"@,
                WordingV {
                    severity: Severity::Blocking,
                    title: text_or(e.task, "A task"@) + " is stuck"@,
                    detail: e.detail.text_at("reason"@),
                },
            ),
        )
    } else if e.kind == "review.submitted"@ {
        Some(
            (
                "review"@,
                WordingV {
                    severity: Severity::Warn,
                    title: text_or(e.agent, "someone"@) + " submitted "@ + text_or(e.task, "work"@)
                        + " for review"@,
                    detail: None,
                },
            ),
        )
    } else if e.kind == "goal.completed"@ {
        Some(
            (
                "goal"@,
                WordingV {
                    severity: Severity::Info,
                    title: "Goal done: "@ + text_or(e.detail.text_at("title"@), ""@),
                    detail: None,
                },
            ),
        )
    } else if e.kind == "lease.denied"@ {
        Some(
            (
                "contention"@,
                WordingV {
                    severity: Severity::Warn,
                    title: text_or(e.agent, "someone"@) + " was refused "@ + text_or(
                        e.symbol_handle,
                        "a symbol"@,
                    ),
                    detail: match first_holder(e.detail) {
                        Some(h) => Some(h + " is holding it."@),
                        None => None,
                    },
                },
            ),
        )
    } else {
        None
    }
}

// ---------------------------------------------------------------- the operations

fn count_follow_ups(body: &Json) -> (n: usize)
    ensures
        n == follow_ups(body.deep_view()),
{
    match body.get("follow_up_tasks") {
        Some(j) => {
            match j {
                Json::Arr(v) => {
                    assert(j.deep_view()->Arr_0.len() == v@.len());
                    v.len()
                },
                _ => 0,
            }
        },
        None => 0,
    }
}

fn holder_in(detail: &Json) -> (r: Option<String>)
    ensures
        r.deep_view() == first_holder(detail.deep_view()),
{
    match detail.get("conflicts") {
        Some(j) => {
            match j {
                Json::Arr(v) => {
                    assert(j.deep_view()->Arr_0.len() == v@.len());
                    if v.len() > 0 {
                        assert(j.deep_view()->Arr_0[0] == v@[0].deep_view());
                        v[0].text("holder")
                    } else {
                        None
                    }
                },
                _ => None,
            }
        },
        None => None,
    }
}

fn words_for_event(e: &Event) -> (r: Option<(&'static str, Wording)>)
    ensures
        match r {
            Some((k, w)) => event_wording(e.deep_view()) == Some((k@, w.deep_view())),
            None => event_wording(e.deep_view()) is None,
        },
{
    let kind = e.kind.as_str();
    if same(kind, "task.unblocked") {
        let who = match e.detail.text("title") {
            Some(t) => t,
            None => or_else(&e.task, "A task"),
        };
        Some(
            (
                "unblocked",
                Wording {
                    severity: Severity::Info,
                    title: cat(who.as_str(), " can start"),
                    detail: None,
                },
            ),
        )
    } else if same(kind, "task.blocked") || same(kind, "task.failed") {
        Some(
            (
                "blocked",
                Wording {
                    severity: Severity::Blocking,
                    title: cat(or_else(&e.task, "A task").as_str(), " is stuck"),
                    detail: e.detail.text("reason"),
                },
            ),
        )
    } else if same(kind, "review.submitted") {
        let head = cat3(
            or_else(&e.agent, "someone").as_str(),
            " submitted ",
            or_else(&e.task, "work").as_str(),
        );
        Some(
            (
                "review",
                Wording {
                    severity: Severity::Warn,
                    title: cat(head.as_str(), " for review"),
                    detail: None,
                },
            ),
        )
    } else if same(kind, "goal.completed") {
        Some(
            (
                "goal",
                Wording {
                    severity: Severity::Info,
                    title: cat("Goal done: ", or_else(&e.detail.text("title"), "").as_str()),
                    detail: None,
                },
            ),
        )
    } else if same(kind, "lease.denied") {
        let detail = match holder_in(&e.detail) {
            Some(h) => Some(cat(h.as_str(), " is holding it.")),
            None => None,
        };
        Some(
            (
                "contention",
                Wording {
                    severity: Severity::Warn,
                    title: cat3(
                        or_else(&e.agent, "someone").as_str(),
                        " was refused ",
                        or_else(&e.symbol_handle, "a symbol").as_str(),
                    ),
                    detail,
                },
            ),
        )
    } else {
        None
    }
}

fn is_concerned(r: &Request, audience: &Option<String>) -> (b: bool)
    ensures
        b == concerns(r.deep_view(), audience.deep_view()),
{
    match audience {
        None => true,
        Some(who) => match &r.to {
            Some(t) => same(t.as_str(), who.as_str()),
            None => true,
        },
    }
}

impl Store {
    /// The name of the nearest service around a symbol.
    fn owning_service(&self, id: &str) -> (r: Option<String>)
        ensures
            r.deep_view() == self@.owning_service(id@),
    {
        match self.service_around(id) {
            Some(a) => Some(a.name),
            None => None,
        }
    }

    fn services_reached(&self, nodes: &Vec<ImpactNode>, own: &Option<String>) -> (r: Vec<String>)
        ensures
            r.deep_view() == self@.services_reached(nodes.deep_view(), own.deep_view()),
    {
        let ghost all = nodes.deep_view();
        let mut out: Vec<String> = no_rows();
        let mut i: usize = 0;
        while i < nodes.len()
            invariant
                all == nodes.deep_view(),
                i <= nodes@.len(),
                out.deep_view() == self@.services_reached(all.take(i as int), own.deep_view()),
            decreases nodes@.len() - i,
        {
            proof {
                assert(all.take(i + 1).drop_last() =~= all.take(i as int));
                assert(all.take(i + 1).last() == nodes@[i as int].deep_view());
            }
            if let Some(name) = self.owning_service(nodes[i].symbol.id.as_str()) {
                let mine = match own {
                    Some(o) => same(o.as_str(), name.as_str()),
                    None => false,
                };
                if !mine {
                    append(&mut out, name);
                }
            }
            i += 1;
        }
        assert(all.take(i as int) =~= all);
        out
    }

    /// Who depends on a symbol, as a sentence.
    fn dependants_phrase(&self, symbol: &Option<String>) -> (r: Option<String>)
        ensures
            r.deep_view() == self@.dependants_phrase(symbol.deep_view()),
    {
        let id = match symbol {
            Some(id) => id.as_str(),
            None => {
                return None;
            },
        };
        let reached = self.impact(id, 2);
        let own = self.owning_service(id);
        let services = distinct_texts(&self.services_reached(&reached, &own));
        assert(services@.len() == services.deep_view().len());
        if services.len() > 0 {
            return Some(say(&services, ", ", "", "depends on", "depend on"));
        }
        let other = |n: &ImpactNode| -> (b: bool)
            ensures b == (n.deep_view().symbol.id != id@)
        {
            !same(n.symbol.id.as_str(), id)
        };
        let name = |n: &ImpactNode| -> (x: String)
            ensures x.deep_view() == n.deep_view().symbol.name
        {
            n.symbol.name.clone()
        };
        let callers = distinct_texts(
            &each(
                &keep(&reached, other, Ghost(|n: ImpactNodeV| n.symbol.id != id@)),
                name,
                Ghost(|n: ImpactNodeV| n.symbol.name),
            ),
        );
        assert(callers@.len() == callers.deep_view().len());
        if callers.len() > 0 {
            Some(say(&callers, "(), ", "()", "calls", "call"))
        } else {
            None
        }
    }

    fn node_for_symbol(&self, symbol: &Option<String>) -> (r: Option<String>)
        ensures
            r.deep_view() == self@.node_for_symbol(symbol.deep_view()),
    {
        match symbol {
            None => None,
            Some(id) => match self.service_around(id.as_str()) {
                Some(a) => Some(a.id),
                None => match self.symbol(id.as_str()) {
                    Some(s) => Some(file_symbol_id(s.repo_id.as_str(), s.path.as_str())),
                    None => None,
                },
            },
        }
    }

    fn node_for_handle(&self, handle: &Option<String>) -> (r: Option<String>)
        ensures
            r.deep_view() == self@.node_for_handle(handle.deep_view()),
    {
        match handle {
            None => None,
            Some(h) => match self.resolve(h.as_str()) {
                Ok(s) => self.node_for_symbol(&Some(s.id)),
                Err(_) => None,
            },
        }
    }

    fn words_for_request(&self, r: &Request) -> (w: Wording)
        ensures
            w.deep_view() == self@.request_wording(r.deep_view()),
    {
        let kind = r.kind.as_str();
        if same(kind, request_kind::API_CHANGE) {
            let title = match &r.resource_handle {
                Some(h) => cat(h.as_str(), " changed"),
                None => r.subject.clone(),
            };
            let who = self.dependants_phrase(&r.resource_symbol);
            let n = count_follow_ups(&r.body);
            let said = if n > 0 {
                let head = match &who {
                    Some(w) => cat(w.as_str(), " "),
                    None => {
                        assert(Seq::<char>::empty() + " "@ =~= " "@);
                        " ".to_owned()
                    },
                };
                let count = decimal_of(n as u64);
                Some(cat3(head.as_str(), count.as_str(), " follow-up task(s) opened."))
            } else {
                who
            };
            let detail = match said {
                Some(d) => Some(trim(d.as_str())),
                None => None,
            };
            Wording { severity: Severity::Warn, title, detail }
        } else if same(kind, request_kind::REVIEW) {
            Wording {
                severity: Severity::Blocking,
                title: cat("Review sent back: ", r.subject.as_str()),
                detail: r.body.text("reason"),
            }
        } else if same(kind, request_kind::LEASE_TRANSFER) {
            let what = or_else(&r.resource_handle, r.subject.as_str());
            Wording {
                severity: Severity::Blocking,
                title: cat3(r.from.as_str(), " wants ", what.as_str()),
                detail: Some(
                    cat3(
                        "Held by ",
                        or_else(&r.to, "nobody").as_str(),
                        ". Accepting hands it over atomically.",
                    ),
                ),
            }
        } else if same(kind, request_kind::DEPENDENCY) {
            let what = or_else(&r.resource_task, "a task");
            Wording {
                severity: Severity::Warn,
                title: cat3(r.from.as_str(), " is blocked on ", what.as_str()),
                detail: Some(r.subject.clone()),
            }
        } else if same(kind, request_kind::INTERFACE) {
            Wording {
                severity: Severity::Warn,
                title: cat3(r.from.as_str(), " needs an interface: ", r.subject.as_str()),
                detail: None,
            }
        } else {
            Wording { severity: Severity::Info, title: r.subject.clone(), detail: None }
        }
    }

    fn notice_for_request(&self, r: &Request) -> (n: Notice)
        ensures
            n.deep_view() == self@.notice_for_request(r.deep_view()),
    {
        let w = self.words_for_request(r);
        Notice {
            id: cat("req:", r.id.as_str()),
            kind: r.kind.clone(),
            severity: w.severity,
            title: w.title,
            detail: w.detail,
            actor: Some(r.from.clone()),
            audience: r.to.clone(),
            symbol_handle: r.resource_handle.clone(),
            task: r.task.clone(),
            node: self.node_for_symbol(&r.resource_symbol),
            ts: r.created_at,
            request: Some(r.id.clone()),
        }
    }

    fn notice_for_event(&self, e: &Event) -> (r: Option<Notice>)
        ensures
            r.deep_view() == self@.notice_for_event(e.deep_view()),
    {
        match words_for_event(e) {
            None => None,
            Some((kind, w)) => Some(
                Notice {
                    id: cat("evt:", decimal_of_signed(e.id).as_str()),
                    kind: kind.to_owned(),
                    severity: w.severity,
                    title: w.title,
                    detail: w.detail,
                    actor: e.agent.clone(),
                    audience: None,
                    symbol_handle: e.symbol_handle.clone(),
                    task: e.task.clone(),
                    node: self.node_for_handle(&e.symbol_handle),
                    ts: e.ts,
                    request: None,
                },
            ),
        }
    }

    fn event_notices(&self, events: &Vec<Event>) -> (r: Vec<Notice>)
        ensures
            r.deep_view() == self@.event_notices(events.deep_view()),
    {
        let ghost all = events.deep_view();
        let mut out: Vec<Notice> = no_rows();
        let mut i: usize = 0;
        while i < events.len()
            invariant
                all == events.deep_view(),
                i <= events@.len(),
                out.deep_view() == self@.event_notices(all.take(i as int)),
            decreases events@.len() - i,
        {
            proof {
                assert(all.take(i + 1).drop_last() =~= all.take(i as int));
                assert(all.take(i + 1).last() == events@[i as int].deep_view());
            }
            if let Some(n) = self.notice_for_event(&events[i]) {
                append(&mut out, n);
            }
            i += 1;
        }
        assert(all.take(i as int) =~= all);
        out
    }

    /// Everything worth telling a human, the newest first. Naming nobody gives the
    /// view of the whole workspace; naming an agent narrows it to what is addressed to
    /// them or to everybody.
    pub fn notifications(&self, audience: &Option<String>, limit: usize, now: i64) -> (r: Vec<Notice>)
        ensures
            r.deep_view() == self@.notifications(audience.deep_view(), limit, now),
    {
        let none: Option<String> = None;
        let requests = self.requests(&none, Direction::All, true);
        assert(requests.deep_view() == self@.open_requests());
        let mine = |r: &Request| -> (b: bool)
            ensures b == concerns(r.deep_view(), audience.deep_view())
        {
            is_concerned(r, audience)
        };
        let notice = |r: &Request| -> (n: Notice)
            ensures n.deep_view() == self@.notice_for_request(r.deep_view())
        {
            self.notice_for_request(r)
        };
        let mut out = each(
            &keep(
                &requests,
                mine,
                Ghost(|r: RequestV| concerns(r, audience.deep_view())),
            ),
            notice,
            Ghost(|r: RequestV| self@.notice_for_request(r)),
        );
        let late = |e: &Event| -> (b: bool)
            ensures b == (e.deep_view().ts >= now - WINDOW_MS)
        {
            e.ts as i128 >= now as i128 - WINDOW_MS as i128
        };
        let events = keep(
            &self.recent_events(400),
            late,
            Ghost(|e: EventV| e.ts >= now - WINDOW_MS),
        );
        let mut more = self.event_notices(&events);
        let ghost o0 = out.deep_view();
        let ghost m0 = more.deep_view();
        out.append(&mut more);
        assert(out.deep_view() =~= o0 + m0);
        let limit = if limit == 0 {
            DEFAULT_LIMIT
        } else {
            limit
        };
        first_rows(&stable_sort(out), limit)
    }
}

// ------------------------------------------------------------------------ laws

/// The newest notice comes first, and there are no more of them than asked for.
pub proof fn law_newest_first(s: StoreV, audience: Option<Seq<char>>, limit: usize, now: i64, i: int, j: int)
    requires
        0 <= i < j < s.notifications(audience, limit, now).len(),
    ensures
        s.notifications(audience, limit, now)[i].ts >= s.notifications(audience, limit, now)[j].ts,
        limit > 0 ==> s.notifications(audience, limit, now).len() <= limit,
{
    let all = s.all_notices(audience, now);
    let f = rank::<Notice>();
    assert(weak_order(f)) by {
        assert forall|a: NoticeV, b: NoticeV| #[trigger] f(a, b) implies !f(b, a) by {}
        assert forall|a: NoticeV, b: NoticeV, c: NoticeV|
            #![trigger f(a, b), f(c, b)]
            f(a, b) && !f(c, b) implies f(a, c) by {}
    }
    law_sorted_ordered(all, f);
    law_sorted_keeps(all, f);
    let r = sorted(all, f);
    assert(!f(r[j], r[i]));
}

/// What is addressed to one agent is not shown to another, not even to the one who
/// sent it; a broadcast is shown to everybody.
pub proof fn law_addressed_to_somebody_else(r: RequestV, who: Seq<char>)
    requires
        r.to != Some(who),
    ensures
        concerns(r, Some(who)) <==> r.to is None,
        concerns(r, None),
        concerns(r, r.to),
{
}

/// Where nothing waits for an answer and nothing lately happened, there is nothing
/// to tell.
pub proof fn law_quiet_is_quiet(s: StoreV, audience: Option<Seq<char>>, limit: usize, now: i64)
    requires
        forall|i: int| 0 <= i < s.requests.len() ==> !(#[trigger] s.requests[i]).state.live(),
        forall|i: int|
            0 <= i < s.events.len() ==> event_wording(#[trigger] s.events[i]) is None
                || s.events[i].ts < now - WINDOW_MS,
    ensures
        s.notifications(audience, limit, now).len() == 0,
{
    let p = |q: RequestRowV| listed(q, None, Direction::All, true);
    let rows = s.requests.filter(p);
    if rows.len() > 0 {
        crate::scan_laws::lemma_kept(s.requests, p, 0);
        let k = choose|k: int| 0 <= k < s.requests.len() && s.requests[k] == rows[0];
        assert(!s.requests[k].state.live());
    }
    law_sorted_keeps(rows, rank::<RequestRow>());
    let open = s.open_requests();
    let mine = open.filter(|r: RequestV| concerns(r, audience));
    open.lemma_filter_len(|r: RequestV| concerns(r, audience));
    assert(mine.len() == 0);
    let late = |e: EventV| e.ts >= now - WINDOW_MS;
    let events = s.recent(400).filter(late);
    assert forall|i: int| 0 <= i < events.len() implies event_wording(#[trigger] events[i]) is None by {
        crate::scan_laws::lemma_kept(s.recent(400), late, i);
        let k = choose|k: int| 0 <= k < s.recent(400).len() && s.recent(400)[k] == events[i];
        let j = if s.events.len() > 400 {
            k + s.events.len() - 400
        } else {
            k
        };
        assert(s.events[j] == events[i]);
    }
    lemma_no_notices(s, events);
    law_sorted_keeps(s.all_notices(audience, now), rank::<Notice>());
}

proof fn lemma_no_notices(s: StoreV, events: Seq<EventV>)
    requires
        forall|i: int| 0 <= i < events.len() ==> event_wording(#[trigger] events[i]) is None,
    ensures
        s.event_notices(events).len() == 0,
    decreases events.len(),
{
    if events.len() > 0 {
        let init = events.drop_last();
        assert forall|i: int| 0 <= i < init.len() implies event_wording(#[trigger] init[i]) is None by {
            assert(init[i] == events[i]);
        }
        lemma_no_notices(s, init);
        assert(event_wording(events[events.len() - 1]) is None);
    }
}

} // verus!
