//! May this agent edit this file right now?
//!
//! Asked before the edit there is still time to negotiate. Somebody else's lease is
//! the one thing that refuses an edit; editing what nobody holds is legal, only
//! unprotected.

use vstd::prelude::*;
use vstd::string::*;

use crate::ids::file_symbol_id;
use crate::index::file_id_of;
use crate::model::{Conflict, ConflictRelation, ConflictV, LeaseState, Symbol, SymbolV};
use crate::rows::{each, find_row, keep, law_filter_has, Row};
use crate::store::{
    append, first_where, law_first_where, no_rows, sane_time, seen, LeaseRow, LeaseRowV, Store, StoreError,
    StoreErrorV, StoreV,
};
use crate::text::{cat, cat3, same};

verus! {

broadcast use vstd::string::group_string_axioms;

/// The answer.
#[derive(Debug, Clone, Copy, PartialEq, Eq, Structural)]
pub enum GuardVerdict {
    /// The agent holds it, or nobody could.
    Allowed,
    /// Nobody holds it.
    Warn,
    /// Somebody else holds it.
    Denied,
}

impl GuardVerdict {
    /// The word for this value.
    pub open spec fn word(self) -> Seq<char> {
        match self {
            GuardVerdict::Allowed => "allowed"@,
            GuardVerdict::Warn => "warn"@,
            GuardVerdict::Denied => "denied"@,
        }
    }

    pub fn as_str(self) -> (r: &'static str)
        ensures
            r@ == self.word(),
    {
        match self {
            GuardVerdict::Allowed => "allowed",
            GuardVerdict::Warn => "warn",
            GuardVerdict::Denied => "denied",
        }
    }
}

/// No two values of [`GuardVerdict`] share a word.
pub proof fn law_guard_verdict_words(a: GuardVerdict, b: GuardVerdict)
    requires
        a.word() == b.word(),
    ensures
        a == b,
{
    reveal_strlit("allowed");
    reveal_strlit("warn");
    reveal_strlit("denied");
    assert("allowed"@.len() == 7 && "allowed"@[0] == 'a');
    assert("warn"@.len() == 4 && "warn"@[0] == 'w');
    assert("denied"@.len() == 6 && "denied"@[0] == 'd');
    let x = a.word();
    let y = b.word();
    assert(x.len() == y.len());
}

/// How to get to yes.
#[derive(Debug)]
pub struct GuardSuggestion {
    /// `request-transfer`, `wait`, `narrow` or `acquire`.
    pub action: String,
    pub symbol: String,
    pub holder: Option<String>,
    pub seconds_until_free: Option<i64>,
    pub command: String,
    pub tool: String,
}

/// The contents of a [`GuardSuggestion`].
pub struct GuardSuggestionV {
    pub action: Seq<char>,
    pub symbol: Seq<char>,
    pub holder: Option<Seq<char>>,
    pub seconds_until_free: Option<i64>,
    pub command: Seq<char>,
    pub tool: Seq<char>,
}

impl DeepView for GuardSuggestion {
    type V = GuardSuggestionV;

    open spec fn deep_view(&self) -> GuardSuggestionV {
        GuardSuggestionV {
            action: self.action@,
            symbol: self.symbol@,
            holder: self.holder.deep_view(),
            seconds_until_free: self.seconds_until_free,
            command: self.command@,
            tool: self.tool@,
        }
    }
}

impl Clone for GuardSuggestion {
    fn clone(&self) -> (r: Self)
        ensures
            r.deep_view() == self.deep_view(),
    {
        let r = GuardSuggestion {
            action: self.action.clone(),
            symbol: self.symbol.clone(),
            holder: self.holder.clone(),
            seconds_until_free: self.seconds_until_free,
            command: self.command.clone(),
            tool: self.tool.clone(),
        };
        r
    }
}

/// The answer, with what it rests on.
#[derive(Debug)]
pub struct GuardReport {
    pub agent: String,
    pub repo_id: String,
    pub path: String,
    /// The symbol that was judged.
    pub anchor: Option<String>,
    pub anchor_handle: Option<String>,
    pub verdict: GuardVerdict,
    pub conflicts: Vec<Conflict>,
    /// The agent's own lease, where that is what allows it.
    pub lease_id: Option<String>,
    /// What that lease is on.
    pub via: Option<String>,
    /// What the agent holds inside it.
    pub yours_within: Vec<String>,
    pub unindexed: bool,
    pub suggestions: Vec<GuardSuggestion>,
    pub summary: String,
}

/// The contents of a [`GuardReport`].
pub struct GuardReportV {
    pub agent: Seq<char>,
    pub repo_id: Seq<char>,
    pub path: Seq<char>,
    pub anchor: Option<Seq<char>>,
    pub anchor_handle: Option<Seq<char>>,
    pub verdict: GuardVerdict,
    pub conflicts: Seq<ConflictV>,
    pub lease_id: Option<Seq<char>>,
    pub via: Option<Seq<char>>,
    pub yours_within: Seq<Seq<char>>,
    pub unindexed: bool,
    pub suggestions: Seq<GuardSuggestionV>,
    pub summary: Seq<char>,
}

impl DeepView for GuardReport {
    type V = GuardReportV;

    open spec fn deep_view(&self) -> GuardReportV {
        GuardReportV {
            agent: self.agent@,
            repo_id: self.repo_id@,
            path: self.path@,
            anchor: self.anchor.deep_view(),
            anchor_handle: self.anchor_handle.deep_view(),
            verdict: self.verdict,
            conflicts: self.conflicts.deep_view(),
            lease_id: self.lease_id.deep_view(),
            via: self.via.deep_view(),
            yours_within: self.yours_within.deep_view(),
            unindexed: self.unindexed,
            suggestions: self.suggestions.deep_view(),
            summary: self.summary@,
        }
    }
}

impl Clone for GuardReport {
    fn clone(&self) -> (r: Self)
        ensures
            r.deep_view() == self.deep_view(),
    {
        let r = GuardReport {
            agent: self.agent.clone(),
            repo_id: self.repo_id.clone(),
            path: self.path.clone(),
            anchor: self.anchor.clone(),
            anchor_handle: self.anchor_handle.clone(),
            verdict: self.verdict,
            conflicts: self.conflicts.clone(),
            lease_id: self.lease_id.clone(),
            via: self.via.clone(),
            yours_within: self.yours_within.clone(),
            unindexed: self.unindexed,
            suggestions: self.suggestions.clone(),
            summary: self.summary.clone(),
        };
        assert(r.conflicts.deep_view() =~= self.conflicts.deep_view());
        assert(r.yours_within.deep_view() =~= self.yours_within.deep_view());
        assert(r.suggestions.deep_view() =~= self.suggestions.deep_view());
        r
    }
}

impl Row for GuardSuggestion {
    fn copy(&self) -> (r: Self) {
        self.clone()
    }
}

impl GuardReport {
    /// Does the answer refuse the edit?
    pub fn blocking(&self) -> (r: bool)
        ensures
            r == (self.verdict is Denied),
    {
        self.verdict == GuardVerdict::Denied
    }

    /// Does the answer refuse the edit to a caller who may want the stronger rule,
    /// by which an edit that nobody's lease protects is refused too?
    pub fn refused(&self, strict: bool) -> (r: bool)
        ensures
            r == (self.verdict is Denied || (strict && !(self.verdict is Allowed))),
    {
        self.blocking() || (strict && self.verdict != GuardVerdict::Allowed)
    }
}

/// To somebody whom a conflict stops: ask for it.
pub open spec fn ask_for(c: ConflictV) -> GuardSuggestionV {
    GuardSuggestionV {
        action: "request-transfer"@,
        symbol: c.blocking_symbol,
        holder: Some(c.holder),
        seconds_until_free: Some(c.seconds_until_free),
        command: "golab request lease "@ + c.blocking_symbol,
        tool: "ask"@,
    }
}

/// To somebody who edits what nobody holds: take it.
pub open spec fn take(handle: Seq<char>) -> GuardSuggestionV {
    GuardSuggestionV {
        action: "acquire"@,
        symbol: handle,
        holder: None,
        seconds_until_free: None,
        command: "golab lease acquire "@ + handle,
        tool: "claim_symbol"@,
    }
}

/// To somebody who is refused the whole because parts of it are held: ask about the
/// part that they mean to edit. The symbol is the one to stay clear of.
pub open spec fn narrow(path: Seq<char>, c: ConflictV) -> GuardSuggestionV {
    GuardSuggestionV {
        action: "narrow"@,
        symbol: c.blocking_symbol,
        holder: Some(c.holder),
        seconds_until_free: None,
        command: "golab guard "@ + path + " --symbol <symbol>"@,
        tool: "check_edit"@,
    }
}

/// Is everything that stands in the way inside what was asked about?
pub open spec fn all_inside(conflicts: Seq<ConflictV>) -> bool {
    first_where(conflicts, |c: ConflictV| !(c.relation is Descendant)) is None
}

/// The report on a file that no index knows: nothing in it could be leased yet.
pub open spec fn unknown_file(agent: Seq<char>, repo: Seq<char>, path: Seq<char>) -> GuardReportV {
    GuardReportV {
        agent,
        repo_id: repo,
        path,
        anchor: None,
        anchor_handle: None,
        verdict: GuardVerdict::Allowed,
        conflicts: Seq::empty(),
        lease_id: None,
        via: None,
        yours_within: Seq::empty(),
        unindexed: true,
        suggestions: Seq::empty(),
        summary: path + " is not indexed; nothing in it can be held yet"@,
    }
}

impl StoreV {
    /// What an agent holds that has not lapsed.
    pub open spec fn holdings(self, agent: Seq<char>, now: i64) -> Seq<LeaseRowV> {
        self.leases.filter(|l: LeaseRowV| l.state is Active && l.agent == agent && l.expires_at > now)
    }

    /// The lease of an agent that covers a symbol: on it, or on something around it.
    pub open spec fn covering(self, id: Seq<char>, agent: Seq<char>, now: i64) -> Option<LeaseRowV> {
        first_where(self.holdings(agent, now), |l: LeaseRowV| self.covers(l.symbol_id, id))
    }

    /// What an agent holds strictly inside a symbol, by its handles.
    pub open spec fn held_within(self, id: Seq<char>, agent: Seq<char>, now: i64) -> Seq<Seq<char>> {
        self.holdings(agent, now).filter(
            |l: LeaseRowV| l.symbol_id != id && self.covers(id, l.symbol_id),
        ).map_values(|l: LeaseRowV| self.lease_handle(l))
    }

    /// The report on a symbol. What others hold in it or around it refuses the edit;
    /// a lease of the agent's own that covers it allows it.
    pub open spec fn judged(
        self,
        agent: Seq<char>,
        repo: Seq<char>,
        path: Seq<char>,
        anchor: SymbolV,
        now: i64,
    ) -> GuardReportV {
        let conflicts = self.conflicts_for(anchor.id, agent, now);
        let within = self.held_within(anchor.id, agent, now);
        let base = GuardReportV {
            anchor: Some(anchor.id),
            anchor_handle: Some(anchor.handle()),
            verdict: GuardVerdict::Warn,
            yours_within: within,
            unindexed: false,
            suggestions: seq![take(anchor.handle())],
            summary: "nobody holds "@ + anchor.handle(),
            ..unknown_file(agent, repo, path)
        };
        if conflicts.len() > 0 {
            let asks = conflicts.map_values(|c: ConflictV| ask_for(c));
            GuardReportV {
                verdict: GuardVerdict::Denied,
                conflicts,
                suggestions: if all_inside(conflicts) {
                    asks.push(narrow(path, conflicts[0]))
                } else {
                    asks
                },
                summary: conflicts[0].blocking_symbol + " is held by "@ + conflicts[0].holder,
                ..base
            }
        } else {
            match self.covering(anchor.id, agent, now) {
                Some(l) => GuardReportV {
                    verdict: GuardVerdict::Allowed,
                    lease_id: Some(l.id),
                    via: Some(self.lease_handle(l)),
                    suggestions: Seq::empty(),
                    summary: agent + " holds "@ + self.lease_handle(l),
                    ..base
                },
                None => base,
            }
        }
    }

    /// May an agent edit a file, or the one symbol in it that a reference names?
    pub open spec fn guard(
        self,
        agent: Seq<char>,
        repo: Seq<char>,
        path: Seq<char>,
        symbol: Option<Seq<char>>,
        now: i64,
    ) -> Result<GuardReportV, StoreErrorV> {
        match symbol {
            Some(q) => match self.resolve(q) {
                Ok(a) => Ok(self.judged(agent, repo, path, a, now)),
                Err(e) => Err(e),
            },
            None => match self.symbol(file_id_of(repo, path)) {
                Some(a) => Ok(self.judged(agent, repo, path, a, now)),
                None => Ok(unknown_file(agent, repo, path)),
            },
        }
    }
}

impl Store {
    fn holdings(&self, agent: &str, now: i64) -> (r: Vec<LeaseRow>)
        ensures
            r.deep_view() == self@.holdings(agent@, now),
    {
        let test = |l: &LeaseRow| -> (b: bool)
            ensures b == (l.deep_view().state is Active && l.deep_view().agent == agent@ && l.deep_view().expires_at > now)
        {
            l.state == LeaseState::Active && same(l.agent.as_str(), agent) && l.expires_at > now
        };
        keep(
            &self.leases,
            test,
            Ghost(|l: LeaseRowV| l.state is Active && l.agent == agent@ && l.expires_at > now),
        )
    }

    fn covering(&self, id: &str, agent: &str, now: i64) -> (r: Option<LeaseRow>)
        ensures
            r.deep_view() == self@.covering(id@, agent@, now),
    {
        let mine = self.holdings(agent, now);
        let test = |l: &LeaseRow| -> (b: bool)
            ensures b == self@.covers(l.deep_view().symbol_id, id@)
        {
            self.covers(l.symbol_id.as_str(), id)
        };
        match find_row(&mine, test, Ghost(|l: LeaseRowV| self@.covers(l.symbol_id, id@))) {
            Some(i) => Some(mine[i].clone()),
            None => None,
        }
    }

    fn held_within(&self, id: &str, agent: &str, now: i64) -> (r: Vec<String>)
        ensures
            r.deep_view() == self@.held_within(id@, agent@, now),
    {
        let test = |l: &LeaseRow| -> (b: bool)
            ensures b == (l.deep_view().symbol_id != id@ && self@.covers(id@, l.deep_view().symbol_id))
        {
            !same(l.symbol_id.as_str(), id) && self.covers(id, l.symbol_id.as_str())
        };
        let name = |l: &LeaseRow| -> (h: String)
            ensures h.deep_view() == self@.lease_handle(l.deep_view())
        {
            self.lease_handle(l)
        };
        each(
            &keep(
                &self.holdings(agent, now),
                test,
                Ghost(|l: LeaseRowV| l.symbol_id != id@ && self@.covers(id@, l.symbol_id)),
            ),
            name,
            Ghost(|l: LeaseRowV| self@.lease_handle(l)),
        )
    }

    fn judged(&self, agent: &str, repo_id: &str, path: &str, anchor: &Symbol, now: i64) -> (r: GuardReport)
        requires
            self@.wf(),
            sane_time(now),
        ensures
            r.deep_view() == self@.judged(agent@, repo_id@, path@, anchor.deep_view(), now),
    {
        let handle = anchor.handle();
        let conflicts = self.conflicts_for(anchor.id.as_str(), agent, now);
        let within = self.held_within(anchor.id.as_str(), agent, now);
        let mut r = unindexed_report(agent, repo_id, path);
        r.anchor = Some(anchor.id.clone());
        r.anchor_handle = Some(handle.clone());
        r.unindexed = false;
        let ghost cv = conflicts.deep_view();
        assert(conflicts@.len() == cv.len());
        if conflicts.len() > 0 {
            assert(cv[0] == conflicts@[0].deep_view());
            let ask = |c: &Conflict| -> (s: GuardSuggestion)
                ensures s.deep_view() == ask_for(c.deep_view())
            {
                GuardSuggestion {
                    action: "request-transfer".to_owned(),
                    symbol: c.blocking_symbol.clone(),
                    holder: Some(c.holder.clone()),
                    seconds_until_free: Some(c.seconds_until_free),
                    command: cat("golab request lease ", c.blocking_symbol.as_str()),
                    tool: "ask".to_owned(),
                }
            };
            let mut suggestions = each(&conflicts, ask, Ghost(|c: ConflictV| ask_for(c)));
            let around = |c: &Conflict| -> (b: bool)
                ensures b == !(c.deep_view().relation is Descendant)
            {
                c.relation != ConflictRelation::Descendant
            };
            if find_row(
                &conflicts,
                around,
                Ghost(|c: ConflictV| !(c.relation is Descendant)),
            ).is_none() {
                append(
                    &mut suggestions,
                    GuardSuggestion {
                        action: "narrow".to_owned(),
                        symbol: conflicts[0].blocking_symbol.clone(),
                        holder: Some(conflicts[0].holder.clone()),
                        seconds_until_free: None,
                        command: cat3("golab guard ", path, " --symbol <symbol>"),
                        tool: "check_edit".to_owned(),
                    },
                );
            }
            r.verdict = GuardVerdict::Denied;
            r.suggestions = suggestions;
            r.summary = cat3(
                conflicts[0].blocking_symbol.as_str(),
                " is held by ",
                conflicts[0].holder.as_str(),
            );
            r.conflicts = conflicts;
            r.yours_within = within;
            return r;
        }
        assert(cv =~= Seq::empty());
        r.yours_within = within;
        match self.covering(anchor.id.as_str(), agent, now) {
            Some(l) => {
                let on = self.lease_handle(&l);
                r.verdict = GuardVerdict::Allowed;
                r.summary = cat3(agent, " holds ", on.as_str());
                r.lease_id = Some(l.id);
                r.via = Some(on);
            },
            None => {
                let mut suggestions: Vec<GuardSuggestion> = no_rows();
                append(
                    &mut suggestions,
                    GuardSuggestion {
                        action: "acquire".to_owned(),
                        symbol: handle.clone(),
                        holder: None,
                        seconds_until_free: None,
                        command: cat("golab lease acquire ", handle.as_str()),
                        tool: "claim_symbol".to_owned(),
                    },
                );
                assert(suggestions.deep_view() =~= seq![take(handle@)]);
                r.verdict = GuardVerdict::Warn;
                r.summary = cat("nobody holds ", handle.as_str());
                r.suggestions = suggestions;
            },
        }
        r
    }

    /// May an agent edit a file, or the one symbol in it that a reference names?
    pub fn guard(&self, agent: &str, repo_id: &str, path: &str, symbol: &Option<String>, now: i64) -> (r:
        Result<GuardReport, StoreError>)
        requires
            self@.wf(),
            sane_time(now),
        ensures
            seen(r) == self@.guard(agent@, repo_id@, path@, symbol.deep_view(), now),
    {
        match symbol {
            Some(q) => match self.resolve(q.as_str()) {
                Ok(a) => Ok(self.judged(agent, repo_id, path, &a, now)),
                Err(e) => Err(e),
            },
            None => {
                let id = file_symbol_id(repo_id, path);
                match self.symbol_at(id.as_str()) {
                    Some(i) => Ok(self.judged(agent, repo_id, path, &self.symbols[i], now)),
                    None => Ok(unindexed_report(agent, repo_id, path)),
                }
            },
        }
    }
}

fn unindexed_report(agent: &str, repo_id: &str, path: &str) -> (r: GuardReport)
    ensures
        r.deep_view() == unknown_file(agent@, repo_id@, path@),
{
    GuardReport {
        agent: agent.to_owned(),
        repo_id: repo_id.to_owned(),
        path: path.to_owned(),
        anchor: None,
        anchor_handle: None,
        verdict: GuardVerdict::Allowed,
        conflicts: no_rows(),
        lease_id: None,
        via: None,
        yours_within: no_rows(),
        unindexed: true,
        suggestions: no_rows(),
        summary: cat(path, " is not indexed; nothing in it can be held yet"),
    }
}

/// An edit is refused exactly where the file is indexed and somebody else holds
/// something in it or around it.
pub proof fn law_only_other_leases_refuse(s: StoreV, agent: Seq<char>, repo: Seq<char>, path: Seq<char>, now: i64)
    ensures
        s.guard(agent, repo, path, None, now) matches Ok(r) && (r.verdict is Denied <==> s.symbol(
            file_id_of(repo, path),
        ) is Some && s.conflicts_for(file_id_of(repo, path), agent, now).len() > 0),
{
    if s.symbol(file_id_of(repo, path)) is Some {
        law_first_where(s.symbols, |x: SymbolV| x.id == file_id_of(repo, path));
    }
}

/// A refusal always names a way to get to yes.
pub proof fn law_a_refusal_names_a_way_out(
    s: StoreV,
    agent: Seq<char>,
    repo: Seq<char>,
    path: Seq<char>,
    symbol: Option<Seq<char>>,
    now: i64,
)
    requires
        s.guard(agent, repo, path, symbol, now) is Ok,
        s.guard(agent, repo, path, symbol, now)->Ok_0.verdict is Denied,
    ensures
        ({
            let r = s.guard(agent, repo, path, symbol, now)->Ok_0;
            r.suggestions.len() > 0 && r.suggestions[0] == ask_for(r.conflicts[0])
        }),
{
}

/// Holding something allows editing whatever is inside it, unless somebody else holds
/// a part of that.
pub proof fn law_holding_covers_what_is_inside(
    s: StoreV,
    agent: Seq<char>,
    repo: Seq<char>,
    path: Seq<char>,
    anchor: SymbolV,
    lease: LeaseRowV,
    now: i64,
)
    requires
        s.leases.contains(lease),
        lease.state is Active,
        lease.agent == agent,
        lease.expires_at > now,
        s.covers(lease.symbol_id, anchor.id),
        s.conflicts_for(anchor.id, agent, now).len() == 0,
    ensures
        s.judged(agent, repo, path, anchor, now).verdict is Allowed,
{
    let p = |l: LeaseRowV| l.state is Active && l.agent == agent && l.expires_at > now;
    law_filter_has(s.leases, p, lease);
    let mine = s.holdings(agent, now);
    assert(mine.contains(lease));
    let q = |l: LeaseRowV| s.covers(l.symbol_id, anchor.id);
    law_first_where(mine, q);
    let k = choose|k: int| 0 <= k < mine.len() && mine[k] == lease;
    assert(q(mine[k]));
}

} // verus!
