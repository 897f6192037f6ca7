//! Symbol leasing.
//!
//! A lease is ownership of a symbol that expires. Three properties matter:
//!
//! 1. Atomic: an acquisition is one step from state to state.
//! 2. Containment-aware: holding a class blocks its methods and the reverse.
//! 3. Self-healing: a crashed agent stops heartbeating and its lease expires.

use vstd::prelude::*;
use vstd::string::*;

use crate::json::{opt_text, Json, JsonV};
use crate::model::{
    seconds_between, seconds_until, AcquireOutcome, AcquireOutcomeV, AgentV, Conflict,
    ConflictRelation, ConflictV, Lease, LeaseState, LeaseV, Symbol, SymbolV,
};
use crate::order::{dedup_texts, deduped, rank, sort_texts, sorted, sorted_texts, stable_sort, Ranked};
use crate::protocol::{after, next, wants_symbol};
use crate::rows::{each, find_row};
use crate::store::{
    append, distinct_ids, fail, fail_about, failure, first_where, law_filter_step, law_first_where, lease_ok, lemma_ids_kept,
    lemma_request_ids_kept, no_rows, put, request_ids_differ,
    sane_end, sane_time, sane_ttl, seen, ErrorKind, LeaseRow, LeaseRowV, QueueRow, QueueRowV, QueueState,
    RequestRowV, Store, StoreError, StoreErrorV, StoreV, Tick,
};
use crate::text::{cat, cat3, same};

verus! {

broadcast use vstd::string::group_string_axioms;

/// Default lease lifetime, in seconds.
pub const DEFAULT_TTL_SECS: i64 = 300;

/// A queued waiter that stops polling for this long loses its place.
pub const QUEUE_ABANDON_MS: i64 = 15000;

/// How a lease is asked for.
#[derive(Debug)]
pub struct AcquireOptions {
    pub task: Option<String>,
    pub ttl_secs: i64,
    /// Higher wins.
    pub priority: i64,
    pub note: Option<String>,
    /// Take the lease from a strictly lower-priority holder.
    pub preempt: bool,
    /// Record a place in line when denied.
    pub queue: bool,
}

/// The contents of a [`AcquireOptions`].
pub struct AcquireOptionsV {
    pub task: Option<Seq<char>>,
    pub ttl_secs: i64,
    pub priority: i64,
    pub note: Option<Seq<char>>,
    pub preempt: bool,
    pub queue: bool,
}

impl DeepView for AcquireOptions {
    type V = AcquireOptionsV;

    open spec fn deep_view(&self) -> AcquireOptionsV {
        AcquireOptionsV {
            task: self.task.deep_view(),
            ttl_secs: self.ttl_secs,
            priority: self.priority,
            note: self.note.deep_view(),
            preempt: self.preempt,
            queue: self.queue,
        }
    }
}

impl Clone for AcquireOptions {
    fn clone(&self) -> (r: Self)
        ensures
            r.deep_view() == self.deep_view(),
    {
        let r = AcquireOptions {
            task: self.task.clone(),
            ttl_secs: self.ttl_secs,
            priority: self.priority,
            note: self.note.clone(),
            preempt: self.preempt,
            queue: self.queue,
        };
        r
    }
}

impl Default for AcquireOptions {
    fn default() -> (r: Self)
        ensures
            r.deep_view() == default_options(),
    {
        AcquireOptions {
            task: None,
            ttl_secs: DEFAULT_TTL_SECS,
            priority: 0,
            note: None,
            preempt: false,
            queue: true,
        }
    }
}

/// Five minutes, no task, no note; queueing but not preempting.
pub open spec fn default_options() -> AcquireOptionsV {
    AcquireOptionsV {
        task: None,
        ttl_secs: DEFAULT_TTL_SECS,
        priority: 0,
        note: None,
        preempt: false,
        queue: true,
    }
}

/// A place in a wait queue.
#[derive(Debug)]
pub struct QueueEntry {
    pub id: String,
    /// Arrival order: two agents can queue within one millisecond.
    pub seq: i64,
    pub symbol_id: String,
    pub agent: String,
    pub task: Option<String>,
    pub priority: i64,
    pub ttl_secs: i64,
    pub requested_at: i64,
    pub polled_at: i64,
}

/// The contents of a [`QueueEntry`].
pub struct QueueEntryV {
    pub id: Seq<char>,
    pub seq: i64,
    pub symbol_id: Seq<char>,
    pub agent: Seq<char>,
    pub task: Option<Seq<char>>,
    pub priority: i64,
    pub ttl_secs: i64,
    pub requested_at: i64,
    pub polled_at: i64,
}

impl DeepView for QueueEntry {
    type V = QueueEntryV;

    open spec fn deep_view(&self) -> QueueEntryV {
        QueueEntryV {
            id: self.id@,
            seq: self.seq,
            symbol_id: self.symbol_id@,
            agent: self.agent@,
            task: self.task.deep_view(),
            priority: self.priority,
            ttl_secs: self.ttl_secs,
            requested_at: self.requested_at,
            polled_at: self.polled_at,
        }
    }
}

impl Clone for QueueEntry {
    fn clone(&self) -> (r: Self)
        ensures
            r.deep_view() == self.deep_view(),
    {
        let r = QueueEntry {
            id: self.id.clone(),
            seq: self.seq,
            symbol_id: self.symbol_id.clone(),
            agent: self.agent.clone(),
            task: self.task.clone(),
            priority: self.priority,
            ttl_secs: self.ttl_secs,
            requested_at: self.requested_at,
            polled_at: self.polled_at,
        };
        r
    }
}

/// A lease in the way, and how its symbol lies to the requested one.
#[derive(Debug)]
pub struct Blocker {
    pub lease: LeaseRow,
    pub relation: ConflictRelation,
}

/// The contents of a [`Blocker`].
pub struct BlockerV {
    pub lease: LeaseRowV,
    pub relation: ConflictRelation,
}

impl DeepView for Blocker {
    type V = BlockerV;

    open spec fn deep_view(&self) -> BlockerV {
        BlockerV {
            lease: self.lease.deep_view(),
            relation: self.relation,
        }
    }
}

impl Clone for Blocker {
    fn clone(&self) -> (r: Self)
        ensures
            r.deep_view() == self.deep_view(),
    {
        let r = Blocker {
            lease: self.lease.clone(),
            relation: self.relation,
        };
        r
    }
}

// ------------------------------------------------------------------- the rules

/// Is the row an active lease on the symbol?
pub open spec fn active_lease(l: LeaseRowV, symbol: Seq<char>) -> bool {
    l.symbol_id == symbol && l.state is Active
}

/// Is the row an active lease of the agent?
pub open spec fn held(l: LeaseRowV, agent: Seq<char>) -> bool {
    l.agent == agent && l.state is Active
}

/// Has the lease run out?
pub open spec fn due(l: LeaseRowV, now: i64) -> bool {
    l.state is Active && l.expires_at <= now
}

/// The row once the lease is over.
pub open spec fn finished(l: LeaseRowV, state: LeaseState, now: i64) -> LeaseRowV {
    LeaseRowV { state, released_at: Some(now), ..l }
}

/// The event that a lease's new state is reported by.
pub open spec fn lease_event(state: LeaseState) -> Seq<char> {
    match state {
        LeaseState::Released => "lease.released"@,
        LeaseState::Expired => "lease.expired"@,
        LeaseState::Preempted => "lease.preempted"@,
        LeaseState::Active => "lease.updated"@,
    }
}

/// The row once its holder asked for it again.
pub open spec fn extended(l: LeaseRowV, o: AcquireOptionsV, now: i64) -> LeaseRowV {
    LeaseRowV {
        heartbeat_at: now,
        expires_at: (now + o.ttl_secs * 1000) as i64,
        ttl_secs: o.ttl_secs,
        priority: o.priority,
        task: match o.task {
            Some(x) => Some(x),
            None => l.task,
        },
        ..l
    }
}

/// The row once it was handed to another agent.
pub open spec fn handed(l: LeaseRowV, to: Seq<char>, now: i64) -> LeaseRowV {
    LeaseRowV {
        agent: to,
        heartbeat_at: now,
        acquired_at: now,
        expires_at: (now + l.ttl_secs * 1000) as i64,
        ..l
    }
}

/// The row once its holder has shown to be alive.
pub open spec fn renewed(l: LeaseRowV, now: i64) -> LeaseRowV {
    LeaseRowV { heartbeat_at: now, expires_at: (now + l.ttl_secs * 1000) as i64, ..l }
}

/// Is the row a place in line?
pub open spec fn waits(q: QueueRowV, symbol: Seq<char>, agent: Seq<char>) -> bool {
    q.agent == agent && q.symbol_id == symbol && q.state is Waiting
}

/// Does somebody wait for the symbol in a row?
pub open spec fn in_line(symbol: Seq<char>) -> spec_fn(QueueRowV) -> bool {
    |q: QueueRowV| q.symbol_id == symbol && q.state is Waiting
}

/// Does somebody else wait for the symbol in this row?
pub open spec fn rivals(q: QueueRowV, symbol: Seq<char>, agent: Seq<char>) -> bool {
    q.symbol_id == symbol && q.state is Waiting && q.agent != agent
}

/// Has the waiter stopped polling?
pub open spec fn stale(q: QueueRowV, now: i64) -> bool {
    q.polled_at < now - QUEUE_ABANDON_MS
}

/// May the request take over from all of these holders?
pub open spec fn overrides(blocking: Seq<BlockerV>, o: AcquireOptionsV) -> bool {
    o.preempt && forall|i: int|
        0 <= i < blocking.len() ==> (#[trigger] blocking[i]).lease.priority < o.priority
}

/// A conflict as events show it.
pub open spec fn conflict_json(c: ConflictV) -> JsonV {
    JsonV::Obj(
        seq![
            ("blocking_symbol"@, JsonV::Str(c.blocking_symbol)),
            ("relation"@, JsonV::Str(c.relation.word())),
            ("holder"@, JsonV::Str(c.holder)),
            ("task"@, opt_text(c.task)),
            ("priority"@, JsonV::Int(c.priority as int)),
            ("expires_at"@, JsonV::Int(c.expires_at as int)),
            ("seconds_until_free"@, JsonV::Int(c.seconds_until_free as int)),
            ("lease_id"@, JsonV::Str(c.lease_id)),
        ],
    )
}

/// Conflicts as the event of a denial shows them.
pub open spec fn conflicts_json(cs: Seq<ConflictV>) -> JsonV {
    JsonV::Obj(seq![("conflicts"@, JsonV::Arr(cs.map_values(|c: ConflictV| conflict_json(c))))])
}

/// The largest of some queue numbers, and zero.
pub open spec fn top_place(rows: Seq<QueueRowV>) -> i64
    decreases rows.len(),
{
    if rows.len() == 0 {
        0
    } else if rows.last().seq > top_place(rows.drop_last()) {
        rows.last().seq
    } else {
        top_place(rows.drop_last())
    }
}

/// Seconds until `then`, and zero once it has passed.
pub open spec fn wait_secs(now: i64, then: i64) -> i64 {
    if seconds_between(now as int, then as int) > 0 {
        seconds_between(now as int, then as int) as i64
    } else {
        0
    }
}

/// A place in line as it is shown.
pub open spec fn entry_of(q: QueueRowV) -> QueueEntryV {
    QueueEntryV {
        id: q.id,
        seq: q.seq,
        symbol_id: q.symbol_id,
        agent: q.agent,
        task: q.task,
        priority: q.priority,
        ttl_secs: q.ttl_secs,
        requested_at: q.requested_at,
        polled_at: q.polled_at,
    }
}

impl Ranked for QueueRow {
    /// Higher priority first, then by arrival.
    open spec fn before(a: QueueRowV, b: QueueRowV) -> bool {
        a.priority > b.priority || (a.priority == b.priority && a.seq < b.seq)
    }

    fn is_before(&self, other: &Self) -> (r: bool) {
        self.priority > other.priority || (self.priority == other.priority && self.seq
            < other.seq)
    }
}

impl Ranked for LeaseRow {
    /// By the time of acquisition.
    open spec fn before(a: LeaseRowV, b: LeaseRowV) -> bool {
        a.acquired_at < b.acquired_at
    }

    fn is_before(&self, other: &Self) -> (r: bool) {
        self.acquired_at < other.acquired_at
    }
}

impl StoreV {
    /// The handle that a lease is shown with: that of its symbol, or the id of a
    /// symbol that is gone.
    pub open spec fn lease_handle(self, l: LeaseRowV) -> Seq<char> {
        match self.row_handle(Some(l.symbol_id)) {
            Some(h) => h,
            None => l.symbol_id,
        }
    }

    /// The lease that a row shows as.
    pub open spec fn lease_of(self, l: LeaseRowV) -> LeaseV {
        LeaseV {
            id: l.id,
            symbol_id: l.symbol_id,
            symbol_handle: self.lease_handle(l),
            agent: l.agent,
            task: l.task,
            priority: l.priority,
            ttl_secs: l.ttl_secs,
            acquired_at: l.acquired_at,
            heartbeat_at: l.heartbeat_at,
            expires_at: l.expires_at,
            state: l.state,
            note: l.note,
        }
    }

    /// The row of the lease with this id.
    pub open spec fn lease_row(self, id: Seq<char>) -> Option<LeaseRowV> {
        first_where(self.leases, |l: LeaseRowV| l.id == id)
    }

    /// The lease with this id.
    pub open spec fn lease(self, id: Seq<char>) -> Option<LeaseV> {
        match self.lease_row(id) {
            Some(l) => Some(self.lease_of(l)),
            None => None,
        }
    }

    /// The active leases on a symbol.
    pub open spec fn active_on(self, symbol: Seq<char>) -> Seq<LeaseRowV> {
        self.leases.filter(|l: LeaseRowV| active_lease(l, symbol))
    }

    /// The active leases of an agent.
    pub open spec fn held_by(self, agent: Seq<char>) -> Seq<LeaseRowV> {
        self.leases.filter(|l: LeaseRowV| held(l, agent))
    }

    /// The leases that have run out.
    pub open spec fn due_leases(self, now: i64) -> Seq<LeaseRowV> {
        self.leases.filter(|l: LeaseRowV| due(l, now))
    }

    /// The state with every row of one id changed.
    pub open spec fn with_lease(self, id: Seq<char>, f: spec_fn(LeaseRowV) -> LeaseRowV) -> StoreV {
        StoreV {
            leases: self.leases.map_values(
                |l: LeaseRowV|
                    if l.id == id {
                        f(l)
                    } else {
                        l
                    },
            ),
            ..self
        }
    }

    /// The state once a lease is over. Whoever asked for the symbol gets their
    /// answer, but only if it became free: preemption swaps one holder for
    /// another, and reports itself.
    pub open spec fn finish_lease(
        self,
        l: LeaseRowV,
        state: LeaseState,
        reason: Seq<char>,
        now: i64,
    ) -> StoreV {
        let s = self.with_lease(l.id, |x: LeaseRowV| finished(x, state, now));
        let s = if state is Released || state is Expired {
            s.resolve_symbol_requests(l.symbol_id, reason, now)
        } else {
            s
        };
        if state is Preempted {
            s
        } else {
            s.emit(
                now,
                lease_event(state),
                Some(l.agent),
                Some(self.lease_handle(l)),
                l.task,
                JsonV::Obj(
                    seq![
                        ("lease"@, JsonV::Str(l.id)),
                        ("reason"@, JsonV::Str(reason)),
                        ("held_ms"@, JsonV::Int(now - l.acquired_at)),
                    ],
                ),
            )
        }
    }

    /// The state once every lease of a list is over, in turn.
    pub open spec fn finish_each(
        self,
        rows: Seq<LeaseRowV>,
        state: LeaseState,
        reason: Seq<char>,
        now: i64,
    ) -> StoreV
        decreases rows.len(),
    {
        if rows.len() == 0 {
            self
        } else {
            self.finish_each(rows.drop_last(), state, reason, now).finish_lease(
                rows.last(),
                state,
                reason,
                now,
            )
        }
    }

    /// The state once the leases that have run out are retired.
    pub open spec fn expire_due(self, now: i64) -> StoreV {
        self.finish_each(self.due_leases(now), LeaseState::Expired, "ttl expired"@, now)
    }

    /// The state with the queue changed row by row.
    pub open spec fn with_queue(self, f: spec_fn(QueueRowV) -> QueueRowV) -> StoreV {
        StoreV { queue: self.queue.map_values(f), ..self }
    }

    /// Waiters that stopped polling are assumed dead, so that the queue cannot
    /// wedge.
    pub open spec fn abandon_stale(self, now: i64) -> StoreV {
        self.with_queue(
            |q: QueueRowV|
                if q.state is Waiting && stale(q, now) {
                    QueueRowV { state: QueueState::Abandoned, ..q }
                } else {
                    q
                },
        )
    }

    /// The state once the agent's places in line for a symbol have this end.
    pub open spec fn leave_queue(self, symbol: Seq<char>, agent: Seq<char>, end: QueueState) -> StoreV {
        self.with_queue(
            |q: QueueRowV|
                if waits(q, symbol, agent) {
                    QueueRowV { state: end, ..q }
                } else {
                    q
                },
        )
    }

    /// The leases of others on these symbols.
    pub open spec fn holders(
        self,
        ids: Seq<Seq<char>>,
        symbol: Seq<char>,
        agent: Seq<char>,
        relation: ConflictRelation,
    ) -> Seq<BlockerV>
        decreases ids.len(),
    {
        if ids.len() == 0 {
            Seq::empty()
        } else {
            let id = ids.last();
            let rel = if id == symbol {
                ConflictRelation::Same
            } else {
                relation
            };
            self.holders(ids.drop_last(), symbol, agent, relation) + self.leases.filter(
                |l: LeaseRowV| active_lease(l, id) && l.agent != agent,
            ).map_values(|l: LeaseRowV| BlockerV { lease: l, relation: rel })
        }
    }

    /// Every active lease of somebody else on the symbol, on a scope containing
    /// it, or on something inside it.
    pub open spec fn blocking(self, symbol: Seq<char>, agent: Seq<char>) -> Seq<BlockerV> {
        self.holders(self.chain(symbol), symbol, agent, ConflictRelation::Ancestor)
            + self.holders(self.inside(symbol), symbol, agent, ConflictRelation::Descendant)
    }

    /// The conflict that a lease in the way shows as.
    pub open spec fn conflict_from(self, l: LeaseRowV, relation: ConflictRelation, now: i64) -> ConflictV {
        ConflictV {
            blocking_symbol: self.lease_handle(l),
            relation,
            holder: l.agent,
            task: l.task,
            priority: l.priority,
            expires_at: l.expires_at,
            seconds_until_free: wait_secs(now, l.expires_at),
            lease_id: l.id,
        }
    }

    /// The conflicts that leases in the way show as.
    pub open spec fn conflicts(self, blocking: Seq<BlockerV>, now: i64) -> Seq<ConflictV> {
        blocking.map_values(|b: BlockerV| self.conflict_from(b.lease, b.relation, now))
    }

    /// The state once the holders have lost their leases to `by`.
    pub open spec fn preempt_each(
        self,
        blocking: Seq<BlockerV>,
        by: Seq<char>,
        priority: i64,
        now: i64,
    ) -> StoreV
        decreases blocking.len(),
    {
        if blocking.len() == 0 {
            self
        } else {
            let s = self.preempt_each(blocking.drop_last(), by, priority, now);
            let l = blocking.last().lease;
            s.finish_lease(l, LeaseState::Preempted, "preempted"@, now).emit(
                now,
                "lease.preempted"@,
                Some(l.agent),
                Some(self.lease_handle(l)),
                l.task,
                JsonV::Obj(
                    seq![
                        ("lease"@, JsonV::Str(l.id)),
                        ("by"@, JsonV::Str(by)),
                        ("their_priority"@, JsonV::Int(priority as int)),
                        ("your_priority"@, JsonV::Int(l.priority as int)),
                    ],
                ),
            )
        }
    }

    /// The agent's place in line for a symbol.
    pub open spec fn place(self, symbol: Seq<char>, agent: Seq<char>) -> Option<QueueRowV> {
        first_where(self.queue, |q: QueueRowV| waits(q, symbol, agent))
    }

    /// The agents waiting for a symbol, best claim first.
    pub open spec fn queue_for(self, symbol: Seq<char>) -> Seq<QueueEntryV> {
        sorted(self.queue.filter(in_line(symbol)), rank::<QueueRow>()).map_values(
            |q: QueueRowV| entry_of(q),
        )
    }

    /// The others in line for a symbol, best claim first.
    pub open spec fn rivals(self, symbol: Seq<char>, agent: Seq<char>) -> Seq<QueueRowV> {
        sorted(self.queue.filter(|q: QueueRowV| rivals(q, symbol, agent)), rank::<QueueRow>())
    }

    /// The waiter with a better claim than this request, if any. An agent without
    /// a place in line is behind everybody of its own priority.
    pub open spec fn waiter_ahead(
        self,
        symbol: Seq<char>,
        agent: Seq<char>,
        priority: i64,
        now: i64,
    ) -> Option<QueueRowV> {
        let line = self.rivals(symbol, agent);
        if line.len() == 0 || stale(line[0], now) {
            None
        } else {
            let (my_priority, my_seq) = match self.place(symbol, agent) {
                Some(q) => (q.priority, q.seq),
                None => (priority, i64::MAX),
            };
            if line[0].priority > my_priority || (line[0].priority == my_priority && line[0].seq
                < my_seq) {
                Some(line[0])
            } else {
                None
            }
        }
    }

    /// The state once the agent waits in line: a place it already has is kept.
    /// Nothing where the new place's id is taken.
    pub open spec fn enqueue(self, sym: SymbolV, agent: Seq<char>, o: AcquireOptionsV, t: Tick) -> Option<
        StoreV,
    > {
        match self.place(sym.id, agent) {
            Some(mine) => Some(
                self.with_queue(
                    |q: QueueRowV|
                        if q.id == mine.id {
                            QueueRowV { polled_at: t.now, priority: o.priority, ..q }
                        } else {
                            q
                        },
                ),
            ),
            None => {
                let id = self.fresh("q"@, t);
                if first_where(self.queue, |q: QueueRowV| q.id == id) is Some {
                    None
                } else {
                    let row = QueueRowV {
                        id,
                        seq: after(top_place(self.queue)),
                        symbol_id: sym.id,
                        agent,
                        task: o.task,
                        priority: o.priority,
                        ttl_secs: o.ttl_secs,
                        requested_at: t.now,
                        polled_at: t.now,
                        state: QueueState::Waiting,
                        note: o.note,
                    };
                    Some(
                        StoreV { queue: self.queue.push(row), ..self.counted() }.emit(
                            t.now,
                            "lease.queued"@,
                            Some(agent),
                            Some(sym.handle()),
                            o.task,
                            JsonV::Obj(
                                seq![
                                    ("symbol_id"@, JsonV::Str(sym.id)),
                                    ("priority"@, JsonV::Int(o.priority as int)),
                                ],
                            ),
                        ),
                    )
                }
            },
        }
    }

    /// A denial: a place in line where one was asked for, and an event.
    pub open spec fn deny(
        self,
        sym: SymbolV,
        agent: Seq<char>,
        o: AcquireOptionsV,
        t: Tick,
        conflicts: Seq<ConflictV>,
    ) -> Option<(StoreV, AcquireOutcomeV)> {
        let queued = if o.queue {
            self.enqueue(sym, agent, o, t)
        } else {
            Some(self)
        };
        match queued {
            Some(s) => Some(
                (
                    s.emit(
                        t.now,
                        "lease.denied"@,
                        Some(agent),
                        Some(sym.handle()),
                        o.task,
                        conflicts_json(conflicts),
                    ),
                    AcquireOutcomeV::Denied { conflicts },
                ),
            ),
            None => None,
        }
    }

    /// The row of a lease that is being granted.
    pub open spec fn new_lease_row(
        self,
        symbol: Seq<char>,
        agent: Seq<char>,
        o: AcquireOptionsV,
        t: Tick,
    ) -> LeaseRowV {
        LeaseRowV {
            id: self.fresh("lease"@, t),
            symbol_id: symbol,
            agent,
            task: o.task,
            priority: o.priority,
            ttl_secs: o.ttl_secs,
            acquired_at: t.now,
            heartbeat_at: t.now,
            expires_at: (t.now + o.ttl_secs * 1000) as i64,
            state: LeaseState::Active,
            note: o.note,
            released_at: None,
        }
    }

    /// A grant: a new lease, and the agent is in line no more. Nothing where the
    /// lease's id is taken.
    pub open spec fn grant(self, sym: SymbolV, agent: Seq<char>, o: AcquireOptionsV, t: Tick) -> Option<
        (StoreV, AcquireOutcomeV),
    > {
        let row = self.new_lease_row(sym.id, agent, o, t);
        if self.lease_row(row.id) is Some {
            None
        } else {
            let s = StoreV { leases: self.leases.push(row), ..self.counted() }.leave_queue(
                sym.id,
                agent,
                QueueState::Granted,
            );
            let s = s.emit(
                t.now,
                "lease.acquired"@,
                Some(agent),
                Some(sym.handle()),
                o.task,
                JsonV::Obj(
                    seq![
                        ("lease"@, JsonV::Str(row.id)),
                        ("kind"@, JsonV::Str(sym.kind.word())),
                        ("ttl_secs"@, JsonV::Int(row.ttl_secs as int)),
                        ("expires_at"@, JsonV::Int(row.expires_at as int)),
                        ("priority"@, JsonV::Int(row.priority as int)),
                    ],
                ),
            );
            Some((s, AcquireOutcomeV::Granted { lease: self.lease_of(row) }))
        }
    }

    /// The holder asks again: the lease lives longer.
    pub open spec fn extend(
        self,
        mine: LeaseRowV,
        sym: SymbolV,
        agent: Seq<char>,
        o: AcquireOptionsV,
        now: i64,
    ) -> (StoreV, AcquireOutcomeV) {
        let s = self.with_lease(mine.id, |l: LeaseRowV| extended(l, o, now));
        let row = s.lease_row(mine.id)->0;
        (
            s.emit(
                now,
                "lease.extended"@,
                Some(agent),
                Some(sym.handle()),
                row.task,
                JsonV::Obj(
                    seq![
                        ("lease"@, JsonV::Str(row.id)),
                        ("expires_at"@, JsonV::Int(row.expires_at as int)),
                    ],
                ),
            ),
            AcquireOutcomeV::Extended { lease: self.lease_of(row) },
        )
    }

    /// The conflict that a waiter ahead shows as.
    pub open spec fn queue_conflict(self, sym: SymbolV, q: QueueRowV, now: i64) -> ConflictV {
        ConflictV {
            blocking_symbol: sym.handle(),
            relation: ConflictRelation::Queued,
            holder: q.agent,
            task: q.task,
            priority: q.priority,
            expires_at: now,
            seconds_until_free: 0,
            lease_id: q.id,
        }
    }

    /// What every acquisition does first: leases that have run out are retired,
    /// waiters that have gone are dropped.
    pub open spec fn swept(self, now: i64) -> StoreV {
        self.expire_due(now).abandon_stale(now)
    }

    /// Asking for a symbol that exists, in a state that was swept.
    pub open spec fn acquire_swept(self, sym: SymbolV, agent: Seq<char>, o: AcquireOptionsV, t: Tick) -> Option<
        (StoreV, AcquireOutcomeV),
    > {
        let here = self.active_on(sym.id);
        let blocking = self.blocking(sym.id, agent);
        if here.len() > 0 && here[0].agent == agent {
            Some(self.extend(here[0], sym, agent, o, t.now))
        } else if blocking.len() > 0 && !overrides(blocking, o) {
            self.deny(sym, agent, o, t, self.conflicts(blocking, t.now))
        } else {
            let s = self.preempt_each(blocking, agent, o.priority, t.now);
            match s.waiter_ahead(sym.id, agent, o.priority, t.now) {
                Some(q) => s.deny(sym, agent, o, t, seq![s.queue_conflict(sym, q, t.now)]),
                None => s.grant(sym, agent, o, t),
            }
        }
    }

    /// Asking for a lease.
    pub open spec fn acquire(self, symbol: Seq<char>, agent: Seq<char>, o: AcquireOptionsV, t: Tick) -> (
        StoreV,
        Result<AcquireOutcomeV, StoreErrorV>,
    ) {
        match self.symbol(symbol) {
            None => (
                self,
                Err(failure(ErrorKind::UnknownSymbol, "unknown symbol id: "@ + symbol)),
            ),
            Some(sym) => match self.swept(t.now).acquire_swept(sym, agent, o, t) {
                Some((s, out)) => (s, Ok(out)),
                None => (self, Err(failure(ErrorKind::Duplicate, "id is taken"@))),
            },
        }
    }

    /// Handing a lease back: only its owner may, and only while it is active.
    pub open spec fn release(self, id: Seq<char>, agent: Seq<char>, now: i64) -> (
        StoreV,
        Result<LeaseV, StoreErrorV>,
    ) {
        match self.lease_row(id) {
            None => (self, Err(failure(ErrorKind::NoSuchLease, "no such lease: "@ + id))),
            Some(l) => if l.agent != agent {
                (
                    self,
                    Err(
                        failure(
                            ErrorKind::WrongOwner,
                            "lease "@ + id + " belongs to "@ + l.agent + ", not "@ + agent,
                        ),
                    ),
                )
            } else if !(l.state is Active) {
                (
                    self,
                    Err(
                        failure(
                            ErrorKind::LeaseOver,
                            "lease "@ + id + " is already "@ + l.state.word(),
                        ),
                    ),
                )
            } else {
                (
                    self.finish_lease(l, LeaseState::Released, "released"@, now),
                    Ok(self.lease_of(finished(l, LeaseState::Released, now))),
                )
            },
        }
    }

    /// Handing a lease to another agent without it ever becoming free.
    pub open spec fn transfer_lease(
        self,
        id: Seq<char>,
        from: Seq<char>,
        to: Seq<char>,
        now: i64,
    ) -> (StoreV, Result<LeaseV, StoreErrorV>) {
        if from == to {
            (self, Err(failure(ErrorKind::AlreadyHolds, from + " already holds that lease"@)))
        } else {
            match self.lease_row(id) {
                None => (self, Err(failure(ErrorKind::NoSuchLease, "no such lease: "@ + id))),
                Some(l) => if l.agent != from {
                    (
                        self,
                        Err(
                            failure(
                                ErrorKind::WrongOwner,
                                "lease "@ + id + " belongs to "@ + l.agent + ", not "@ + from,
                            ),
                        ),
                    )
                } else if !(l.state is Active) {
                    (
                        self,
                        Err(
                            failure(
                                ErrorKind::LeaseOver,
                                "lease "@ + id + " is "@ + l.state.word(),
                            ),
                        ),
                    )
                } else {
                    (self.hand_over(l, from, to, now), Ok(self.lease_of(handed(l, to, now))))
                },
            }
        }
    }

    /// The state once a lease was handed over.
    pub open spec fn hand_over(self, l: LeaseRowV, from: Seq<char>, to: Seq<char>, now: i64) -> StoreV {
        self.with_lease(l.id, |x: LeaseRowV| handed(x, to, now)).leave_queue(
            l.symbol_id,
            to,
            QueueState::Granted,
        ).emit(
            now,
            "lease.transferred"@,
            Some(to),
            Some(self.lease_handle(l)),
            l.task,
            JsonV::Obj(
                seq![
                    ("lease"@, JsonV::Str(l.id)),
                    ("from"@, JsonV::Str(from)),
                    ("to"@, JsonV::Str(to)),
                ],
            ),
        )
    }

    /// The state once the leases with these ids were renewed and the agent was
    /// seen.
    pub open spec fn renew(self, ids: Seq<Seq<char>>, agent: Seq<char>, now: i64) -> StoreV {
        StoreV {
            leases: self.leases.map_values(
                |l: LeaseRowV|
                    if ids.contains(l.id) {
                        renewed(l, now)
                    } else {
                        l
                    },
            ),
            agents: self.agents.map_values(
                |a: AgentV|
                    if a.name == agent {
                        AgentV { heartbeat_at: now, ..a }
                    } else {
                        a
                    },
            ),
            ..self
        }
    }

    /// The active leases that a heartbeat is about: one, or all of the agent's.
    pub open spec fn beating(self, agent: Seq<char>, lease: Option<Seq<char>>) -> Seq<LeaseRowV> {
        match lease {
            Some(id) => match self.lease_row(id) {
                Some(l) => if held(l, agent) {
                    seq![l]
                } else {
                    Seq::empty()
                },
                None => Seq::empty(),
            },
            None => self.held_by(agent),
        }
    }

    /// The state after a heartbeat.
    pub open spec fn heartbeat(self, agent: Seq<char>, lease: Option<Seq<char>>, now: i64) -> StoreV {
        let s = self.expire_due(now);
        s.renew(s.beating(agent, lease).map_values(|l: LeaseRowV| l.id), agent, now)
    }

    /// How another symbol lies to the one asked for.
    pub open spec fn relation_of(self, target: Seq<char>, other: Seq<char>) -> ConflictRelation {
        if target == other {
            ConflictRelation::Same
        } else if self.covers(other, target) {
            ConflictRelation::Ancestor
        } else {
            ConflictRelation::Descendant
        }
    }

    /// The symbol with everything around and inside it, in text order.
    pub open spec fn neighbourhood(self, symbol: Seq<char>) -> Seq<Seq<char>> {
        deduped(sorted_texts(seq![symbol] + self.chain(symbol) + self.inside(symbol)))
    }

    /// The conflicts on some symbols, leases that have run out left aside.
    pub open spec fn live_conflicts(
        self,
        ids: Seq<Seq<char>>,
        symbol: Seq<char>,
        agent: Seq<char>,
        now: i64,
    ) -> Seq<ConflictV>
        decreases ids.len(),
    {
        if ids.len() == 0 {
            Seq::empty()
        } else {
            let id = ids.last();
            self.live_conflicts(ids.drop_last(), symbol, agent, now) + self.leases.filter(
                |l: LeaseRowV| active_lease(l, id) && l.agent != agent && l.expires_at > now,
            ).map_values(
                |l: LeaseRowV| self.conflict_from(l, self.relation_of(symbol, id), now),
            )
        }
    }

    /// Who would block `agent` from taking the symbol right now.
    pub open spec fn conflicts_for(self, symbol: Seq<char>, agent: Seq<char>, now: i64) -> Seq<ConflictV> {
        self.live_conflicts(self.neighbourhood(symbol), symbol, agent, now)
    }

    /// Checking a whole scope: the conflicts that preemption would not clear.
    pub open spec fn scope_conflicts(
        self,
        scope: Seq<Seq<char>>,
        agent: Seq<char>,
        o: AcquireOptionsV,
        now: i64,
    ) -> Seq<ConflictV>
        decreases scope.len(),
    {
        if scope.len() == 0 {
            Seq::empty()
        } else {
            let before = self.scope_conflicts(scope.drop_last(), agent, o, now);
            let b = self.blocking(scope.last(), agent);
            if b.len() == 0 || overrides(b, o) {
                before
            } else {
                before + self.conflicts(b, now)
            }
        }
    }

    /// Taking every symbol of a scope in turn; stops at the first that is not
    /// granted, with its conflicts or with the failure.
    pub open spec fn acquire_each(
        self,
        scope: Seq<Seq<char>>,
        agent: Seq<char>,
        o: AcquireOptionsV,
        t: Tick,
    ) -> (StoreV, Result<Seq<ConflictV>, StoreErrorV>)
        decreases scope.len(),
    {
        if scope.len() == 0 {
            (self, Ok(Seq::empty()))
        } else {
            let (s, r) = self.acquire_each(scope.drop_last(), agent, o, t);
            match r {
                Err(e) => (s, Err(e)),
                Ok(cs) => if cs.len() > 0 {
                    (s, Ok(cs))
                } else {
                    match s.acquire(scope.last(), agent, o, t) {
                        (_, Err(e)) => (s, Err(e)),
                        (s2, Ok(AcquireOutcomeV::Denied { conflicts })) => (s2, Ok(conflicts)),
                        (s2, Ok(_)) => (s2, Ok(Seq::empty())),
                    }
                },
            }
        }
    }

    /// Taking a whole scope or nothing of it. Conflicts come back where it could
    /// not be had, and then nothing has changed.
    pub open spec fn settle_scope(
        self,
        scope: Seq<Seq<char>>,
        agent: Seq<char>,
        o: AcquireOptionsV,
        t: Tick,
    ) -> (StoreV, Result<Seq<ConflictV>, StoreErrorV>) {
        let conflicts = self.scope_conflicts(scope, agent, o, t.now);
        if conflicts.len() > 0 {
            (self, Ok(conflicts))
        } else {
            let (s, r) = self.acquire_each(scope, agent, o, t);
            match r {
                Ok(cs) => if cs.len() == 0 {
                    (s, Ok(cs))
                } else {
                    (self, Ok(cs))
                },
                Err(e) => (self, Err(e)),
            }
        }
    }

    /// The active lease that an agent holds on a symbol.
    pub open spec fn active_lease_for(self, symbol: Seq<char>, agent: Seq<char>) -> Option<LeaseRowV> {
        first_where(self.leases, |l: LeaseRowV| active_lease(l, symbol) && l.agent == agent)
    }

    /// The state once the leases taken for a task are released.
    pub open spec fn release_task_leases(self, task: Seq<char>, now: i64) -> StoreV {
        self.finish_each(
            self.leases.filter(|l: LeaseRowV| l.task == Some(task) && l.state is Active),
            LeaseState::Released,
            "task finished"@,
            now,
        )
    }
}

// ------------------------------------------------------- what stays as it was

/// Does `b` differ from `a` at most in leases, requests, events?
pub open spec fn only_ends(a: StoreV, b: StoreV) -> bool {
    b == (StoreV { leases: b.leases, requests: b.requests, events: b.events, ..a })
}

pub(crate) proof fn lemma_resolve_keeps(
    s: StoreV,
    rows: Seq<RequestRowV>,
    state: crate::model::RequestState,
    by_sender: bool,
    response: JsonV,
    now: i64,
)
    ensures
        ({
            let r = s.resolve_each(rows, state, by_sender, response, now);
            &&& r == (StoreV { requests: r.requests, events: r.events, ..s })
            &&& request_ids_differ(s.requests) ==> request_ids_differ(r.requests)
        }),
    decreases rows.len(),
{
    if rows.len() > 0 {
        lemma_resolve_keeps(s, rows.drop_last(), state, by_sender, response, now);
        let m = s.resolve_each(rows.drop_last(), state, by_sender, response, now);
        let r = s.resolve_each(rows, state, by_sender, response, now);
        if request_ids_differ(s.requests) {
            lemma_request_ids_kept(m.requests, r.requests);
        }
    }
}

pub(crate) proof fn lemma_symbol_requests_keep(s: StoreV, symbol: Seq<char>, reason: Seq<char>, now: i64)
    ensures
        ({
            let r = s.resolve_symbol_requests(symbol, reason, now);
            &&& r == (StoreV { requests: r.requests, events: r.events, ..s })
            &&& request_ids_differ(s.requests) ==> request_ids_differ(r.requests)
        }),
{
    lemma_resolve_keeps(
        s,
        s.requests.filter(|r: RequestRowV| wants_symbol(r, symbol)),
        crate::model::RequestState::Fulfilled,
        false,
        JsonV::Obj(seq![("reason"@, JsonV::Str(reason)), ("symbol_free"@, JsonV::Bool(true))]),
        now,
    );
}

/// Ending a lease changes that lease's state and nothing else about leases.
pub(crate) proof fn lemma_finish_keeps(
    s: StoreV,
    l: LeaseRowV,
    state: LeaseState,
    reason: Seq<char>,
    now: i64,
)
    ensures
        only_ends(s, s.finish_lease(l, state, reason, now)),
        s.finish_lease(l, state, reason, now).leases == s.with_lease(
            l.id,
            |x: LeaseRowV| finished(x, state, now),
        ).leases,
        s.wf() ==> s.finish_lease(l, state, reason, now).wf(),
{
    let w = s.with_lease(l.id, |x: LeaseRowV| finished(x, state, now));
    lemma_symbol_requests_keep(w, l.symbol_id, reason, now);
    if s.wf() {
        assert forall|i: int| 0 <= i < w.leases.len() implies lease_ok(#[trigger] w.leases[i]) by {
            assert(lease_ok(s.leases[i]));
        }
    }
}

/// The row after each lease of a list ended in turn.
pub open spec fn ended(l: LeaseRowV, rows: Seq<LeaseRowV>, state: LeaseState, now: i64) -> LeaseRowV {
    if exists|k: int| 0 <= k < rows.len() && (#[trigger] rows[k]).id == l.id {
        finished(l, state, now)
    } else {
        l
    }
}

pub(crate) proof fn lemma_finish_each_keeps(
    s: StoreV,
    rows: Seq<LeaseRowV>,
    state: LeaseState,
    reason: Seq<char>,
    now: i64,
)
    ensures
        only_ends(s, s.finish_each(rows, state, reason, now)),
        s.wf() ==> s.finish_each(rows, state, reason, now).wf(),
        s.finish_each(rows, state, reason, now).leases =~= s.leases.map_values(
            |l: LeaseRowV| ended(l, rows, state, now),
        ),
    decreases rows.len(),
{
    let f = |l: LeaseRowV| ended(l, rows, state, now);
    if rows.len() > 0 {
        let init = rows.drop_last();
        lemma_finish_each_keeps(s, init, state, reason, now);
        let m = s.finish_each(init, state, reason, now);
        lemma_finish_keeps(m, rows.last(), state, reason, now);
        let r = s.finish_each(rows, state, reason, now);
        assert forall|i: int| 0 <= i < s.leases.len() implies #[trigger] r.leases[i] == f(s.leases[i]) by {
            let l = s.leases[i];
            if exists|k: int| 0 <= k < init.len() && (#[trigger] init[k]).id == l.id {
                let k = choose|k: int| 0 <= k < init.len() && (#[trigger] init[k]).id == l.id;
                assert(rows[k].id == l.id);
            }
            if rows.last().id == l.id {
                assert(rows[rows.len() - 1].id == l.id);
            }
            if exists|k: int| 0 <= k < rows.len() && (#[trigger] rows[k]).id == l.id {
                let k = choose|k: int| 0 <= k < rows.len() && (#[trigger] rows[k]).id == l.id;
                if k < init.len() {
                    assert(init[k].id == l.id);
                }
            }
        }
    } else {
        assert forall|i: int| 0 <= i < s.leases.len() implies s.leases[i] == #[trigger] f(s.leases[i]) by {
        }
    }
}

pub(crate) proof fn lemma_expire_keeps(s: StoreV, now: i64)
    ensures
        only_ends(s, s.expire_due(now)),
        s.wf() ==> s.expire_due(now).wf(),
{
    lemma_finish_each_keeps(s, s.due_leases(now), LeaseState::Expired, "ttl expired"@, now);
}

pub(crate) proof fn lemma_preempt_keeps(
    s: StoreV,
    blocking: Seq<BlockerV>,
    by: Seq<char>,
    priority: i64,
    now: i64,
)
    ensures
        only_ends(s, s.preempt_each(blocking, by, priority, now)),
        s.wf() ==> s.preempt_each(blocking, by, priority, now).wf(),
        s.preempt_each(blocking, by, priority, now).leases =~= s.leases.map_values(
            |l: LeaseRowV|
                ended(
                    l,
                    blocking.map_values(|b: BlockerV| b.lease),
                    LeaseState::Preempted,
                    now,
                ),
        ),
    decreases blocking.len(),
{
    let rows = blocking.map_values(|b: BlockerV| b.lease);
    let f = |l: LeaseRowV| ended(l, rows, LeaseState::Preempted, now);
    if blocking.len() > 0 {
        let init = blocking.drop_last();
        lemma_preempt_keeps(s, init, by, priority, now);
        let m = s.preempt_each(init, by, priority, now);
        let last = blocking.last().lease;
        lemma_finish_keeps(m, last, LeaseState::Preempted, "preempted"@, now);
        let r = s.preempt_each(blocking, by, priority, now);
        let irows = init.map_values(|b: BlockerV| b.lease);
        assert(irows =~= rows.drop_last());
        assert forall|i: int| 0 <= i < s.leases.len() implies #[trigger] r.leases[i] == f(s.leases[i]) by {
            let l = s.leases[i];
            if exists|k: int| 0 <= k < irows.len() && (#[trigger] irows[k]).id == l.id {
                let k = choose|k: int| 0 <= k < irows.len() && (#[trigger] irows[k]).id == l.id;
                assert(rows[k].id == l.id);
            }
            if last.id == l.id {
                assert(rows[rows.len() - 1].id == l.id);
            }
            if exists|k: int| 0 <= k < rows.len() && (#[trigger] rows[k]).id == l.id {
                let k = choose|k: int| 0 <= k < rows.len() && (#[trigger] rows[k]).id == l.id;
                if k < irows.len() {
                    assert(irows[k].id == l.id);
                }
            }
        }
    } else {
        assert forall|i: int| 0 <= i < s.leases.len() implies s.leases[i] == #[trigger] f(s.leases[i]) by {
        }
    }
}

/// A row of an id, changed, is the first row of that id once all are changed.
pub(crate) proof fn lemma_first_changed(
    rows: Seq<LeaseRowV>,
    id: Seq<char>,
    f: spec_fn(LeaseRowV) -> LeaseRowV,
)
    requires
        forall|l: LeaseRowV| (#[trigger] f(l)).id == l.id,
    ensures
        ({
            let g = |l: LeaseRowV|
                if l.id == id {
                    f(l)
                } else {
                    l
                };
            let p = |l: LeaseRowV| l.id == id;
            first_where(rows.map_values(g), p) == (match first_where(rows, p) {
                Some(l) => Some(f(l)),
                None => None,
            })
        }),
    decreases rows.len(),
{
    let g = |l: LeaseRowV|
        if l.id == id {
            f(l)
        } else {
            l
        };
    if rows.len() > 0 {
        lemma_first_changed(rows.drop_first(), id, f);
        assert(rows.map_values(g).drop_first() =~= rows.drop_first().map_values(g));
    }
}

proof fn lemma_filter_ok(s: StoreV, p: spec_fn(LeaseRowV) -> bool)
    requires
        s.wf(),
    ensures
        forall|i: int| 0 <= i < s.leases.filter(p).len() ==> lease_ok(#[trigger] s.leases.filter(p)[i]),
{
    assert forall|i: int| 0 <= i < s.leases.filter(p).len() implies lease_ok(
        #[trigger] s.leases.filter(p)[i],
    ) by {
        let x = s.leases.filter(p)[i];
        s.leases.lemma_filter_contains_rev(p, x);
        let k = choose|k: int| 0 <= k < s.leases.len() && s.leases[k] == x;
        assert(lease_ok(s.leases[k]));
    }
}

/// Everything in the way is a lease within limits.
proof fn lemma_holders_ok(
    s: StoreV,
    ids: Seq<Seq<char>>,
    symbol: Seq<char>,
    agent: Seq<char>,
    relation: ConflictRelation,
)
    requires
        s.wf(),
    ensures
        forall|i: int|
            0 <= i < s.holders(ids, symbol, agent, relation).len() ==> lease_ok(
                (#[trigger] s.holders(ids, symbol, agent, relation)[i]).lease,
            ),
    decreases ids.len(),
{
    if ids.len() > 0 {
        lemma_holders_ok(s, ids.drop_last(), symbol, agent, relation);
        let id = ids.last();
        lemma_filter_ok(s, |l: LeaseRowV| active_lease(l, id) && l.agent != agent);
        let a = s.holders(ids.drop_last(), symbol, agent, relation);
        let f = s.leases.filter(|l: LeaseRowV| active_lease(l, id) && l.agent != agent);
        let h = s.holders(ids, symbol, agent, relation);
        assert forall|i: int| 0 <= i < h.len() implies lease_ok((#[trigger] h[i]).lease) by {
            if i < a.len() {
                assert(h[i] == a[i]);
            } else {
                assert(h[i].lease == f[i - a.len()]);
            }
        }
    }
}

// ---------------------------------------------------------------- the operations

pub(crate) fn clamp_wait(now: i64, then: i64) -> (r: i64)
    requires
        sane_time(now),
        sane_end(then),
    ensures
        r == wait_secs(now, then),
{
    let s = seconds_until(now, then);
    if s > 0 {
        s
    } else {
        0
    }
}

fn conflict_value(c: &Conflict) -> (r: Json)
    ensures
        r.deep_view() == conflict_json(c.deep_view()),
{
    let r = Json::object().with("blocking_symbol", Json::str(c.blocking_symbol.as_str())).with(
        "relation",
        Json::str(c.relation.as_str()),
    ).with("holder", Json::str(c.holder.as_str())).with("task", Json::opt(&c.task)).with(
        "priority",
        Json::Int(c.priority),
    ).with("expires_at", Json::Int(c.expires_at)).with(
        "seconds_until_free",
        Json::Int(c.seconds_until_free),
    ).with("lease_id", Json::str(c.lease_id.as_str()));
    assert(r.deep_view()->Obj_0 =~= conflict_json(c.deep_view())->Obj_0);
    r
}

fn conflicts_value(cs: &Vec<Conflict>) -> (r: Json)
    ensures
        r.deep_view() == conflicts_json(cs.deep_view()),
{
    let mut items: Vec<Json> = Vec::new();
    let mut i: usize = 0;
    while i < cs.len()
        invariant
            i <= cs@.len(),
            items@.len() == i,
            forall|k: int|
                0 <= k < i ==> crate::json::json_view(#[trigger] items@[k]) == conflict_json(
                    cs@[k].deep_view(),
                ),
        decreases cs@.len() - i,
    {
        items.push(conflict_value(&cs[i]));
        i += 1;
    }
    let arr = Json::Arr(items);
    assert(arr.deep_view()->Arr_0 =~= cs.deep_view().map_values(|c: ConflictV| conflict_json(c)));
    let r = Json::object().with("conflicts", arr);
    assert(r.deep_view()->Obj_0 =~= conflicts_json(cs.deep_view())->Obj_0);
    r
}

fn entry(q: &QueueRow) -> (r: QueueEntry)
    ensures
        r.deep_view() == entry_of(q.deep_view()),
{
    QueueEntry {
        id: q.id.clone(),
        seq: q.seq,
        symbol_id: q.symbol_id.clone(),
        agent: q.agent.clone(),
        task: q.task.clone(),
        priority: q.priority,
        ttl_secs: q.ttl_secs,
        requested_at: q.requested_at,
        polled_at: q.polled_at,
    }
}

impl Store {
    /// Where the lease with this id stands.
    pub(crate) fn lease_at(&self, id: &str) -> (r: Option<usize>)
        ensures
            match r {
                Some(i) => i < self.leases@.len() && self@.lease_row(id@) == Some(
                    self.leases@[i as int].deep_view(),
                ) && self.leases@[i as int].id@ == id@,
                None => self@.lease_row(id@) is None,
            },
    {
        let ghost all = self@.leases;
        let ghost p = |s: LeaseRowV| s.id == id@;
        let mut i: usize = 0;
        assert(all.skip(0) =~= all);
        while i < self.leases.len()
            invariant
                all == self@.leases,
                i <= self.leases@.len(),
                p == (|s: LeaseRowV| s.id == id@),
                first_where(all, p) == first_where(all.skip(i as int), p),
            decreases self.leases@.len() - i,
        {
            assert(all.skip(i as int)[0] == self.leases@[i as int].deep_view());
            assert(all.skip(i as int).drop_first() =~= all.skip(i + 1));
            if same(self.leases[i].id.as_str(), id) {
                return Some(i);
            }
            i += 1;
        }
        None
    }

    pub(crate) fn lease_handle(&self, l: &LeaseRow) -> (r: String)
        ensures
            r@ == self@.lease_handle(l.deep_view()),
    {
        match self.row_handle(&Some(l.symbol_id.clone())) {
            Some(h) => h,
            None => l.symbol_id.clone(),
        }
    }

    pub(crate) fn lease_of(&self, l: &LeaseRow) -> (r: Lease)
        ensures
            r.deep_view() == self@.lease_of(l.deep_view()),
    {
        let symbol_handle = self.lease_handle(l);
        let l = l.clone();
        Lease {
            id: l.id,
            symbol_id: l.symbol_id,
            symbol_handle,
            agent: l.agent,
            task: l.task,
            priority: l.priority,
            ttl_secs: l.ttl_secs,
            acquired_at: l.acquired_at,
            heartbeat_at: l.heartbeat_at,
            expires_at: l.expires_at,
            state: l.state,
            note: l.note,
        }
    }

    fn show_leases(&self, rows: &Vec<LeaseRow>) -> (r: Vec<Lease>)
        ensures
            r.deep_view() == rows.deep_view().map_values(|l: LeaseRowV| self@.lease_of(l)),
    {
        let ghost rv = rows.deep_view();
        let ghost g = |l: LeaseRowV| self@.lease_of(l);
        let mut out: Vec<Lease> = no_rows();
        let mut k: usize = 0;
        while k < rows.len()
            invariant
                rv == rows.deep_view(),
                k <= rows@.len(),
                g == (|l: LeaseRowV| self@.lease_of(l)),
                out.deep_view() =~= rv.take(k as int).map_values(g),
            decreases rows@.len() - k,
        {
            append(&mut out, self.lease_of(&rows[k]));
            assert(rv.take(k + 1).map_values(g) =~= rv.take(k as int).map_values(g).push(
                g(rv[k as int]),
            ));
            k += 1;
        }
        assert(rv.take(k as int) =~= rv);
        out
    }

    /// The lease with this id.
    pub fn lease(&self, id: &str) -> (r: Option<Lease>)
        ensures
            r.deep_view() == self@.lease(id@),
    {
        match self.lease_at(id) {
            Some(i) => Some(self.lease_of(&self.leases[i])),
            None => None,
        }
    }

    pub(crate) fn active_on(&self, symbol: &str) -> (r: Vec<LeaseRow>)
        ensures
            r.deep_view() == self@.active_on(symbol@),
    {
        let ghost all = self@.leases;
        let ghost p = |l: LeaseRowV| active_lease(l, symbol@);
        let mut out: Vec<LeaseRow> = no_rows();
        let mut i: usize = 0;
        assert(all.take(0).filter(p) =~= Seq::empty());
        while i < self.leases.len()
            invariant
                all == self@.leases,
                i <= self.leases@.len(),
                p == (|l: LeaseRowV| active_lease(l, symbol@)),
                out.deep_view() == all.take(i as int).filter(p),
            decreases self.leases@.len() - i,
        {
            let l = &self.leases[i];
            proof {
                assert(all[i as int] == l.deep_view());
                law_filter_step(all, p, i as int);
            }
            if same(l.symbol_id.as_str(), symbol) && l.state == LeaseState::Active {
                append(&mut out, l.clone());
            }
            i += 1;
        }
        assert(all.take(i as int) =~= all);
        out
    }

    fn held_by(&self, agent: &str) -> (r: Vec<LeaseRow>)
        ensures
            r.deep_view() == self@.held_by(agent@),
    {
        let ghost all = self@.leases;
        let ghost p = |l: LeaseRowV| held(l, agent@);
        let mut out: Vec<LeaseRow> = no_rows();
        let mut i: usize = 0;
        assert(all.take(0).filter(p) =~= Seq::empty());
        while i < self.leases.len()
            invariant
                all == self@.leases,
                i <= self.leases@.len(),
                p == (|l: LeaseRowV| held(l, agent@)),
                out.deep_view() == all.take(i as int).filter(p),
            decreases self.leases@.len() - i,
        {
            let l = &self.leases[i];
            proof {
                assert(all[i as int] == l.deep_view());
                law_filter_step(all, p, i as int);
            }
            if same(l.agent.as_str(), agent) && l.state == LeaseState::Active {
                append(&mut out, l.clone());
            }
            i += 1;
        }
        assert(all.take(i as int) =~= all);
        out
    }

    fn due_leases(&self, now: i64) -> (r: Vec<LeaseRow>)
        ensures
            r.deep_view() == self@.due_leases(now),
    {
        let ghost all = self@.leases;
        let ghost p = |l: LeaseRowV| due(l, now);
        let mut out: Vec<LeaseRow> = no_rows();
        let mut i: usize = 0;
        assert(all.take(0).filter(p) =~= Seq::empty());
        while i < self.leases.len()
            invariant
                all == self@.leases,
                i <= self.leases@.len(),
                p == (|l: LeaseRowV| due(l, now)),
                out.deep_view() == all.take(i as int).filter(p),
            decreases self.leases@.len() - i,
        {
            let l = &self.leases[i];
            proof {
                assert(all[i as int] == l.deep_view());
                law_filter_step(all, p, i as int);
            }
            if l.state == LeaseState::Active && l.expires_at <= now {
                append(&mut out, l.clone());
            }
            i += 1;
        }
        assert(all.take(i as int) =~= all);
        out
    }

    /// Ends a lease.
    fn finish_lease(&mut self, l: &LeaseRow, state: LeaseState, reason: &str, now: i64)
        requires
            sane_time(now),
            lease_ok(l.deep_view()),
        ensures
            final(self)@ == old(self)@.finish_lease(l.deep_view(), state, reason@, now),
    {
        let handle = self.lease_handle(l);
        let ghost s0 = self@;
        let ghost before = self@.leases;
        let ghost h = |x: LeaseRowV| finished(x, state, now);
        let ghost f = |x: LeaseRowV|
            if x.id == l.id@ {
                h(x)
            } else {
                x
            };
        let mut i: usize = 0;
        while i < self.leases.len()
            invariant
                i <= self.leases@.len(),
                self@ == (StoreV { leases: self@.leases, ..s0 }),
                self@.leases.len() == before.len(),
                h == (|x: LeaseRowV| finished(x, state, now)),
                f == (|x: LeaseRowV|
                    if x.id == l.id@ {
                        h(x)
                    } else {
                        x
                    }),
                forall|k: int| 0 <= k < i ==> #[trigger] self@.leases[k] == f(before[k]),
                forall|k: int| i <= k < before.len() ==> #[trigger] self@.leases[k] == before[k],
            decreases self.leases@.len() - i,
        {
            assert(self@.leases[i as int] == self.leases@[i as int].deep_view());
            if same(self.leases[i].id.as_str(), l.id.as_str()) {
                let mut r = self.leases[i].clone();
                r.state = state;
                r.released_at = Some(now);
                put(&mut self.leases, i, r);
            }
            i += 1;
        }
        assert(self@.leases =~= before.map_values(f));
        assert(self@ == s0.with_lease(l.id@, h));
        match state {
            LeaseState::Released | LeaseState::Expired => {
                self.resolve_symbol_requests(l.symbol_id.as_str(), reason, now);
            },
            _ => {},
        }
        if state != LeaseState::Preempted {
            let kind = match state {
                LeaseState::Released => "lease.released",
                LeaseState::Expired => "lease.expired",
                LeaseState::Preempted => "lease.preempted",
                LeaseState::Active => "lease.updated",
            };
            let detail = Json::object().with("lease", Json::str(l.id.as_str())).with(
                "reason",
                Json::str(reason),
            ).with("held_ms", Json::Int(now - l.acquired_at));
            assert(detail.deep_view()->Obj_0 =~= seq![
                ("lease"@, JsonV::Str(l.id@)),
                ("reason"@, JsonV::Str(reason@)),
                ("held_ms"@, JsonV::Int(now - l.acquired_at)),
            ]);
            self.emit(now, kind, Some(l.agent.clone()), Some(handle), l.task.clone(), detail);
        }
    }

    /// Ends every lease of a list.
    fn finish_each(&mut self, rows: &Vec<LeaseRow>, state: LeaseState, reason: &str, now: i64)
        requires
            sane_time(now),
            forall|i: int| 0 <= i < rows.deep_view().len() ==> lease_ok(#[trigger] rows.deep_view()[i]),
        ensures
            final(self)@ == old(self)@.finish_each(rows.deep_view(), state, reason@, now),
    {
        let ghost s0 = self@;
        let ghost all = rows.deep_view();
        let mut i: usize = 0;
        while i < rows.len()
            invariant
                sane_time(now),
                i <= rows@.len(),
                all == rows.deep_view(),
                forall|k: int| 0 <= k < all.len() ==> lease_ok(#[trigger] all[k]),
                self@ == s0.finish_each(all.take(i as int), state, reason@, now),
            decreases rows@.len() - i,
        {
            let row = &rows[i];
            proof {
                assert(all[i as int] == row.deep_view());
                assert(all.take(i + 1).drop_last() =~= all.take(i as int));
                assert(all.take(i + 1).last() == row.deep_view());
            }
            self.finish_lease(row, state, reason, now);
            i += 1;
        }
        assert(all.take(i as int) =~= all);
    }

    /// Retires every lease whose TTL has run out; tells how many. This is what
    /// makes a crashed agent stop blocking its teammates.
    pub fn expire_due(&mut self, now: i64) -> (n: usize)
        requires
            old(self)@.wf(),
            sane_time(now),
        ensures
            final(self)@ == old(self)@.expire_due(now),
            final(self)@.wf(),
            n == old(self)@.due_leases(now).len(),
            final(self)@.leases == old(self)@.leases.map_values(
                |l: LeaseRowV|
                    if due(l, now) {
                        finished(l, LeaseState::Expired, now)
                    } else {
                        l
                    },
            ),
            final(self)@.due_leases(now).len() == 0,
    {
        let rows = self.due_leases(now);
        proof {
            crate::lease_laws::lemma_nothing_due(self@, now);
            lemma_filter_ok(self@, |l: LeaseRowV| due(l, now));
            lemma_expire_keeps(self@, now);
        }
        self.finish_each(&rows, LeaseState::Expired, "ttl expired", now);
        rows.len()
    }

    /// Drops waiters that stopped polling.
    fn abandon_stale(&mut self, now: i64)
        requires
            sane_time(now),
        ensures
            final(self)@ == old(self)@.abandon_stale(now),
    {
        let ghost s0 = self@;
        let ghost before = self@.queue;
        let ghost f = |q: QueueRowV|
            if q.state is Waiting && stale(q, now) {
                QueueRowV { state: QueueState::Abandoned, ..q }
            } else {
                q
            };
        let mut i: usize = 0;
        while i < self.queue.len()
            invariant
                sane_time(now),
                i <= self.queue@.len(),
                self@ == (StoreV { queue: self@.queue, ..s0 }),
                self@.queue.len() == before.len(),
                f == (|q: QueueRowV|
                    if q.state is Waiting && stale(q, now) {
                        QueueRowV { state: QueueState::Abandoned, ..q }
                    } else {
                        q
                    }),
                forall|k: int| 0 <= k < i ==> #[trigger] self@.queue[k] == f(before[k]),
                forall|k: int| i <= k < before.len() ==> #[trigger] self@.queue[k] == before[k],
            decreases self.queue@.len() - i,
        {
            assert(self@.queue[i as int] == self.queue@[i as int].deep_view());
            if self.queue[i].state == QueueState::Waiting && self.queue[i].polled_at < now
                - QUEUE_ABANDON_MS {
                let mut r = self.queue[i].clone();
                r.state = QueueState::Abandoned;
                put(&mut self.queue, i, r);
            }
            i += 1;
        }
        assert(self@.queue =~= before.map_values(f));
    }

    /// Ends the agent's places in line for a symbol; tells how many.
    fn leave_queue(&mut self, symbol: &str, agent: &str, end: QueueState) -> (n: usize)
        ensures
            final(self)@ == old(self)@.leave_queue(symbol@, agent@, end),
            n == old(self)@.queue.filter(|q: QueueRowV| waits(q, symbol@, agent@)).len(),
    {
        let ghost s0 = self@;
        let ghost before = self@.queue;
        let ghost p = |q: QueueRowV| waits(q, symbol@, agent@);
        let ghost f = |q: QueueRowV|
            if waits(q, symbol@, agent@) {
                QueueRowV { state: end, ..q }
            } else {
                q
            };
        let mut n: usize = 0;
        let mut i: usize = 0;
        assert(before.take(0).filter(p) =~= Seq::empty());
        while i < self.queue.len()
            invariant
                i <= self.queue@.len(),
                self@ == (StoreV { queue: self@.queue, ..s0 }),
                self@.queue.len() == before.len(),
                p == (|q: QueueRowV| waits(q, symbol@, agent@)),
                f == (|q: QueueRowV|
                    if waits(q, symbol@, agent@) {
                        QueueRowV { state: end, ..q }
                    } else {
                        q
                    }),
                n == before.take(i as int).filter(p).len(),
                n <= i,
                forall|k: int| 0 <= k < i ==> #[trigger] self@.queue[k] == f(before[k]),
                forall|k: int| i <= k < before.len() ==> #[trigger] self@.queue[k] == before[k],
            decreases self.queue@.len() - i,
        {
            proof {
                assert(self@.queue[i as int] == self.queue@[i as int].deep_view());
                assert(before[i as int] == self@.queue[i as int]);
                law_filter_step(before, p, i as int);
            }
            if same(self.queue[i].agent.as_str(), agent) && same(
                self.queue[i].symbol_id.as_str(),
                symbol,
            ) && self.queue[i].state == QueueState::Waiting {
                let mut r = self.queue[i].clone();
                r.state = end;
                put(&mut self.queue, i, r);
                n += 1;
            }
            i += 1;
        }
        assert(self@.queue =~= before.map_values(f));
        assert(before.take(i as int) =~= before);
        n
    }

    fn holders(
        &self,
        ids: &Vec<String>,
        symbol: &str,
        agent: &str,
        relation: ConflictRelation,
    ) -> (r: Vec<Blocker>)
        ensures
            r.deep_view() == self@.holders(ids.deep_view(), symbol@, agent@, relation),
    {
        let ghost all = ids.deep_view();
        let ghost ls = self@.leases;
        let mut out: Vec<Blocker> = no_rows();
        let mut k: usize = 0;
        while k < ids.len()
            invariant
                all == ids.deep_view(),
                ls == self@.leases,
                k <= ids@.len(),
                out.deep_view() == self@.holders(all.take(k as int), symbol@, agent@, relation),
            decreases ids@.len() - k,
        {
            let id = &ids[k];
            proof {
                assert(all.take(k + 1).drop_last() =~= all.take(k as int));
                assert(all.take(k + 1).last() == id@);
            }
            let rel = if same(id.as_str(), symbol) {
                ConflictRelation::Same
            } else {
                relation
            };
            let ghost o0 = out.deep_view();
            let ghost p = |l: LeaseRowV| active_lease(l, id@) && l.agent != agent@;
            let ghost g = |l: LeaseRowV| BlockerV { lease: l, relation: rel };
            let mut i: usize = 0;
            assert(ls.take(0).filter(p) =~= Seq::empty());
            assert(out.deep_view() =~= o0 + ls.take(0).filter(p).map_values(g));
            while i < self.leases.len()
                invariant
                    ls == self@.leases,
                    i <= self.leases@.len(),
                    p == (|l: LeaseRowV| active_lease(l, id@) && l.agent != agent@),
                    g == (|l: LeaseRowV| BlockerV { lease: l, relation: rel }),
                    out.deep_view() == o0 + ls.take(i as int).filter(p).map_values(g),
                decreases self.leases@.len() - i,
            {
                let l = &self.leases[i];
                let ghost kept = ls.take(i as int).filter(p);
                proof {
                    assert(ls[i as int] == l.deep_view());
                    law_filter_step(ls, p, i as int);
                }
                if same(l.symbol_id.as_str(), id.as_str()) && l.state == LeaseState::Active && !same(
                    l.agent.as_str(),
                    agent,
                ) {
                    append(&mut out, Blocker { lease: l.clone(), relation: rel });
                    assert(o0 + kept.push(ls[i as int]).map_values(g) =~= (o0 + kept.map_values(
                        g,
                    )).push(g(ls[i as int])));
                }
                i += 1;
            }
            assert(ls.take(i as int) =~= ls);
            k += 1;
        }
        assert(all.take(k as int) =~= all);
        out
    }

    /// Every lease in the way.
    pub(crate) fn blocking(&self, symbol: &str, agent: &str) -> (r: Vec<Blocker>)
        ensures
            r.deep_view() == self@.blocking(symbol@, agent@),
    {
        let around = self.chain(symbol);
        let inner = self.inside(symbol);
        let mut a = self.holders(&around, symbol, agent, ConflictRelation::Ancestor);
        let mut b = self.holders(&inner, symbol, agent, ConflictRelation::Descendant);
        let ghost av = a.deep_view();
        let ghost bv = b.deep_view();
        a.append(&mut b);
        assert(a.deep_view() =~= av + bv);
        a
    }

    fn conflict_from(&self, l: &LeaseRow, relation: ConflictRelation, now: i64) -> (r: Conflict)
        requires
            sane_time(now),
            lease_ok(l.deep_view()),
        ensures
            r.deep_view() == self@.conflict_from(l.deep_view(), relation, now),
    {
        Conflict {
            blocking_symbol: self.lease_handle(l),
            relation,
            holder: l.agent.clone(),
            task: l.task.clone(),
            priority: l.priority,
            expires_at: l.expires_at,
            seconds_until_free: clamp_wait(now, l.expires_at),
            lease_id: l.id.clone(),
        }
    }

    pub(crate) fn conflicts(&self, blocking: &Vec<Blocker>, now: i64) -> (r: Vec<Conflict>)
        requires
            sane_time(now),
            forall|i: int|
                0 <= i < blocking.deep_view().len() ==> lease_ok(
                    (#[trigger] blocking.deep_view()[i]).lease,
                ),
        ensures
            r.deep_view() == self@.conflicts(blocking.deep_view(), now),
    {
        let ghost all = blocking.deep_view();
        let ghost g = |b: BlockerV| self@.conflict_from(b.lease, b.relation, now);
        let mut out: Vec<Conflict> = no_rows();
        let mut k: usize = 0;
        while k < blocking.len()
            invariant
                sane_time(now),
                all == blocking.deep_view(),
                forall|i: int| 0 <= i < all.len() ==> lease_ok((#[trigger] all[i]).lease),
                k <= blocking@.len(),
                g == (|b: BlockerV| self@.conflict_from(b.lease, b.relation, now)),
                out.deep_view() =~= all.take(k as int).map_values(g),
            decreases blocking@.len() - k,
        {
            assert(all[k as int] == blocking@[k as int].deep_view());
            append(
                &mut out,
                self.conflict_from(&blocking[k].lease, blocking[k].relation, now),
            );
            assert(all.take(k + 1).map_values(g) =~= all.take(k as int).map_values(g).push(
                g(all[k as int]),
            ));
            k += 1;
        }
        assert(all.take(k as int) =~= all);
        out
    }

    fn preempt_each(&mut self, blocking: &Vec<Blocker>, by: &str, priority: i64, now: i64)
        requires
            sane_time(now),
            forall|i: int|
                0 <= i < blocking.deep_view().len() ==> lease_ok(
                    (#[trigger] blocking.deep_view()[i]).lease,
                ),
        ensures
            final(self)@ == old(self)@.preempt_each(blocking.deep_view(), by@, priority, now),
    {
        let ghost s0 = self@;
        let ghost all = blocking.deep_view();
        let mut i: usize = 0;
        while i < blocking.len()
            invariant
                sane_time(now),
                i <= blocking@.len(),
                all == blocking.deep_view(),
                forall|k: int| 0 <= k < all.len() ==> lease_ok((#[trigger] all[k]).lease),
                self@ == s0.preempt_each(all.take(i as int), by@, priority, now),
            decreases blocking@.len() - i,
        {
            let l = &blocking[i].lease;
            proof {
                assert(all[i as int] == blocking@[i as int].deep_view());
                assert(all.take(i + 1).drop_last() =~= all.take(i as int));
                assert(all.take(i + 1).last() == all[i as int]);
                lemma_preempt_keeps(s0, all.take(i as int), by@, priority, now);
            }
            let handle = self.lease_handle(l);
            self.finish_lease(l, LeaseState::Preempted, "preempted", now);
            let detail = Json::object().with("lease", Json::str(l.id.as_str())).with(
                "by",
                Json::str(by),
            ).with("their_priority", Json::Int(priority)).with(
                "your_priority",
                Json::Int(l.priority),
            );
            assert(detail.deep_view()->Obj_0 =~= seq![
                ("lease"@, JsonV::Str(l.id@)),
                ("by"@, JsonV::Str(by@)),
                ("their_priority"@, JsonV::Int(priority as int)),
                ("your_priority"@, JsonV::Int(l.priority as int)),
            ]);
            self.emit(
                now,
                "lease.preempted",
                Some(l.agent.clone()),
                Some(handle),
                l.task.clone(),
                detail,
            );
            i += 1;
        }
        assert(all.take(i as int) =~= all);
    }

    fn place(&self, symbol: &str, agent: &str) -> (r: Option<usize>)
        ensures
            match r {
                Some(i) => i < self.queue@.len() && self@.place(symbol@, agent@) == Some(
                    self.queue@[i as int].deep_view(),
                ),
                None => self@.place(symbol@, agent@) is None,
            },
    {
        let ghost all = self@.queue;
        let ghost p = |q: QueueRowV| waits(q, symbol@, agent@);
        let mut i: usize = 0;
        assert(all.skip(0) =~= all);
        while i < self.queue.len()
            invariant
                all == self@.queue,
                i <= self.queue@.len(),
                p == (|q: QueueRowV| waits(q, symbol@, agent@)),
                first_where(all, p) == first_where(all.skip(i as int), p),
            decreases self.queue@.len() - i,
        {
            let q = &self.queue[i];
            assert(all.skip(i as int)[0] == q.deep_view());
            assert(all.skip(i as int).drop_first() =~= all.skip(i + 1));
            if same(q.agent.as_str(), agent) && same(q.symbol_id.as_str(), symbol) && q.state
                == QueueState::Waiting {
                return Some(i);
            }
            i += 1;
        }
        None
    }

    fn queue_id_taken(&self, id: &str) -> (r: bool)
        ensures
            r == (first_where(self@.queue, |q: QueueRowV| q.id == id@) is Some),
    {
        let ghost all = self@.queue;
        let ghost p = |q: QueueRowV| q.id == id@;
        let mut i: usize = 0;
        assert(all.skip(0) =~= all);
        while i < self.queue.len()
            invariant
                all == self@.queue,
                i <= self.queue@.len(),
                p == (|q: QueueRowV| q.id == id@),
                first_where(all, p) == first_where(all.skip(i as int), p),
            decreases self.queue@.len() - i,
        {
            assert(all.skip(i as int)[0] == self.queue@[i as int].deep_view());
            assert(all.skip(i as int).drop_first() =~= all.skip(i + 1));
            if same(self.queue[i].id.as_str(), id) {
                return true;
            }
            i += 1;
        }
        false
    }

    fn rivals(&self, symbol: &str, agent: &str) -> (r: Vec<QueueRow>)
        ensures
            r.deep_view() == self@.rivals(symbol@, agent@),
    {
        let ghost all = self@.queue;
        let ghost p = |q: QueueRowV| rivals(q, symbol@, agent@);
        let mut out: Vec<QueueRow> = no_rows();
        let mut i: usize = 0;
        assert(all.take(0).filter(p) =~= Seq::empty());
        while i < self.queue.len()
            invariant
                all == self@.queue,
                i <= self.queue@.len(),
                p == (|q: QueueRowV| rivals(q, symbol@, agent@)),
                out.deep_view() == all.take(i as int).filter(p),
            decreases self.queue@.len() - i,
        {
            let q = &self.queue[i];
            proof {
                assert(all[i as int] == q.deep_view());
                law_filter_step(all, p, i as int);
            }
            if same(q.symbol_id.as_str(), symbol) && q.state == QueueState::Waiting && !same(
                q.agent.as_str(),
                agent,
            ) {
                append(&mut out, q.clone());
            }
            i += 1;
        }
        assert(all.take(i as int) =~= all);
        stable_sort(out)
    }

    fn waiter_ahead(&self, symbol: &str, agent: &str, priority: i64, now: i64) -> (r: Option<
        QueueRow,
    >)
        requires
            sane_time(now),
        ensures
            r.deep_view() == self@.waiter_ahead(symbol@, agent@, priority, now),
    {
        let line = self.rivals(symbol, agent);
        assert(line@.len() == line.deep_view().len());
        if line.len() == 0 {
            return None;
        }
        let head = &line[0];
        assert(line.deep_view()[0] == head.deep_view());
        if head.polled_at < now - QUEUE_ABANDON_MS {
            return None;
        }
        let (my_priority, my_seq): (i64, i64) = match self.place(symbol, agent) {
            Some(i) => (self.queue[i].priority, self.queue[i].seq),
            None => (priority, i64::MAX),
        };
        if head.priority > my_priority || (head.priority == my_priority && head.seq < my_seq) {
            Some(head.clone())
        } else {
            None
        }
    }

    fn top_place(&self) -> (r: i64)
        ensures
            r == top_place(self@.queue),
    {
        let ghost all = self@.queue;
        let mut top: i64 = 0;
        let mut i: usize = 0;
        while i < self.queue.len()
            invariant
                all == self@.queue,
                i <= self.queue@.len(),
                top == top_place(all.take(i as int)),
            decreases self.queue@.len() - i,
        {
            proof {
                assert(all.take(i + 1).drop_last() =~= all.take(i as int));
                assert(all.take(i + 1).last() == self.queue@[i as int].deep_view());
            }
            if self.queue[i].seq > top {
                top = self.queue[i].seq;
            }
            i += 1;
        }
        assert(all.take(i as int) =~= all);
        top
    }

    /// Puts the agent in line; false where the new place's id is taken, and then
    /// nothing has changed.
    fn enqueue(&mut self, sym: &Symbol, agent: &str, o: &AcquireOptions, t: Tick) -> (ok: bool)
        ensures
            match old(self)@.enqueue(sym.deep_view(), agent@, o.deep_view(), t) {
                Some(s) => ok && final(self)@ == s,
                None => !ok && final(self)@ == old(self)@,
            },
    {
        let ghost s0 = self@;
        if let Some(at) = self.place(sym.id.as_str(), agent) {
            let mine = self.queue[at].id.clone();
            let ghost before = self@.queue;
            let ghost f = |q: QueueRowV|
                if q.id == mine@ {
                    QueueRowV { polled_at: t.now, priority: o.priority, ..q }
                } else {
                    q
                };
            let mut i: usize = 0;
            while i < self.queue.len()
                invariant
                    i <= self.queue@.len(),
                    self@ == (StoreV { queue: self@.queue, ..s0 }),
                    self@.queue.len() == before.len(),
                    f == (|q: QueueRowV|
                        if q.id == mine@ {
                            QueueRowV { polled_at: t.now, priority: o.priority, ..q }
                        } else {
                            q
                        }),
                    forall|k: int| 0 <= k < i ==> #[trigger] self@.queue[k] == f(before[k]),
                    forall|k: int|
                        i <= k < before.len() ==> #[trigger] self@.queue[k] == before[k],
                decreases self.queue@.len() - i,
            {
                assert(self@.queue[i as int] == self.queue@[i as int].deep_view());
                if same(self.queue[i].id.as_str(), mine.as_str()) {
                    let mut r = self.queue[i].clone();
                    r.polled_at = t.now;
                    r.priority = o.priority;
                    put(&mut self.queue, i, r);
                }
                i += 1;
            }
            assert(self@.queue =~= before.map_values(f));
            return true;
        }
        let id = crate::ids::unique_id("q", t.nanos, self.counter, t.pid);
        if self.queue_id_taken(id.as_str()) {
            return false;
        }
        let seq = next(self.top_place());
        let id = self.make_id("q", t);
        let opts = o.clone();
        let row = QueueRow {
            id,
            seq,
            symbol_id: sym.id.clone(),
            agent: agent.to_owned(),
            task: opts.task,
            priority: o.priority,
            ttl_secs: o.ttl_secs,
            requested_at: t.now,
            polled_at: t.now,
            state: QueueState::Waiting,
            note: opts.note,
        };
        append(&mut self.queue, row);
        let detail = Json::object().with("symbol_id", Json::str(sym.id.as_str())).with(
            "priority",
            Json::Int(o.priority),
        );
        assert(detail.deep_view()->Obj_0 =~= seq![
            ("symbol_id"@, JsonV::Str(sym.id@)),
            ("priority"@, JsonV::Int(o.priority as int)),
        ]);
        self.emit(
            t.now,
            "lease.queued",
            Some(agent.to_owned()),
            Some(sym.handle()),
            o.task.clone(),
            detail,
        );
        true
    }

    /// Denies; nothing where the id of a new place in line is taken.
    fn deny(
        &mut self,
        sym: &Symbol,
        agent: &str,
        o: &AcquireOptions,
        t: Tick,
        conflicts: Vec<Conflict>,
    ) -> (r: Option<AcquireOutcome>)
        ensures
            match old(self)@.deny(sym.deep_view(), agent@, o.deep_view(), t, conflicts.deep_view()) {
                Some((s, out)) => final(self)@ == s && r.deep_view() == Some(out),
                None => r is None,
            },
    {
        if o.queue {
            if !self.enqueue(sym, agent, o, t) {
                return None;
            }
        }
        let detail = conflicts_value(&conflicts);
        self.emit(
            t.now,
            "lease.denied",
            Some(agent.to_owned()),
            Some(sym.handle()),
            o.task.clone(),
            detail,
        );
        Some(AcquireOutcome::Denied { conflicts })
    }

    /// Grants; nothing where the lease's id is taken.
    fn grant(&mut self, sym: &Symbol, agent: &str, o: &AcquireOptions, t: Tick) -> (r: Option<
        AcquireOutcome,
    >)
        requires
            t.ok(),
            sane_ttl(o.ttl_secs),
        ensures
            match old(self)@.grant(sym.deep_view(), agent@, o.deep_view(), t) {
                Some((s, out)) => final(self)@ == s && r.deep_view() == Some(out),
                None => r is None,
            },
    {
        let ghost s0 = self@;
        let id = crate::ids::unique_id("lease", t.nanos, self.counter, t.pid);
        if self.lease_at(id.as_str()).is_some() {
            return None;
        }
        let id = self.make_id("lease", t);
        let opts = o.clone();
        let row = LeaseRow {
            id,
            symbol_id: sym.id.clone(),
            agent: agent.to_owned(),
            task: opts.task,
            priority: o.priority,
            ttl_secs: o.ttl_secs,
            acquired_at: t.now,
            heartbeat_at: t.now,
            expires_at: t.now + o.ttl_secs * 1000,
            state: LeaseState::Active,
            note: opts.note,
            released_at: None,
        };
        assert(row.deep_view() == s0.new_lease_row(sym.id@, agent@, o.deep_view(), t));
        let lease = self.lease_of(&row);
        let detail = Json::object().with("lease", Json::str(row.id.as_str())).with(
            "kind",
            Json::str(sym.kind.as_str()),
        ).with("ttl_secs", Json::Int(row.ttl_secs)).with(
            "expires_at",
            Json::Int(row.expires_at),
        ).with("priority", Json::Int(row.priority));
        assert(detail.deep_view()->Obj_0 =~= seq![
            ("lease"@, JsonV::Str(row.id@)),
            ("kind"@, JsonV::Str(sym.kind.word())),
            ("ttl_secs"@, JsonV::Int(row.ttl_secs as int)),
            ("expires_at"@, JsonV::Int(row.expires_at as int)),
            ("priority"@, JsonV::Int(row.priority as int)),
        ]);
        append(&mut self.leases, row);
        self.leave_queue(sym.id.as_str(), agent, QueueState::Granted);
        self.emit(
            t.now,
            "lease.acquired",
            Some(agent.to_owned()),
            Some(sym.handle()),
            o.task.clone(),
            detail,
        );
        Some(AcquireOutcome::Granted { lease })
    }

    /// Extends a lease that its holder asks for again.
    fn extend(&mut self, mine: &LeaseRow, sym: &Symbol, agent: &str, o: &AcquireOptions, now: i64) -> (r:
        AcquireOutcome)
        requires
            sane_time(now),
            sane_ttl(o.ttl_secs),
            old(self)@.lease_row(mine.id@) is Some,
        ensures
            (final(self)@, r.deep_view()) == old(self)@.extend(
                mine.deep_view(),
                sym.deep_view(),
                agent@,
                o.deep_view(),
                now,
            ),
    {
        let ghost s0 = self@;
        let ghost before = self@.leases;
        let ghost ov = o.deep_view();
        let ghost h = |x: LeaseRowV| extended(x, ov, now);
        let ghost f = |x: LeaseRowV|
            if x.id == mine.id@ {
                h(x)
            } else {
                x
            };
        let expires = now + o.ttl_secs * 1000;
        let mut i: usize = 0;
        while i < self.leases.len()
            invariant
                i <= self.leases@.len(),
                expires == now + o.ttl_secs * 1000,
                ov == o.deep_view(),
                self@ == (StoreV { leases: self@.leases, ..s0 }),
                self@.leases.len() == before.len(),
                h == (|x: LeaseRowV| extended(x, ov, now)),
                f == (|x: LeaseRowV|
                    if x.id == mine.id@ {
                        h(x)
                    } else {
                        x
                    }),
                forall|k: int| 0 <= k < i ==> #[trigger] self@.leases[k] == f(before[k]),
                forall|k: int| i <= k < before.len() ==> #[trigger] self@.leases[k] == before[k],
            decreases self.leases@.len() - i,
        {
            assert(self@.leases[i as int] == self.leases@[i as int].deep_view());
            if same(self.leases[i].id.as_str(), mine.id.as_str()) {
                let mut r = self.leases[i].clone();
                r.heartbeat_at = now;
                r.expires_at = expires;
                r.ttl_secs = o.ttl_secs;
                r.priority = o.priority;
                if let Some(x) = &o.task {
                    r.task = Some(x.clone());
                }
                put(&mut self.leases, i, r);
            }
            i += 1;
        }
        assert(self@.leases =~= before.map_values(f));
        assert(self@ == s0.with_lease(mine.id@, h));
        proof {
            lemma_first_changed(before, mine.id@, h);
        }
        let at = self.lease_at(mine.id.as_str());
        let k = match at {
            Some(k) => k,
            None => {
                assert(false);
                0
            },
        };
        let row = self.leases[k].clone();
        let lease = self.lease_of(&row);
        let detail = Json::object().with("lease", Json::str(row.id.as_str())).with(
            "expires_at",
            Json::Int(row.expires_at),
        );
        assert(detail.deep_view()->Obj_0 =~= seq![
            ("lease"@, JsonV::Str(row.id@)),
            ("expires_at"@, JsonV::Int(row.expires_at as int)),
        ]);
        self.emit(
            now,
            "lease.extended",
            Some(agent.to_owned()),
            Some(sym.handle()),
            row.task.clone(),
            detail,
        );
        AcquireOutcome::Extended { lease }
    }

    /// Asks for a symbol that exists, in a state that was swept.
    fn acquire_swept(&mut self, sym: &Symbol, agent: &str, o: &AcquireOptions, t: Tick) -> (r: Option<
        AcquireOutcome,
    >)
        requires
            old(self)@.wf(),
            t.ok(),
            sane_ttl(o.ttl_secs),
        ensures
            match old(self)@.acquire_swept(sym.deep_view(), agent@, o.deep_view(), t) {
                Some((s, out)) => final(self)@ == s && r.deep_view() == Some(out),
                None => r is None,
            },
    {
        let ghost s0 = self@;
        let here = self.active_on(sym.id.as_str());
        assert(here@.len() == here.deep_view().len());
        if here.len() > 0 {
            assert(here.deep_view()[0] == here@[0].deep_view());
            if same(here[0].agent.as_str(), agent) {
                proof {
                    let p = |l: LeaseRowV| active_lease(l, sym.id@);
                    let x = here.deep_view()[0];
                    s0.leases.lemma_filter_contains_rev(p, x);
                    law_first_where(s0.leases, |l: LeaseRowV| l.id == x.id);
                    let k = choose|k: int| 0 <= k < s0.leases.len() && s0.leases[k] == x;
                    assert(s0.leases[k].id == x.id);
                }
                return Some(self.extend(&here[0], sym, agent, o, t.now));
            }
        }
        let blocking = self.blocking(sym.id.as_str(), agent);
        let ghost bv = blocking.deep_view();
        proof {
            lemma_blocking_ok(s0, sym.id@, agent@);
            assert(blocking@.len() == bv.len());
        }
        if blocking.len() > 0 && !may_override(&blocking, o) {
            let conflicts = self.conflicts(&blocking, t.now);
            return self.deny(sym, agent, o, t, conflicts);
        }
        self.preempt_each(&blocking, agent, o.priority, t.now);
        match self.waiter_ahead(sym.id.as_str(), agent, o.priority, t.now) {
            Some(q) => {
                let c = Conflict {
                    blocking_symbol: sym.handle(),
                    relation: ConflictRelation::Queued,
                    holder: q.agent.clone(),
                    task: q.task.clone(),
                    priority: q.priority,
                    expires_at: t.now,
                    seconds_until_free: 0,
                    lease_id: q.id.clone(),
                };
                let mut cs: Vec<Conflict> = no_rows();
                append(&mut cs, c);
                assert(cs.deep_view() =~= seq![
                    self@.queue_conflict(sym.deep_view(), q.deep_view(), t.now),
                ]);
                self.deny(sym, agent, o, t, cs)
            },
            None => self.grant(sym, agent, o, t),
        }
    }

    /// Try to take a lease on a symbol.
    pub fn acquire(&mut self, symbol_id: &str, agent: &str, opts: &AcquireOptions, t: Tick) -> (r:
        Result<AcquireOutcome, StoreError>)
        requires
            old(self)@.wf(),
            t.ok(),
            sane_ttl(opts.ttl_secs),
        ensures
            (final(self)@, seen(r)) == old(self)@.acquire(symbol_id@, agent@, opts.deep_view(), t),
            final(self)@.wf(),
    {
        let ghost s0 = self@;
        proof {
            lemma_acquire_wf(s0, symbol_id@, agent@, opts.deep_view(), t);
            lemma_expire_keeps(s0, t.now);
        }
        let sym = match self.symbol(symbol_id) {
            Some(s) => s,
            None => {
                return Err(fail_about(ErrorKind::UnknownSymbol, "unknown symbol id: ", symbol_id));
            },
        };
        let before = self.clone();
        self.expire_due(t.now);
        self.abandon_stale(t.now);
        match self.acquire_swept(&sym, agent, opts, t) {
            Some(out) => Ok(out),
            None => {
                *self = before;
                Err(fail(ErrorKind::Duplicate, "id is taken".to_owned()))
            },
        }
    }

    /// Release one lease. Only its owner may release it.
    pub fn release(&mut self, lease_id: &str, agent: &str, now: i64) -> (r: Result<
        Lease,
        StoreError,
    >)
        requires
            old(self)@.wf(),
            sane_time(now),
        ensures
            (final(self)@, seen(r)) == old(self)@.release(lease_id@, agent@, now),
            final(self)@.wf(),
    {
        let i = match self.lease_at(lease_id) {
            Some(i) => i,
            None => {
                return Err(fail_about(ErrorKind::NoSuchLease, "no such lease: ", lease_id));
            },
        };
        let row = self.leases[i].clone();
        assert(lease_ok(self@.leases[i as int]));
        if !same(row.agent.as_str(), agent) {
            let head = cat3("lease ", lease_id, " belongs to ");
            let mid = cat3(head.as_str(), row.agent.as_str(), ", not ");
            return Err(fail(ErrorKind::WrongOwner, cat(mid.as_str(), agent)));
        }
        if row.state != LeaseState::Active {
            let head = cat3("lease ", lease_id, " is already ");
            return Err(fail(ErrorKind::LeaseOver, cat(head.as_str(), row.state.as_str())));
        }
        proof {
            lemma_finish_keeps(
                self@,
                row.deep_view(),
                LeaseState::Released,
                "released"@,
                now,
            );
        }
        let mut over = row.clone();
        over.state = LeaseState::Released;
        over.released_at = Some(now);
        let lease = self.lease_of(&over);
        self.finish_lease(&row, LeaseState::Released, "released", now);
        Ok(lease)
    }

    /// Moves an active lease between agents.
    pub fn transfer_lease(&mut self, lease_id: &str, from: &str, to: &str, now: i64) -> (r: Result<
        Lease,
        StoreError,
    >)
        requires
            old(self)@.wf(),
            sane_time(now),
        ensures
            (final(self)@, seen(r)) == old(self)@.transfer_lease(lease_id@, from@, to@, now),
            final(self)@.wf(),
    {
        if same(from, to) {
            return Err(fail(ErrorKind::AlreadyHolds, cat(from, " already holds that lease")));
        }
        let i = match self.lease_at(lease_id) {
            Some(i) => i,
            None => {
                return Err(fail_about(ErrorKind::NoSuchLease, "no such lease: ", lease_id));
            },
        };
        let row = self.leases[i].clone();
        assert(lease_ok(self@.leases[i as int]));
        if !same(row.agent.as_str(), from) {
            let head = cat3("lease ", lease_id, " belongs to ");
            let mid = cat3(head.as_str(), row.agent.as_str(), ", not ");
            return Err(fail(ErrorKind::WrongOwner, cat(mid.as_str(), from)));
        }
        if row.state != LeaseState::Active {
            let head = cat3("lease ", lease_id, " is ");
            return Err(fail(ErrorKind::LeaseOver, cat(head.as_str(), row.state.as_str())));
        }
        let mut moved = row.clone();
        moved.agent = to.to_owned();
        moved.heartbeat_at = now;
        moved.acquired_at = now;
        moved.expires_at = now + row.ttl_secs * 1000;
        let lease = self.lease_of(&moved);
        self.hand_over(&row, from, to, now);
        Ok(lease)
    }

    fn hand_over(&mut self, row: &LeaseRow, from: &str, to: &str, now: i64)
        requires
            old(self)@.wf(),
            sane_time(now),
            lease_ok(row.deep_view()),
        ensures
            final(self)@ == old(self)@.hand_over(row.deep_view(), from@, to@, now),
            final(self)@.wf(),
    {
        let ghost s0 = self@;
        let handle = self.lease_handle(row);
        let ghost before = self@.leases;
        let ghost h = |x: LeaseRowV| handed(x, to@, now);
        let ghost f = |x: LeaseRowV|
            if x.id == row.id@ {
                h(x)
            } else {
                x
            };
        let mut i: usize = 0;
        while i < self.leases.len()
            invariant
                i <= self.leases@.len(),
                sane_time(now),
                forall|k: int| 0 <= k < before.len() ==> lease_ok(#[trigger] before[k]),
                self@ == (StoreV { leases: self@.leases, ..s0 }),
                self@.leases.len() == before.len(),
                h == (|x: LeaseRowV| handed(x, to@, now)),
                f == (|x: LeaseRowV|
                    if x.id == row.id@ {
                        h(x)
                    } else {
                        x
                    }),
                forall|k: int| 0 <= k < i ==> #[trigger] self@.leases[k] == f(before[k]),
                forall|k: int| i <= k < before.len() ==> #[trigger] self@.leases[k] == before[k],
            decreases self.leases@.len() - i,
        {
            assert(self@.leases[i as int] == self.leases@[i as int].deep_view());
            assert(lease_ok(before[i as int]));
            if same(self.leases[i].id.as_str(), row.id.as_str()) {
                let mut r = self.leases[i].clone();
                r.agent = to.to_owned();
                r.heartbeat_at = now;
                r.acquired_at = now;
                r.expires_at = now + r.ttl_secs * 1000;
                put(&mut self.leases, i, r);
            }
            i += 1;
        }
        assert(self@.leases =~= before.map_values(f));
        assert(self@ == s0.with_lease(row.id@, h));
        assert forall|k: int| 0 <= k < self@.leases.len() implies lease_ok(
            #[trigger] self@.leases[k],
        ) by {
            assert(lease_ok(before[k]));
        }
        self.leave_queue(row.symbol_id.as_str(), to, QueueState::Granted);
        let detail = Json::object().with("lease", Json::str(row.id.as_str())).with(
            "from",
            Json::str(from),
        ).with("to", Json::str(to));
        assert(detail.deep_view()->Obj_0 =~= seq![
            ("lease"@, JsonV::Str(row.id@)),
            ("from"@, JsonV::Str(from@)),
            ("to"@, JsonV::Str(to@)),
        ]);
        self.emit(
            now,
            "lease.transferred",
            Some(to.to_owned()),
            Some(handle),
            row.task.clone(),
            detail,
        );
    }

    /// Release every active lease held by `agent`; gives them as they were held.
    pub fn release_all(&mut self, agent: &str, now: i64) -> (r: Vec<Lease>)
        requires
            old(self)@.wf(),
            sane_time(now),
        ensures
            final(self)@ == old(self)@.finish_each(
                old(self)@.held_by(agent@),
                LeaseState::Released,
                "released"@,
                now,
            ),
            final(self)@.wf(),
            r.deep_view() == old(self)@.held_by(agent@).map_values(
                |l: LeaseRowV| old(self)@.lease_of(l),
            ),
    {
        let ghost s0 = self@;
        let rows = self.held_by(agent);
        proof {
            lemma_filter_ok(s0, |l: LeaseRowV| held(l, agent@));
            lemma_finish_each_keeps(
                s0,
                s0.held_by(agent@),
                LeaseState::Released,
                "released"@,
                now,
            );
        }
        let shown = self.show_leases(&rows);
        self.finish_each(&rows, LeaseState::Released, "released", now);
        shown
    }

    /// Release every active lease taken for a task, whoever holds it; tells how
    /// many.
    pub(crate) fn release_task_leases(&mut self, task: &str, now: i64) -> (n: usize)
        requires
            old(self)@.wf(),
            sane_time(now),
        ensures
            final(self)@ == old(self)@.release_task_leases(task@, now),
            final(self)@.wf(),
            n == old(self)@.leases.filter(
                |l: LeaseRowV| l.task == Some(task@) && l.state is Active,
            ).len(),
    {
        let ghost all = self@.leases;
        let ghost p = |l: LeaseRowV| l.task == Some(task@) && l.state is Active;
        let mut out: Vec<LeaseRow> = no_rows();
        let mut i: usize = 0;
        assert(all.take(0).filter(p) =~= Seq::empty());
        while i < self.leases.len()
            invariant
                all == self@.leases,
                *self == *old(self),
                i <= self.leases@.len(),
                p == (|l: LeaseRowV| l.task == Some(task@) && l.state is Active),
                out.deep_view() == all.take(i as int).filter(p),
            decreases self.leases@.len() - i,
        {
            let l = &self.leases[i];
            proof {
                assert(all[i as int] == l.deep_view());
                law_filter_step(all, p, i as int);
            }
            let mine = match &l.task {
                Some(x) => same(x.as_str(), task),
                None => false,
            };
            if mine && l.state == LeaseState::Active {
                append(&mut out, l.clone());
            }
            i += 1;
        }
        assert(all.take(i as int) =~= all);
        proof {
            lemma_filter_ok(self@, p);
            lemma_finish_each_keeps(
                self@,
                all.filter(p),
                LeaseState::Released,
                "task finished"@,
                now,
            );
        }
        self.finish_each(&out, LeaseState::Released, "task finished", now);
        out.len()
    }

    fn renew(&mut self, ids: &Vec<String>, agent: &str, now: i64)
        requires
            old(self)@.wf(),
            sane_time(now),
        ensures
            final(self)@ == old(self)@.renew(ids.deep_view(), agent@, now),
            final(self)@.wf(),
    {
        let ghost s0 = self@;
        let ghost before = self@.leases;
        let ghost iv = ids.deep_view();
        let ghost f = |l: LeaseRowV|
            if iv.contains(l.id) {
                renewed(l, now)
            } else {
                l
            };
        let mut i: usize = 0;
        while i < self.leases.len()
            invariant
                i <= self.leases@.len(),
                sane_time(now),
                iv == ids.deep_view(),
                forall|k: int| 0 <= k < before.len() ==> lease_ok(#[trigger] before[k]),
                self@ == (StoreV { leases: self@.leases, ..s0 }),
                self@.leases.len() == before.len(),
                f == (|l: LeaseRowV|
                    if iv.contains(l.id) {
                        renewed(l, now)
                    } else {
                        l
                    }),
                forall|k: int| 0 <= k < i ==> #[trigger] self@.leases[k] == f(before[k]),
                forall|k: int| i <= k < before.len() ==> #[trigger] self@.leases[k] == before[k],
            decreases self.leases@.len() - i,
        {
            assert(self@.leases[i as int] == self.leases@[i as int].deep_view());
            assert(lease_ok(before[i as int]));
            if crate::sql::holds_text(ids, self.leases[i].id.as_str()) {
                let mut r = self.leases[i].clone();
                r.heartbeat_at = now;
                r.expires_at = now + r.ttl_secs * 1000;
                put(&mut self.leases, i, r);
            }
            i += 1;
        }
        assert(self@.leases =~= before.map_values(f));
        assert forall|k: int| 0 <= k < self@.leases.len() implies lease_ok(
            #[trigger] self@.leases[k],
        ) by {
            assert(lease_ok(before[k]));
        }
        self.touch_agent(agent, now);
    }

    /// Notes that an agent was seen.
    pub(crate) fn touch_agent(&mut self, agent: &str, now: i64)
        ensures
            final(self)@ == (StoreV {
                agents: old(self)@.agents.map_values(
                    |a: AgentV|
                        if a.name == agent@ {
                            AgentV { heartbeat_at: now, ..a }
                        } else {
                            a
                        },
                ),
                ..old(self)@
            }),
    {
        let ghost s0 = self@;
        let ghost before = self@.agents;
        let ghost f = |a: AgentV|
            if a.name == agent@ {
                AgentV { heartbeat_at: now, ..a }
            } else {
                a
            };
        let mut i: usize = 0;
        while i < self.agents.len()
            invariant
                i <= self.agents@.len(),
                self@ == (StoreV { agents: self@.agents, ..s0 }),
                self@.agents.len() == before.len(),
                f == (|a: AgentV|
                    if a.name == agent@ {
                        AgentV { heartbeat_at: now, ..a }
                    } else {
                        a
                    }),
                forall|k: int| 0 <= k < i ==> #[trigger] self@.agents[k] == f(before[k]),
                forall|k: int| i <= k < before.len() ==> #[trigger] self@.agents[k] == before[k],
            decreases self.agents@.len() - i,
        {
            assert(self@.agents[i as int] == self.agents@[i as int].deep_view());
            if same(self.agents[i].name.as_str(), agent) {
                let mut r = self.agents[i].clone();
                r.heartbeat_at = now;
                put(&mut self.agents, i, r);
            }
            i += 1;
        }
        assert(self@.agents =~= before.map_values(f));
    }

    /// Refresh TTLs: one lease, or every lease the agent holds. Gives the leases
    /// as they stand now.
    pub fn heartbeat(&mut self, agent: &str, lease_id: &Option<String>, now: i64) -> (r: Vec<Lease>)
        requires
            old(self)@.wf(),
            sane_time(now),
        ensures
            final(self)@ == old(self)@.heartbeat(agent@, lease_id.deep_view(), now),
            final(self)@.wf(),
            r.deep_view() == old(self)@.expire_due(now).beating(
                agent@,
                lease_id.deep_view(),
            ).map_values(|l: LeaseRowV| old(self)@.lease_of(renewed(l, now))),
    {
        let ghost s00 = self@;
        proof {
            lemma_expire_keeps(s00, now);
        }
        self.expire_due(now);
        let ghost s0 = self@;
        let mut rows: Vec<LeaseRow> = no_rows();
        match lease_id {
            Some(id) => {
                if let Some(i) = self.lease_at(id.as_str()) {
                    let l = &self.leases[i];
                    if same(l.agent.as_str(), agent) && l.state == LeaseState::Active {
                        append(&mut rows, l.clone());
                        assert(rows.deep_view() =~= seq![l.deep_view()]);
                    }
                }
            },
            None => {
                rows = self.held_by(agent);
            },
        }
        let ghost rv = rows.deep_view();
        assert(rv == s0.beating(agent@, lease_id.deep_view()));
        assert forall|k: int| 0 <= k < rv.len() implies lease_ok(#[trigger] rv[k]) by {
            match lease_id {
                Some(id) => {
                    law_first_where(s0.leases, |l: LeaseRowV| l.id == id@);
                    let j = choose|j: int| 0 <= j < s0.leases.len() && s0.leases[j] == rv[k];
                    assert(lease_ok(s0.leases[j]));
                },
                None => {
                    lemma_filter_ok(s0, |l: LeaseRowV| held(l, agent@));
                },
            }
        }
        let ghost fid = |l: LeaseRowV| l.id;
        let ghost g = |l: LeaseRowV| s00.lease_of(renewed(l, now));
        let mut ids: Vec<String> = no_rows();
        let mut out: Vec<Lease> = no_rows();
        let mut k: usize = 0;
        while k < rows.len()
            invariant
                sane_time(now),
                k <= rows@.len(),
                rv == rows.deep_view(),
                self@ == s0,
                s0.symbols == s00.symbols,
                fid == (|l: LeaseRowV| l.id),
                g == (|l: LeaseRowV| s00.lease_of(renewed(l, now))),
                forall|k: int| 0 <= k < rv.len() ==> lease_ok(#[trigger] rv[k]),
                ids.deep_view() =~= rv.take(k as int).map_values(fid),
                out.deep_view() =~= rv.take(k as int).map_values(g),
            decreases rows@.len() - k,
        {
            let l = &rows[k];
            assert(rv[k as int] == l.deep_view());
            append(&mut ids, l.id.clone());
            let mut fresh = l.clone();
            fresh.heartbeat_at = now;
            fresh.expires_at = now + fresh.ttl_secs * 1000;
            append(&mut out, self.lease_of(&fresh));
            assert(rv.take(k + 1).map_values(fid) =~= rv.take(k as int).map_values(fid).push(
                fid(rv[k as int]),
            ));
            assert(rv.take(k + 1).map_values(g) =~= rv.take(k as int).map_values(g).push(
                g(rv[k as int]),
            ));
            k += 1;
        }
        assert(rv.take(k as int) =~= rv);
        self.renew(&ids, agent, now);
        out
    }

    /// Currently held leases, oldest first, of one agent or of all.
    pub fn active_leases(&self, agent: &Option<String>) -> (r: Vec<Lease>)
        ensures
            r.deep_view() == sorted(
                self@.leases.filter(
                    |l: LeaseRowV|
                        l.state is Active && (agent.deep_view() matches Some(a) ==> l.agent == a),
                ),
                rank::<LeaseRow>(),
            ).map_values(|l: LeaseRowV| self@.lease_of(l)),
    {
        let ghost all = self@.leases;
        let ghost p = |l: LeaseRowV|
            l.state is Active && (agent.deep_view() matches Some(a) ==> l.agent == a);
        let mut out: Vec<LeaseRow> = no_rows();
        let mut i: usize = 0;
        assert(all.take(0).filter(p) =~= Seq::empty());
        while i < self.leases.len()
            invariant
                all == self@.leases,
                i <= self.leases@.len(),
                p == (|l: LeaseRowV|
                    l.state is Active && (agent.deep_view() matches Some(a) ==> l.agent == a)),
                out.deep_view() == all.take(i as int).filter(p),
            decreases self.leases@.len() - i,
        {
            let l = &self.leases[i];
            proof {
                assert(all[i as int] == l.deep_view());
                law_filter_step(all, p, i as int);
            }
            let whose = match agent {
                Some(a) => same(l.agent.as_str(), a.as_str()),
                None => true,
            };
            if l.state == LeaseState::Active && whose {
                append(&mut out, l.clone());
            }
            i += 1;
        }
        assert(all.take(i as int) =~= all);
        self.show_leases(&stable_sort(out))
    }

    /// Agents waiting on a symbol, best claim first.
    pub fn queue_for(&self, symbol_id: &str) -> (r: Vec<QueueEntry>)
        ensures
            r.deep_view() == self@.queue_for(symbol_id@),
    {
        let ghost all = self@.queue;
        let ghost p = in_line(symbol_id@);
        let mut rows: Vec<QueueRow> = no_rows();
        let mut i: usize = 0;
        assert(all.take(0).filter(p) =~= Seq::empty());
        while i < self.queue.len()
            invariant
                all == self@.queue,
                i <= self.queue@.len(),
                p == in_line(symbol_id@),
                rows.deep_view() == all.take(i as int).filter(p),
            decreases self.queue@.len() - i,
        {
            let q = &self.queue[i];
            proof {
                assert(all[i as int] == q.deep_view());
                law_filter_step(all, p, i as int);
            }
            if same(q.symbol_id.as_str(), symbol_id) && q.state == QueueState::Waiting {
                append(&mut rows, q.clone());
            }
            i += 1;
        }
        assert(all.take(i as int) =~= all);
        let rows = stable_sort(rows);
        let ghost rv = rows.deep_view();
        let ghost g = |q: QueueRowV| entry_of(q);
        let mut out: Vec<QueueEntry> = no_rows();
        let mut k: usize = 0;
        while k < rows.len()
            invariant
                rv == rows.deep_view(),
                k <= rows@.len(),
                g == (|q: QueueRowV| entry_of(q)),
                out.deep_view() =~= rv.take(k as int).map_values(g),
            decreases rows@.len() - k,
        {
            append(&mut out, entry(&rows[k]));
            assert(rv.take(k + 1).map_values(g) =~= rv.take(k as int).map_values(g).push(
                g(rv[k as int]),
            ));
            k += 1;
        }
        assert(rv.take(k as int) =~= rv);
        out
    }

    /// How many agents wait, over all symbols.
    pub fn waiting_count(&self) -> (n: usize)
        ensures
            n == self@.queue.filter(|q: QueueRowV| q.state is Waiting).len(),
    {
        let ghost all = self@.queue;
        let ghost p = |q: QueueRowV| q.state is Waiting;
        let mut n: usize = 0;
        let mut i: usize = 0;
        assert(all.take(0).filter(p) =~= Seq::empty());
        while i < self.queue.len()
            invariant
                all == self@.queue,
                i <= self.queue@.len(),
                n <= i,
                p == (|q: QueueRowV| q.state is Waiting),
                n == all.take(i as int).filter(p).len(),
            decreases self.queue@.len() - i,
        {
            proof {
                assert(all[i as int] == self.queue@[i as int].deep_view());
                law_filter_step(all, p, i as int);
            }
            if self.queue[i].state == QueueState::Waiting {
                n += 1;
            }
            i += 1;
        }
        assert(all.take(i as int) =~= all);
        n
    }

    /// Give up a place in line; tells how many were given up.
    pub fn dequeue(&mut self, agent: &str, symbol_id: &str) -> (n: usize)
        ensures
            final(self)@ == old(self)@.leave_queue(symbol_id@, agent@, QueueState::Cancelled),
            n == old(self)@.queue.filter(|q: QueueRowV| waits(q, symbol_id@, agent@)).len(),
    {
        self.leave_queue(symbol_id, agent, QueueState::Cancelled)
    }

    fn relation_of(&self, target: &str, other: &str) -> (r: ConflictRelation)
        ensures
            r == self@.relation_of(target@, other@),
    {
        if same(target, other) {
            ConflictRelation::Same
        } else if self.covers(other, target) {
            ConflictRelation::Ancestor
        } else {
            ConflictRelation::Descendant
        }
    }

    /// Who would block `agent` from taking the symbol right now. Read-only:
    /// agents can plan around contention without creating any state.
    pub fn conflicts_for(&self, symbol_id: &str, agent: &str, now: i64) -> (r: Vec<Conflict>)
        requires
            self@.wf(),
            sane_time(now),
        ensures
            r.deep_view() == self@.conflicts_for(symbol_id@, agent@, now),
    {
        let mut ids: Vec<String> = no_rows();
        append(&mut ids, symbol_id.to_owned());
        let mut around = self.chain(symbol_id);
        let mut inner = self.inside(symbol_id);
        let ghost av = around.deep_view();
        let ghost bv = inner.deep_view();
        ids.append(&mut around);
        ids.append(&mut inner);
        assert(ids.deep_view() =~= seq![symbol_id@] + av + bv);
        let ids = dedup_texts(&sort_texts(ids));
        let ghost all = ids.deep_view();
        let ghost ls = self@.leases;
        let mut out: Vec<Conflict> = no_rows();
        let mut k: usize = 0;
        while k < ids.len()
            invariant
                self@.wf(),
                sane_time(now),
                all == ids.deep_view(),
                ls == self@.leases,
                k <= ids@.len(),
                out.deep_view() == self@.live_conflicts(
                    all.take(k as int),
                    symbol_id@,
                    agent@,
                    now,
                ),
            decreases ids@.len() - k,
        {
            let id = &ids[k];
            proof {
                assert(all.take(k + 1).drop_last() =~= all.take(k as int));
                assert(all.take(k + 1).last() == id@);
            }
            let rel = self.relation_of(symbol_id, id.as_str());
            let ghost o0 = out.deep_view();
            let ghost p = |l: LeaseRowV|
                active_lease(l, id@) && l.agent != agent@ && l.expires_at > now;
            let ghost g = |l: LeaseRowV|
                self@.conflict_from(l, self@.relation_of(symbol_id@, id@), now);
            let mut i: usize = 0;
            assert(ls.take(0).filter(p) =~= Seq::empty());
            assert(out.deep_view() =~= o0 + ls.take(0).filter(p).map_values(g));
            while i < self.leases.len()
                invariant
                    self@.wf(),
                    sane_time(now),
                    ls == self@.leases,
                    i <= self.leases@.len(),
                    rel == self@.relation_of(symbol_id@, id@),
                    p == (|l: LeaseRowV|
                        active_lease(l, id@) && l.agent != agent@ && l.expires_at > now),
                    g == (|l: LeaseRowV|
                        self@.conflict_from(l, self@.relation_of(symbol_id@, id@), now)),
                    out.deep_view() == o0 + ls.take(i as int).filter(p).map_values(g),
                decreases self.leases@.len() - i,
            {
                let l = &self.leases[i];
                let ghost kept = ls.take(i as int).filter(p);
                proof {
                    assert(ls[i as int] == l.deep_view());
                    assert(lease_ok(self@.leases[i as int]));
                    law_filter_step(ls, p, i as int);
                }
                if same(l.symbol_id.as_str(), id.as_str()) && l.state == LeaseState::Active && !same(
                    l.agent.as_str(),
                    agent,
                ) && l.expires_at > now {
                    append(&mut out, self.conflict_from(l, rel, now));
                    assert(o0 + kept.push(ls[i as int]).map_values(g) =~= (o0 + kept.map_values(
                        g,
                    )).push(g(ls[i as int])));
                }
                i += 1;
            }
            assert(ls.take(i as int) =~= ls);
            k += 1;
        }
        assert(all.take(k as int) =~= all);
        out
    }

    /// Every lease there ever was, the latest first, at most `limit` of them.
    pub fn lease_history(&self, limit: usize) -> (r: Vec<Lease>)
        ensures
            r.deep_view() == latest(self@.leases, limit as int).map_values(
                |l: LeaseRowV| self@.lease_of(l),
            ),
    {
        let rows = stable_sort(reversed_keys(&self.leases));
        let mut out: Vec<LeaseRow> = no_rows();
        let ghost all = rows.deep_view();
        let n = if rows.len() < limit {
            rows.len()
        } else {
            limit
        };
        let mut i: usize = 0;
        while i < n
            invariant
                n <= rows@.len(),
                i <= n,
                all == rows.deep_view(),
                out.deep_view() == all.take(i as int).map_values(|k: LatestFirstV| k.row),
            decreases n - i,
        {
            append(&mut out, rows[i].row.clone());
            i += 1;
        }
        self.show_leases(&out)
    }

    /// The conflicts on a whole scope that preemption would not clear.
    fn scope_conflicts(&self, scope: &Vec<String>, agent: &str, o: &AcquireOptions, now: i64) -> (r:
        Vec<Conflict>)
        requires
            self@.wf(),
            sane_time(now),
        ensures
            r.deep_view() == self@.scope_conflicts(scope.deep_view(), agent@, o.deep_view(), now),
    {
        let ghost all = scope.deep_view();
        let mut out: Vec<Conflict> = no_rows();
        let mut i: usize = 0;
        while i < scope.len()
            invariant
                self@.wf(),
                sane_time(now),
                all == scope.deep_view(),
                i <= scope@.len(),
                out.deep_view() == self@.scope_conflicts(
                    all.take(i as int),
                    agent@,
                    o.deep_view(),
                    now,
                ),
            decreases scope@.len() - i,
        {
            proof {
                assert(all.take(i + 1).drop_last() =~= all.take(i as int));
                assert(all.take(i + 1).last() == scope@[i as int]@);
                lemma_blocking_ok(self@, scope@[i as int]@, agent@);
            }
            let blocking = self.blocking(scope[i].as_str(), agent);
            assert(blocking@.len() == blocking.deep_view().len());
            if blocking.len() > 0 && !may_override(&blocking, o) {
                let mut cs = self.conflicts(&blocking, now);
                let ghost ov = out.deep_view();
                let ghost cv = cs.deep_view();
                out.append(&mut cs);
                assert(out.deep_view() =~= ov + cv);
            }
            i += 1;
        }
        assert(all.take(i as int) =~= all);
        out
    }

    /// Takes every symbol of a scope in turn, up to the first that is not granted.
    fn acquire_each(&mut self, scope: &Vec<String>, agent: &str, o: &AcquireOptions, t: Tick) -> (r:
        Result<Vec<Conflict>, StoreError>)
        requires
            old(self)@.wf(),
            t.ok(),
            sane_ttl(o.ttl_secs),
        ensures
            (final(self)@, seen(r)) == old(self)@.acquire_each(
                scope.deep_view(),
                agent@,
                o.deep_view(),
                t,
            ),
            final(self)@.wf(),
    {
        let ghost s0 = self@;
        let ghost all = scope.deep_view();
        let mut i: usize = 0;
        while i < scope.len()
            invariant
                self@.wf(),
                t.ok(),
                sane_ttl(o.ttl_secs),
                all == scope.deep_view(),
                i <= scope@.len(),
                (self@, Ok::<Seq<ConflictV>, StoreErrorV>(Seq::empty())) == s0.acquire_each(
                    all.take(i as int),
                    agent@,
                    o.deep_view(),
                    t,
                ),
                s0 == old(self)@,
            decreases scope@.len() - i,
        {
            proof {
                assert(all.take(i + 1).drop_last() =~= all.take(i as int));
                assert(all.take(i + 1).last() == scope@[i as int]@);
            }
            let r = self.acquire(scope[i].as_str(), agent, o, t);
            match r {
                Err(e) => {
                    proof {
                        lemma_acquire_each_stops(s0, all, agent@, o.deep_view(), t, i as int);
                    }
                    return Err(e);
                },
                Ok(AcquireOutcome::Denied { conflicts }) => {
                    if conflicts.len() > 0 {
                        proof {
                            assert(conflicts@.len() == conflicts.deep_view().len());
                            lemma_acquire_each_stops(s0, all, agent@, o.deep_view(), t, i as int);
                        }
                        return Ok(conflicts);
                    }
                    assert(conflicts.deep_view() =~= Seq::empty());
                },
                _ => {},
            }
            i += 1;
        }
        assert(all.take(i as int) =~= all);
        Ok(no_rows())
    }

    /// Check every symbol of a scope; only if the whole scope is clear, acquire
    /// all of it. All or nothing, so that a caller never ends up holding half of
    /// a scope because the other half collided. Gives the conflicts: none on
    /// success.
    pub(crate) fn settle_scope(
        &mut self,
        scope: &Vec<String>,
        agent: &str,
        o: &AcquireOptions,
        t: Tick,
    ) -> (r: Result<Vec<Conflict>, StoreError>)
        requires
            old(self)@.wf(),
            t.ok(),
            sane_ttl(o.ttl_secs),
        ensures
            (final(self)@, seen(r)) == old(self)@.settle_scope(
                scope.deep_view(),
                agent@,
                o.deep_view(),
                t,
            ),
            final(self)@.wf(),
    {
        let conflicts = self.scope_conflicts(scope, agent, o, t.now);
        assert(conflicts@.len() == conflicts.deep_view().len());
        if conflicts.len() > 0 {
            return Ok(conflicts);
        }
        let before = self.clone();
        let r = self.acquire_each(scope, agent, o, t);
        match r {
            Ok(cs) => {
                assert(cs@.len() == cs.deep_view().len());
                if cs.len() > 0 {
                    *self = before;
                }
                Ok(cs)
            },
            Err(e) => {
                *self = before;
                Err(e)
            },
        }
    }

    /// The active lease that `agent` holds on the symbol.
    pub(crate) fn active_lease_for(&self, symbol: &str, agent: &str) -> (r: Option<LeaseRow>)
        ensures
            r.deep_view() == self@.active_lease_for(symbol@, agent@),
    {
        let test = |l: &LeaseRow| -> (b: bool)
            ensures b == (active_lease(l.deep_view(), symbol@) && l.agent@ == agent@)
        {
            same(l.symbol_id.as_str(), symbol) && l.state == LeaseState::Active && same(
                l.agent.as_str(),
                agent,
            )
        };
        match find_row(
            &self.leases,
            test,
            Ghost(|l: LeaseRowV| active_lease(l, symbol@) && l.agent == agent@),
        ) {
            Some(i) => Some(self.leases[i].clone()),
            None => None,
        }
    }
}

/// The latest acquisition comes first.
pub struct LatestFirst {
    pub row: LeaseRow,
}

pub struct LatestFirstV {
    pub row: LeaseRowV,
}

impl DeepView for LatestFirst {
    type V = LatestFirstV;

    open spec fn deep_view(&self) -> LatestFirstV {
        LatestFirstV { row: self.row.deep_view() }
    }
}

impl Ranked for LatestFirst {
    open spec fn before(a: LatestFirstV, b: LatestFirstV) -> bool {
        a.row.acquired_at > b.row.acquired_at
    }

    fn is_before(&self, other: &Self) -> (r: bool) {
        self.row.acquired_at > other.row.acquired_at
    }
}

/// The first rows of a list that has the latest acquisition first.
pub open spec fn latest(rows: Seq<LeaseRowV>, limit: int) -> Seq<LeaseRowV> {
    let all = sorted(
        rows.map_values(|l: LeaseRowV| LatestFirstV { row: l }),
        rank::<LatestFirst>(),
    );
    all.take(
        if all.len() < limit {
            all.len() as int
        } else {
            limit
        },
    ).map_values(|k: LatestFirstV| k.row)
}

fn reversed_keys(rows: &Vec<LeaseRow>) -> (r: Vec<LatestFirst>)
    ensures
        r.deep_view() == rows.deep_view().map_values(|l: LeaseRowV| LatestFirstV { row: l }),
{
    let wrap = |l: &LeaseRow| -> (k: LatestFirst)
        ensures k.deep_view() == (LatestFirstV { row: l.deep_view() })
    {
        LatestFirst { row: l.clone() }
    };
    each(rows, wrap, Ghost(|l: LeaseRowV| LatestFirstV { row: l }))
}

/// Everything in the way of a request is a lease within limits.
proof fn lemma_blocking_ok(s: StoreV, symbol: Seq<char>, agent: Seq<char>)
    requires
        s.wf(),
    ensures
        forall|i: int|
            0 <= i < s.blocking(symbol, agent).len() ==> lease_ok(
                (#[trigger] s.blocking(symbol, agent)[i]).lease,
            ),
{
    lemma_holders_ok(s, s.chain(symbol), symbol, agent, ConflictRelation::Ancestor);
    lemma_holders_ok(s, s.inside(symbol), symbol, agent, ConflictRelation::Descendant);
    let a = s.holders(s.chain(symbol), symbol, agent, ConflictRelation::Ancestor);
    let b = s.holders(s.inside(symbol), symbol, agent, ConflictRelation::Descendant);
    assert forall|i: int| 0 <= i < s.blocking(symbol, agent).len() implies lease_ok(
        (#[trigger] s.blocking(symbol, agent)[i]).lease,
    ) by {
        if i < a.len() {
            assert(s.blocking(symbol, agent)[i] == a[i]);
        } else {
            assert(s.blocking(symbol, agent)[i] == b[i - a.len()]);
        }
    }
}

/// Once taking a scope has stopped, the rest of the scope makes no difference.
proof fn lemma_acquire_each_stops(
    s: StoreV,
    scope: Seq<Seq<char>>,
    agent: Seq<char>,
    o: AcquireOptionsV,
    t: Tick,
    n: int,
)
    requires
        0 <= n < scope.len(),
        ({
            let r = s.acquire_each(scope.take(n + 1), agent, o, t).1;
            r is Err || r->Ok_0.len() > 0
        }),
    ensures
        s.acquire_each(scope, agent, o, t) == s.acquire_each(scope.take(n + 1), agent, o, t),
    decreases scope.len(),
{
    if scope.len() == n + 1 {
        assert(scope.take(n + 1) =~= scope);
    } else {
        assert(scope.drop_last().take(n + 1) =~= scope.take(n + 1));
        lemma_acquire_each_stops(s, scope.drop_last(), agent, o, t, n);
    }
}

/// May the request take over from all of these holders?
fn may_override(blocking: &Vec<Blocker>, o: &AcquireOptions) -> (r: bool)
    ensures
        r == overrides(blocking.deep_view(), o.deep_view()),
{
    if !o.preempt {
        return false;
    }
    let mut i: usize = 0;
    while i < blocking.len()
        invariant
            i <= blocking@.len(),
            forall|k: int|
                0 <= k < i ==> (#[trigger] blocking.deep_view()[k]).lease.priority < o.priority,
        decreases blocking@.len() - i,
    {
        assert(blocking.deep_view()[i as int] == blocking@[i as int].deep_view());
        if blocking[i].lease.priority >= o.priority {
            return false;
        }
        i += 1;
    }
    true
}

/// Acquiring keeps times within limits, and ids apart.
pub(crate) proof fn lemma_acquire_wf(
    s: StoreV,
    symbol: Seq<char>,
    agent: Seq<char>,
    o: AcquireOptionsV,
    t: Tick,
)
    requires
        s.wf(),
        t.ok(),
        sane_ttl(o.ttl_secs),
    ensures
        s.acquire(symbol, agent, o, t).0.wf(),
        s.swept(t.now).wf(),
{
    lemma_expire_keeps(s, t.now);
    let w = s.swept(t.now);
    if let Some(sym) = s.symbol(symbol) {
        let here = w.active_on(sym.id);
        if here.len() > 0 && here[0].agent == agent {
            let x = w.with_lease(here[0].id, |l: LeaseRowV| extended(l, o, t.now));
            assert forall|i: int| 0 <= i < x.leases.len() implies lease_ok(#[trigger] x.leases[i]) by {
                assert(lease_ok(w.leases[i]));
            }
            lemma_ids_kept(w.leases, x.leases);
        } else {
            let blocking = w.blocking(sym.id, agent);
            lemma_preempt_keeps(w, blocking, agent, o.priority, t.now);
            let p = w.preempt_each(blocking, agent, o.priority, t.now);
            let row = p.new_lease_row(sym.id, agent, o, t);
            assert(lease_ok(row));
            assert forall|i: int| 0 <= i < p.leases.push(row).len() implies lease_ok(
                #[trigger] p.leases.push(row)[i],
            ) by {
                if i < p.leases.len() {
                    assert(lease_ok(p.leases[i]));
                }
            }
            if p.lease_row(row.id) is None {
                law_first_where(p.leases, |l: LeaseRowV| l.id == row.id);
                assert(distinct_ids(p.leases.push(row)));
            }
        }
    }
}

} // verus!
