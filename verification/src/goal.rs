//! Goals: what a human actually asked for.
//!
//! A task says which symbols to touch; a goal says what for. Decomposing a goal is
//! explicit. What the graph can offer without anybody's judgement is where a change
//! lands, grouped by service.

use vstd::prelude::*;
use vstd::string::*;

use crate::graph::{ImpactNode, ImpactNodeV};
use crate::json::{Json, JsonV};
use crate::model::{
    Goal, GoalProgress, GoalProgressV, GoalState, GoalV, Symbol, SymbolKind, SymbolV, Task, TaskState,
    TaskSuggestion, TaskSuggestionV, TaskV,
};
use crate::order::{
    dedup_texts, deduped, rank, sort_texts, sorted, sorted_texts, stable_sort, Ranked,
};
use crate::rows::{change, each, find_row, keep};
use crate::sql::holds_text;
use crate::store::{
    append, fail_about, failure, first_where, no_rows, seen, ErrorKind, Link, LinkV, Store, StoreError,
    StoreErrorV, StoreV,
};
use crate::text::{
    alphanumeric, cat, cat3, decimal, decimal_of, is_alphanumeric, lowercase, same, split, split_on,
    to_lowercase, without_suffix,
};
use crate::work::{has_link, TaskView, TaskViewV};

verus! {

broadcast use vstd::string::group_string_axioms;

/// How many symbols one word may bring.
pub const SEARCH_LIMIT: usize = 50;

/// A goal and how far it is.
#[derive(Debug)]
pub struct GoalWithProgress {
    pub goal: Goal,
    pub progress: GoalProgress,
}

/// The contents of a [`GoalWithProgress`].
pub struct GoalWithProgressV {
    pub goal: GoalV,
    pub progress: GoalProgressV,
}

impl DeepView for GoalWithProgress {
    type V = GoalWithProgressV;

    open spec fn deep_view(&self) -> GoalWithProgressV {
        GoalWithProgressV {
            goal: self.goal.deep_view(),
            progress: self.progress.deep_view(),
        }
    }
}

impl Clone for GoalWithProgress {
    fn clone(&self) -> (r: Self)
        ensures
            r.deep_view() == self.deep_view(),
    {
        let r = GoalWithProgress {
            goal: self.goal.clone(),
            progress: self.progress.clone(),
        };
        r
    }
}

impl Ranked for Goal {
    /// Higher priority first, then by age.
    open spec fn before(a: GoalV, b: GoalV) -> bool {
        a.priority > b.priority || (a.priority == b.priority && a.created_at < b.created_at)
    }

    fn is_before(&self, other: &Self) -> (r: bool) {
        self.priority > other.priority || (self.priority == other.priority && self.created_at
            < other.created_at)
    }
}

// ------------------------------------------------------------- words of a goal

/// Is the word too common to look for?
pub open spec fn stopword(w: Seq<char>) -> bool {
    stopwords().contains(w)
}

/// The words that say nothing about code.
pub open spec fn stopwords() -> Seq<Seq<char>> {
    seq![
        "the"@,
        "a"@,
        "an"@,
        "implement"@,
        "add"@,
        "support"@,
        "for"@,
        "and"@,
        "to"@,
        "of"@,
        "in"@,
        "on"@,
        "with"@,
        "build"@,
        "create"@,
        "make"@,
        "new"@,
    ]
}

/// The pieces of a text between characters that are neither letters nor digits.
pub open spec fn pieces(text: Seq<char>) -> Seq<Seq<char>> {
    split(
        text.map_values(
            |c: char|
                if alphanumeric(c) {
                    c
                } else {
                    ' '
                },
        ),
        ' ',
    )
}

/// What a word is looked for as: as written, and without a plural ending.
pub open spec fn forms_of(token: Seq<char>) -> Seq<Seq<char>> {
    let n = token.len() as int;
    if "es"@.is_suffix_of(token) {
        seq![token, token.take(n - "es"@.len())]
    } else if "s"@.is_suffix_of(token) {
        seq![token, token.take(n - "s"@.len())]
    } else {
        seq![token]
    }
}

/// What a piece of text is looked for as: nothing where it is short or common.
pub open spec fn forms_of_piece(piece: Seq<char>) -> Seq<Seq<char>> {
    let token = lowercase(piece);
    if crate::repo::byte_len(token) < 3 || stopword(token) {
        Seq::empty()
    } else {
        forms_of(token)
    }
}

/// What a text is looked for as.
pub open spec fn forms_in(pieces: Seq<Seq<char>>) -> Seq<Seq<char>>
    decreases pieces.len(),
{
    if pieces.len() == 0 {
        Seq::empty()
    } else {
        forms_in(pieces.drop_last()) + forms_of_piece(pieces.last())
    }
}

/// Is a symbol with this id in the list?
pub open spec fn has_symbol(found: Seq<SymbolV>, id: Seq<char>) -> bool {
    exists|k: int| 0 <= k < found.len() && (#[trigger] found[k]).id == id
}

/// A list with the symbols of another that it does not have yet.
pub open spec fn with_new(found: Seq<SymbolV>, more: Seq<SymbolV>) -> Seq<SymbolV>
    decreases more.len(),
{
    if more.len() == 0 {
        found
    } else {
        let before = with_new(found, more.drop_last());
        if has_symbol(before, more.last().id) {
            before
        } else {
            before.push(more.last())
        }
    }
}

// ------------------------------------------------------------------ clustering

/// A symbol's handle under the label of its group.
pub struct Placed {
    pub label: Seq<char>,
    pub handle: Seq<char>,
}

/// The groups, by label, each with its handles in order.
pub open spec fn suggestions(ps: Seq<Placed>) -> Seq<TaskSuggestionV> {
    deduped(sorted_texts(ps.map_values(|p: Placed| p.label))).map_values(
        |label: Seq<char>| suggestion(ps, label),
    )
}

/// One group.
pub open spec fn suggestion(ps: Seq<Placed>, label: Seq<char>) -> TaskSuggestionV {
    TaskSuggestionV {
        title: "Update "@ + label,
        symbols: deduped(
            sorted_texts(
                ps.filter(|p: Placed| p.label == label).map_values(|p: Placed| p.handle),
            ),
        ),
    }
}

/// How many tasks are in a state.
pub open spec fn count_in(ts: Seq<TaskViewV>, state: TaskState) -> nat {
    ts.filter(|t: TaskViewV| t.task.state == state).len()
}

/// Who works on some tasks.
pub open spec fn assignees(ts: Seq<TaskViewV>) -> Seq<Seq<char>>
    decreases ts.len(),
{
    if ts.len() == 0 {
        Seq::empty()
    } else {
        match ts.last().task.assignee {
            Some(a) => assignees(ts.drop_last()).push(a),
            None => assignees(ts.drop_last()),
        }
    }
}

/// How far some tasks are.
pub open spec fn progress_of_tasks(ts: Seq<TaskViewV>) -> GoalProgressV {
    GoalProgressV {
        total: ts.len() as i64,
        done: count_in(ts, TaskState::Done) as i64,
        running: count_in(ts, TaskState::Running) as i64,
        in_review: count_in(ts, TaskState::Review) as i64,
        pending: (count_in(ts, TaskState::Pending) + count_in(ts, TaskState::Blocked)) as i64,
        contributing_agents: deduped(sorted_texts(assignees(ts))),
    }
}

impl StoreV {
    /// The goal with this id.
    pub open spec fn goal(self, id: Seq<char>) -> Option<GoalV> {
        first_where(self.goals, |g: GoalV| g.id == id)
    }

    /// Naming a goal. Goals are numbered as they come.
    pub open spec fn add_goal(
        self,
        title: Seq<char>,
        priority: i64,
        description: Option<Seq<char>>,
        created_by: Option<Seq<char>>,
        now: i64,
    ) -> (StoreV, Result<GoalV, StoreErrorV>) {
        let id = "G"@ + decimal((self.goals.len() + 1) as nat);
        let goal = GoalV {
            id,
            title,
            description,
            state: GoalState::Open,
            priority,
            created_at: now,
            updated_at: now,
            created_by,
        };
        if self.goal(id) is Some {
            (self, Err(failure(ErrorKind::Duplicate, "id is taken: "@ + id)))
        } else {
            (
                StoreV { goals: self.goals.push(goal), ..self }.emit(
                    now,
                    "goal.created"@,
                    created_by,
                    None,
                    None,
                    JsonV::Obj(
                        seq![
                            ("goal"@, JsonV::Str(id)),
                            ("title"@, JsonV::Str(title)),
                            ("priority"@, JsonV::Int(priority as int)),
                        ],
                    ),
                ),
                Ok(goal),
            )
        }
    }

    /// Moving a goal to a state.
    pub open spec fn set_goal_state(self, id: Seq<char>, state: GoalState, now: i64) -> (
        StoreV,
        Result<GoalV, StoreErrorV>,
    ) {
        match self.goal(id) {
            None => (self, Err(failure(ErrorKind::NoSuchGoal, "no such goal: "@ + id))),
            Some(g) => (
                StoreV {
                    goals: self.goals.map_values(
                        |x: GoalV|
                            if x.id == id {
                                GoalV { state, updated_at: now, ..x }
                            } else {
                                x
                            },
                    ),
                    ..self
                }.emit(
                    now,
                    "goal.state_changed"@,
                    None,
                    None,
                    None,
                    JsonV::Obj(
                        seq![("goal"@, JsonV::Str(id)), ("state"@, JsonV::Str(state.word()))],
                    ),
                ),
                Ok(GoalV { state, updated_at: now, ..g }),
            ),
        }
    }

    /// Putting a task under a goal, in place of one it was under.
    pub open spec fn serve(self, task: Seq<char>, goal: Seq<char>, now: i64) -> StoreV {
        StoreV {
            task_goals: self.task_goals.filter(|l: LinkV| l.left != task).push(
                LinkV { left: task, right: goal },
            ),
            ..self
        }.emit(
            now,
            "goal.decomposed"@,
            None,
            None,
            Some(task),
            JsonV::Obj(seq![("goal"@, JsonV::Str(goal))]),
        )
    }

    /// Declaring a subtask under a goal: the task is written down, then scoped, then
    /// linked. Where its scope cannot be resolved the task stays, without a goal.
    pub open spec fn goal_decompose(
        self,
        goal: Seq<char>,
        title: Seq<char>,
        priority: i64,
        deps: Seq<Seq<char>>,
        symbols: Seq<Seq<char>>,
        now: i64,
    ) -> (StoreV, Result<TaskV, StoreErrorV>) {
        if self.goal(goal) is None {
            (self, Err(failure(ErrorKind::NoSuchGoal, "no such goal: "@ + goal)))
        } else {
            match self.add_task(title, priority, deps, now) {
                (s, Err(e)) => (s, Err(e)),
                (s, Ok(task)) => if symbols.len() == 0 {
                    (s.serve(task.id, goal, now), Ok(task))
                } else {
                    match s.set_task_scope(task.id, symbols, now) {
                        (s, Err(e)) => (s, Err(e)),
                        (s, Ok(_)) => (s.serve(task.id, goal, now), Ok(task)),
                    }
                },
            }
        }
    }

    /// The tasks serving a goal.
    pub open spec fn goal_tasks(self, goal: Seq<char>) -> Seq<TaskViewV> {
        self.tasks_listed().filter(
            |t: TaskViewV| self.task_goals.contains(LinkV { left: t.task.id, right: goal }),
        )
    }

    /// Every goal, the most important first.
    pub open spec fn goals_listed(self) -> Seq<GoalV> {
        sorted(self.goals, rank::<Goal>())
    }

    /// The symbols that one word brings.
    pub open spec fn search(self, form: Seq<char>) -> Seq<SymbolV> {
        let all = self.matching(None, None, Some(form));
        all.take(
            if all.len() < SEARCH_LIMIT {
                all.len() as int
            } else {
                SEARCH_LIMIT as int
            },
        )
    }

    /// The symbols that some words bring, each once.
    pub open spec fn search_all(self, forms: Seq<Seq<char>>) -> Seq<SymbolV>
        decreases forms.len(),
    {
        if forms.len() == 0 {
            Seq::empty()
        } else {
            with_new(self.search_all(forms.drop_last()), self.search(forms.last()))
        }
    }

    /// The symbols that resemble a text.
    pub open spec fn keyword_match(self, text: Seq<char>) -> Seq<SymbolV> {
        self.search_all(forms_in(pieces(text)))
    }

    /// The label of a symbol's group: the nearest service around it, or its file.
    pub open spec fn group_label(self, s: SymbolV) -> Seq<char> {
        match first_where(self.ancestors(s.id), |a: SymbolV| a.kind is Service) {
            Some(a) => a.name,
            None => s.path,
        }
    }

    /// Where a symbol is put.
    pub open spec fn placed(self, s: SymbolV) -> Placed {
        Placed { label: self.group_label(s), handle: s.handle() }
    }

    /// Where some symbols, and what changing them reaches, are put.
    pub open spec fn spread(self, seeds: Seq<SymbolV>, depth: nat) -> Seq<Placed>
        decreases seeds.len(),
    {
        if seeds.len() == 0 {
            Seq::empty()
        } else {
            let s = seeds.last();
            self.spread(seeds.drop_last(), depth) + (seq![self.placed(s)] + self.impact(
                s.id,
                depth,
            ).map_values(|n: ImpactNodeV| self.placed(n.symbol)))
        }
    }

    /// Seeds and what they reach, one suggestion for each service.
    pub open spec fn cluster(self, seeds: Seq<SymbolV>, depth: nat) -> Seq<TaskSuggestionV> {
        suggestions(self.spread(seeds, depth))
    }

    /// What a goal says.
    pub open spec fn goal_text(self, g: GoalV) -> Seq<char> {
        match g.description {
            Some(d) => g.title + " "@ + d,
            None => g.title,
        }
    }
}

// ---------------------------------------------------------------- the operations

/// A symbol's handle under the label of its group, as it is worked with.
struct PlacedRow {
    label: String,
    handle: String,
}

impl DeepView for PlacedRow {
    type V = Placed;

    closed spec fn deep_view(&self) -> Placed {
        Placed { label: self.label@, handle: self.handle@ }
    }
}

impl crate::rows::Row for PlacedRow {
    fn copy(&self) -> (r: Self) {
        PlacedRow { label: self.label.clone(), handle: self.handle.clone() }
    }
}

fn common_words() -> (r: Vec<String>)
    ensures
        r.deep_view() == stopwords(),
{
    let mut r: Vec<String> = no_rows();
    append(&mut r, "the".to_owned());
    append(&mut r, "a".to_owned());
    append(&mut r, "an".to_owned());
    append(&mut r, "implement".to_owned());
    append(&mut r, "add".to_owned());
    append(&mut r, "support".to_owned());
    append(&mut r, "for".to_owned());
    append(&mut r, "and".to_owned());
    append(&mut r, "to".to_owned());
    append(&mut r, "of".to_owned());
    append(&mut r, "in".to_owned());
    append(&mut r, "on".to_owned());
    append(&mut r, "with".to_owned());
    append(&mut r, "build".to_owned());
    append(&mut r, "create".to_owned());
    append(&mut r, "make".to_owned());
    append(&mut r, "new".to_owned());
    assert(r.deep_view() =~= stopwords());
    r
}

fn pieces_of(text: &str) -> (r: Vec<String>)
    ensures
        r.deep_view() == pieces(text@),
{
    let chars = crate::text::chars_of(text);
    let mut kept: Vec<char> = Vec::new();
    let ghost f = |c: char|
        if alphanumeric(c) {
            c
        } else {
            ' '
        };
    let mut i: usize = 0;
    while i < chars.len()
        invariant
            chars@ == text@,
            i <= chars@.len(),
            f == (|c: char|
                if alphanumeric(c) {
                    c
                } else {
                    ' '
                }),
            kept@ =~= text@.take(i as int).map_values(f),
        decreases chars@.len() - i,
    {
        let c = chars[i];
        if is_alphanumeric(c) {
            kept.push(c);
        } else {
            kept.push(' ');
        }
        i += 1;
    }
    assert(text@.take(i as int) =~= text@);
    let s = crate::text::string_of(kept.as_slice());
    split_on(s.as_str(), ' ')
}

fn forms_of_one(piece: &str) -> (r: Vec<String>)
    ensures
        r.deep_view() == forms_of_piece(piece@),
{
    let token = to_lowercase(piece);
    let mut out: Vec<String> = no_rows();
    if token.as_str().len() < 3 || holds_text(&common_words(), token.as_str()) {
        return out;
    }
    append(&mut out, token.clone());
    if let Some(s) = without_suffix(token.as_str(), "es") {
        append(&mut out, s);
    } else if let Some(s) = without_suffix(token.as_str(), "s") {
        append(&mut out, s);
    }
    assert(out.deep_view() =~= forms_of(token@));
    out
}

fn forms_in_text(text: &str) -> (r: Vec<String>)
    ensures
        r.deep_view() == forms_in(pieces(text@)),
{
    let all = pieces_of(text);
    let ghost av = all.deep_view();
    let mut out: Vec<String> = no_rows();
    let mut i: usize = 0;
    while i < all.len()
        invariant
            av == all.deep_view(),
            i <= all@.len(),
            out.deep_view() == forms_in(av.take(i as int)),
        decreases all@.len() - i,
    {
        proof {
            assert(av.take(i + 1).drop_last() =~= av.take(i as int));
            assert(av.take(i + 1).last() == all@[i as int]@);
        }
        let mut more = forms_of_one(all[i].as_str());
        let ghost ov = out.deep_view();
        let ghost mv = more.deep_view();
        out.append(&mut more);
        assert(out.deep_view() =~= ov + mv);
        i += 1;
    }
    assert(av.take(i as int) =~= av);
    out
}

fn holds_symbol(found: &Vec<Symbol>, id: &str) -> (r: bool)
    ensures
        r == has_symbol(found.deep_view(), id@),
{
    let mut i: usize = 0;
    while i < found.len()
        invariant
            i <= found@.len(),
            forall|k: int| 0 <= k < i ==> (#[trigger] found.deep_view()[k]).id != id@,
        decreases found@.len() - i,
    {
        assert(found.deep_view()[i as int] == found@[i as int].deep_view());
        if same(found[i].id.as_str(), id) {
            return true;
        }
        i += 1;
    }
    assert(found@.len() == found.deep_view().len());
    false
}

fn add_new(found: &mut Vec<Symbol>, more: &Vec<Symbol>)
    ensures
        final(found).deep_view() == with_new(old(found).deep_view(), more.deep_view()),
{
    let ghost before = found.deep_view();
    let ghost all = more.deep_view();
    let mut i: usize = 0;
    while i < more.len()
        invariant
            all == more.deep_view(),
            i <= more@.len(),
            found.deep_view() == with_new(before, all.take(i as int)),
        decreases more@.len() - i,
    {
        proof {
            assert(all.take(i + 1).drop_last() =~= all.take(i as int));
            assert(all.take(i + 1).last() == more@[i as int].deep_view());
        }
        if !holds_symbol(found, more[i].id.as_str()) {
            append(found, more[i].clone());
        }
        i += 1;
    }
    assert(all.take(i as int) =~= all);
}

fn group(ps: &Vec<PlacedRow>) -> (r: Vec<TaskSuggestion>)
    ensures
        r.deep_view() == suggestions(ps.deep_view()),
{
    let label = |p: &PlacedRow| -> (s: String)
        ensures s.deep_view() == p.deep_view().label
    {
        p.label.clone()
    };
    let labels = dedup_texts(&sort_texts(each(ps, label, Ghost(|p: Placed| p.label))));
    let make = |l: &String| -> (t: TaskSuggestion)
        ensures t.deep_view() == suggestion(ps.deep_view(), l@)
    {
        one_group(ps, l.as_str())
    };
    each(&labels, make, Ghost(|l: Seq<char>| suggestion(ps.deep_view(), l)))
}

fn one_group(ps: &Vec<PlacedRow>, label: &str) -> (r: TaskSuggestion)
    ensures
        r.deep_view() == suggestion(ps.deep_view(), label@),
{
    let here = |p: &PlacedRow| -> (b: bool)
        ensures b == (p.deep_view().label == label@)
    {
        same(p.label.as_str(), label)
    };
    let handle = |p: &PlacedRow| -> (s: String)
        ensures s.deep_view() == p.deep_view().handle
    {
        p.handle.clone()
    };
    let some = keep(ps, here, Ghost(|p: Placed| p.label == label@));
    let handles = each(&some, handle, Ghost(|p: Placed| p.handle));
    TaskSuggestion { title: cat("Update ", label), symbols: dedup_texts(&sort_texts(handles)) }
}

fn count(ts: &Vec<TaskView>, state: TaskState) -> (n: usize)
    ensures
        n == count_in(ts.deep_view(), state),
{
    let test = |t: &TaskView| -> (b: bool)
        ensures b == (t.deep_view().task.state == state)
    {
        t.task.state == state
    };
    let some = keep(ts, test, Ghost(|t: TaskViewV| t.task.state == state));
    assert(some@.len() == some.deep_view().len());
    some.len()
}

fn assignees_of(ts: &Vec<TaskView>) -> (r: Vec<String>)
    ensures
        r.deep_view() == assignees(ts.deep_view()),
{
    let ghost all = ts.deep_view();
    let mut out: Vec<String> = no_rows();
    let mut i: usize = 0;
    while i < ts.len()
        invariant
            all == ts.deep_view(),
            i <= ts@.len(),
            out.deep_view() == assignees(all.take(i as int)),
        decreases ts@.len() - i,
    {
        proof {
            assert(all.take(i + 1).drop_last() =~= all.take(i as int));
            assert(all.take(i + 1).last() == ts@[i as int].deep_view());
        }
        if let Some(a) = &ts[i].task.assignee {
            append(&mut out, a.clone());
        }
        i += 1;
    }
    assert(all.take(i as int) =~= all);
    out
}

proof fn lemma_counts_small(ts: Seq<TaskViewV>)
    ensures
        count_in(ts, TaskState::Pending) + count_in(ts, TaskState::Blocked) <= ts.len(),
        count_in(ts, TaskState::Done) <= ts.len(),
        count_in(ts, TaskState::Running) <= ts.len(),
        count_in(ts, TaskState::Review) <= ts.len(),
    decreases ts.len(),
{
    reveal(Seq::filter);
    if ts.len() > 0 {
        lemma_counts_small(ts.drop_last());
    }
}

/// How far some tasks are.
fn progress_of_list(ts: &Vec<TaskView>) -> (r: GoalProgress)
    requires
        ts@.len() <= i64::MAX,
    ensures
        r.deep_view() == progress_of_tasks(ts.deep_view()),
{
    proof {
        lemma_counts_small(ts.deep_view());
        assert(ts@.len() == ts.deep_view().len());
    }
    GoalProgress {
        total: ts.len() as i64,
        done: count(ts, TaskState::Done) as i64,
        running: count(ts, TaskState::Running) as i64,
        in_review: count(ts, TaskState::Review) as i64,
        pending: (count(ts, TaskState::Pending) + count(ts, TaskState::Blocked)) as i64,
        contributing_agents: dedup_texts(&sort_texts(assignees_of(ts))),
    }
}

impl Store {
    /// Name a goal.
    pub fn add_goal(
        &mut self,
        title: &str,
        priority: i64,
        description: &Option<String>,
        created_by: &Option<String>,
        now: i64,
    ) -> (r: Result<Goal, StoreError>)
        requires
            old(self).goals@.len() < u64::MAX,
        ensures
            (final(self)@, seen(r)) == old(self)@.add_goal(
                title@,
                priority,
                description.deep_view(),
                created_by.deep_view(),
                now,
            ),
            old(self)@.wf() ==> final(self)@.wf(),
    {
        let n = self.goals.len() as u64;
        let id = cat("G", decimal_of(n + 1).as_str());
        if self.goal(id.as_str()).is_some() {
            return Err(fail_about(ErrorKind::Duplicate, "id is taken: ", id.as_str()));
        }
        let goal = Goal {
            id,
            title: title.to_owned(),
            description: description.clone(),
            state: GoalState::Open,
            priority,
            created_at: now,
            updated_at: now,
            created_by: created_by.clone(),
        };
        append(&mut self.goals, goal.clone());
        let detail = Json::object().with("goal", Json::str(goal.id.as_str())).with(
            "title",
            Json::str(title),
        ).with("priority", Json::Int(priority));
        assert(detail.deep_view()->Obj_0 =~= seq![
            ("goal"@, JsonV::Str(goal.id@)),
            ("title"@, JsonV::Str(title@)),
            ("priority"@, JsonV::Int(priority as int)),
        ]);
        self.emit(now, "goal.created", created_by.clone(), None, None, detail);
        Ok(goal)
    }

    /// Every goal, the most important first.
    pub fn goals(&self) -> (r: Vec<Goal>)
        ensures
            r.deep_view() == self@.goals_listed(),
    {
        let copy = |g: &Goal| -> (c: Goal)
            ensures c.deep_view() == g.deep_view()
        {
            g.clone()
        };
        let rows = each(&self.goals, copy, Ghost(|g: GoalV| g));
        assert(rows.deep_view() =~= self@.goals);
        stable_sort(rows)
    }

    /// The goal with this id.
    pub fn goal(&self, id: &str) -> (r: Option<Goal>)
        ensures
            r.deep_view() == self@.goal(id@),
    {
        let test = |g: &Goal| -> (b: bool)
            ensures b == (g.deep_view().id == id@)
        {
            same(g.id.as_str(), id)
        };
        match find_row(&self.goals, test, Ghost(|g: GoalV| g.id == id@)) {
            Some(i) => Some(self.goals[i].clone()),
            None => None,
        }
    }

    /// Move a goal to a state.
    pub fn set_goal_state(&mut self, id: &str, state: GoalState, now: i64) -> (r: Result<
        Goal,
        StoreError,
    >)
        ensures
            (final(self)@, seen(r)) == old(self)@.set_goal_state(id@, state, now),
            old(self)@.wf() ==> final(self)@.wf(),
    {
        let mut goal = match self.goal(id) {
            Some(g) => g,
            None => {
                return Err(fail_about(ErrorKind::NoSuchGoal, "no such goal: ", id));
            },
        };
        let set = |g: &Goal| -> (x: Goal)
            ensures x.deep_view() == (if g.deep_view().id == id@ {
                GoalV { state, updated_at: now, ..g.deep_view() }
            } else {
                g.deep_view()
            })
        {
            let mut x = g.clone();
            if same(g.id.as_str(), id) {
                x.state = state;
                x.updated_at = now;
            }
            x
        };
        change(
            &mut self.goals,
            set,
            Ghost(
                |x: GoalV|
                    if x.id == id@ {
                        GoalV { state, updated_at: now, ..x }
                    } else {
                        x
                    },
            ),
        );
        let detail = Json::object().with("goal", Json::str(id)).with(
            "state",
            Json::str(state.as_str()),
        );
        assert(detail.deep_view()->Obj_0 =~= seq![
            ("goal"@, JsonV::Str(id@)),
            ("state"@, JsonV::Str(state.word())),
        ]);
        self.emit(now, "goal.state_changed", None, None, None, detail);
        goal.state = state;
        goal.updated_at = now;
        Ok(goal)
    }

    fn serve(&mut self, task: &str, goal: &str, now: i64)
        ensures
            final(self)@ == old(self)@.serve(task@, goal@, now),
    {
        let other = |l: &Link| -> (b: bool)
            ensures b == (l.deep_view().left != task@)
        {
            !same(l.left.as_str(), task)
        };
        let mut links = keep(&self.task_goals, other, Ghost(|l: LinkV| l.left != task@));
        append(&mut links, Link { left: task.to_owned(), right: goal.to_owned() });
        self.task_goals = links;
        let detail = Json::object().with("goal", Json::str(goal));
        assert(detail.deep_view()->Obj_0 =~= seq![("goal"@, JsonV::Str(goal@))]);
        self.emit(now, "goal.decomposed", None, None, Some(task.to_owned()), detail);
    }

    /// Declare a subtask under a goal: creates the task, scopes it, and links it.
    pub fn goal_decompose(
        &mut self,
        goal_id: &str,
        title: &str,
        priority: i64,
        deps: &Vec<String>,
        symbols: &Vec<String>,
        now: i64,
    ) -> (r: Result<Task, StoreError>)
        requires
            old(self).tasks@.len() < u64::MAX,
        ensures
            (final(self)@, seen(r)) == old(self)@.goal_decompose(
                goal_id@,
                title@,
                priority,
                deps.deep_view(),
                symbols.deep_view(),
                now,
            ),
            old(self)@.wf() ==> final(self)@.wf(),
    {
        if self.goal(goal_id).is_none() {
            return Err(fail_about(ErrorKind::NoSuchGoal, "no such goal: ", goal_id));
        }
        let task = match self.add_task(title, priority, deps, now) {
            Ok(t) => t,
            Err(e) => {
                return Err(e);
            },
        };
        assert(symbols@.len() == symbols.deep_view().len());
        if symbols.len() > 0 {
            if let Err(e) = self.set_task_scope(task.id.as_str(), symbols, now) {
                return Err(e);
            }
        }
        self.serve(task.id.as_str(), goal_id, now);
        Ok(task)
    }

    /// The tasks serving a goal, in the order in which tasks are listed.
    pub fn goal_tasks(&self, goal_id: &str) -> (r: Vec<TaskView>)
        ensures
            r.deep_view() == self@.goal_tasks(goal_id@),
    {
        let serves = |t: &TaskView| -> (b: bool)
            ensures b == self@.task_goals.contains(LinkV { left: t.deep_view().task.id, right: goal_id@ })
        {
            has_link(&self.task_goals, t.task.id.as_str(), goal_id)
        };
        keep(
            &self.tasks(),
            serves,
            Ghost(
                |t: TaskViewV|
                    self@.task_goals.contains(LinkV { left: t.task.id, right: goal_id@ }),
            ),
        )
    }

    /// How far a goal is.
    pub fn goal_progress(&self, goal_id: &str) -> (r: Result<GoalProgress, StoreError>)
        requires
            self.tasks@.len() <= i64::MAX,
        ensures
            match self@.goal(goal_id@) {
                None => r matches Err(e) && e.deep_view() == failure(
                    ErrorKind::NoSuchGoal,
                    "no such goal: "@ + goal_id@,
                ),
                Some(g) => r matches Ok(p) && p.deep_view() == progress_of_tasks(
                    self@.goal_tasks(goal_id@),
                ),
            },
    {
        if self.goal(goal_id).is_none() {
            return Err(fail_about(ErrorKind::NoSuchGoal, "no such goal: ", goal_id));
        }
        let ts = self.goal_tasks(goal_id);
        proof {
            lemma_goal_tasks_few(self@, goal_id@);
            assert(ts@.len() == ts.deep_view().len());
            assert(self.tasks@.len() == self@.tasks.len());
        }
        Ok(progress_of_list(&ts))
    }

    /// Every goal, with how far it is.
    pub fn goals_with_progress(&self) -> (r: Vec<GoalWithProgress>)
        requires
            self.tasks@.len() <= i64::MAX,
        ensures
            r.deep_view() == self@.goals_listed().map_values(
                |g: GoalV|
                    GoalWithProgressV {
                        goal: g,
                        progress: progress_of_tasks(self@.goal_tasks(g.id)),
                    },
            ),
    {
        let with = |g: &Goal| -> (x: GoalWithProgress)
            requires self.tasks@.len() <= i64::MAX
            ensures x.deep_view() == (GoalWithProgressV {
                goal: g.deep_view(),
                progress: progress_of_tasks(self@.goal_tasks(g.deep_view().id)),
            })
        {
            let ts = self.goal_tasks(g.id.as_str());
            proof {
                lemma_goal_tasks_few(self@, g.id@);
                assert(ts@.len() == ts.deep_view().len());
                assert(self.tasks@.len() == self@.tasks.len());
            }
            GoalWithProgress { goal: g.clone(), progress: progress_of_list(&ts) }
        };
        each(
            &self.goals(),
            with,
            Ghost(
                |g: GoalV|
                    GoalWithProgressV {
                        goal: g,
                        progress: progress_of_tasks(self@.goal_tasks(g.id)),
                    },
            ),
        )
    }

    /// Propose a task breakdown: what changing a symbol reaches, by service.
    pub fn suggest_decomposition(&self, near_symbol: &str, depth: usize) -> (r: Result<
        Vec<TaskSuggestion>,
        StoreError,
    >)
        ensures
            match self@.resolve(near_symbol@) {
                Err(e) => seen(r) == Err::<Seq<TaskSuggestionV>, StoreErrorV>(e),
                Ok(s) => seen(r) == Ok::<Seq<TaskSuggestionV>, StoreErrorV>(
                    self@.cluster(seq![s], depth as nat),
                ),
            },
    {
        match self.resolve(near_symbol) {
            Err(e) => Err(e),
            Ok(s) => {
                let ghost sv = s.deep_view();
                let mut seeds: Vec<Symbol> = no_rows();
                append(&mut seeds, s);
                assert(seeds.deep_view() =~= seq![sv]);
                Ok(self.cluster(&seeds, depth))
            },
        }
    }

    /// The same from the words of a goal: whatever in the graph resembles them.
    /// Nothing, where nothing does.
    pub fn plan_goal(&self, goal_id: &str, depth: usize) -> (r: Result<
        Vec<TaskSuggestion>,
        StoreError,
    >)
        ensures
            match self@.goal(goal_id@) {
                None => seen(r) == Err::<Seq<TaskSuggestionV>, StoreErrorV>(
                    failure(ErrorKind::NoSuchGoal, "no such goal: "@ + goal_id@),
                ),
                Some(g) => seen(r) == Ok::<Seq<TaskSuggestionV>, StoreErrorV>(
                    self@.cluster(self@.keyword_match(self@.goal_text(g)), depth as nat),
                ),
            },
    {
        let goal = match self.goal(goal_id) {
            Some(g) => g,
            None => {
                return Err(fail_about(ErrorKind::NoSuchGoal, "no such goal: ", goal_id));
            },
        };
        let text = match &goal.description {
            Some(d) => cat3(goal.title.as_str(), " ", d.as_str()),
            None => goal.title.clone(),
        };
        let seeds = self.keyword_match_symbols(text.as_str());
        Ok(self.cluster(&seeds, depth))
    }

    /// Every symbol whose name, qualified name or path contains a word of the text,
    /// as written or without a plural ending.
    pub fn keyword_match_symbols(&self, text: &str) -> (r: Vec<Symbol>)
        ensures
            r.deep_view() == self@.keyword_match(text@),
    {
        let forms = forms_in_text(text);
        let ghost all = forms.deep_view();
        let mut out: Vec<Symbol> = no_rows();
        let mut i: usize = 0;
        while i < forms.len()
            invariant
                all == forms.deep_view(),
                i <= forms@.len(),
                out.deep_view() == self@.search_all(all.take(i as int)),
            decreases forms@.len() - i,
        {
            proof {
                assert(all.take(i + 1).drop_last() =~= all.take(i as int));
                assert(all.take(i + 1).last() == forms@[i as int]@);
            }
            let more = self.list_symbols(&None, None, &Some(forms[i].clone()), SEARCH_LIMIT);
            add_new(&mut out, &more);
            i += 1;
        }
        assert(all.take(i as int) =~= all);
        out
    }

    /// The label of a symbol's group: the nearest service around it, or its file.
    pub(crate) fn group_label(&self, s: &Symbol) -> (r: String)
        ensures
            r@ == self@.group_label(s.deep_view()),
    {
        match self.service_around(s.id.as_str()) {
            Some(a) => a.name,
            None => s.path.clone(),
        }
    }

    /// The nearest service around a symbol.
    pub(crate) fn service_around(&self, id: &str) -> (r: Option<Symbol>)
        ensures
            r.deep_view() == first_where(self@.ancestors(id@), |a: SymbolV| a.kind is Service),
    {
        let around = self.ancestors(id);
        let service = |a: &Symbol| -> (b: bool)
            ensures b == (a.deep_view().kind is Service)
        {
            a.kind == SymbolKind::Service
        };
        match find_row(&around, service, Ghost(|a: SymbolV| a.kind is Service)) {
            Some(i) => Some(around[i].clone()),
            None => None,
        }
    }

    fn placed(&self, s: &Symbol) -> (r: PlacedRow)
        ensures
            r.deep_view() == self@.placed(s.deep_view()),
    {
        PlacedRow { label: self.group_label(s), handle: s.handle() }
    }

    fn cluster(&self, seeds: &Vec<Symbol>, depth: usize) -> (r: Vec<TaskSuggestion>)
        ensures
            r.deep_view() == self@.cluster(seeds.deep_view(), depth as nat),
    {
        let ghost all = seeds.deep_view();
        let mut out: Vec<PlacedRow> = no_rows();
        let mut i: usize = 0;
        while i < seeds.len()
            invariant
                all == seeds.deep_view(),
                i <= seeds@.len(),
                out.deep_view() == self@.spread(all.take(i as int), depth as nat),
            decreases seeds@.len() - i,
        {
            let s = &seeds[i];
            proof {
                assert(all.take(i + 1).drop_last() =~= all.take(i as int));
                assert(all.take(i + 1).last() == s.deep_view());
            }
            let ghost ov = out.deep_view();
            append(&mut out, self.placed(s));
            let reached = self.impact(s.id.as_str(), depth);
            let put = |n: &ImpactNode| -> (p: PlacedRow)
                ensures p.deep_view() == self@.placed(n.deep_view().symbol)
            {
                self.placed(&n.symbol)
            };
            let mut more = each(&reached, put, Ghost(|n: ImpactNodeV| self@.placed(n.symbol)));
            let ghost mv = more.deep_view();
            let ghost o1 = out.deep_view();
            out.append(&mut more);
            assert(out.deep_view() =~= o1 + mv);
            assert(o1 + mv =~= ov + (seq![self@.placed(s.deep_view())] + mv));
            i += 1;
        }
        assert(all.take(i as int) =~= all);
        group(&out)
    }
}

proof fn lemma_goal_tasks_few(s: StoreV, goal: Seq<char>)
    ensures
        s.goal_tasks(goal).len() <= s.tasks.len(),
{
    crate::schedule::lemma_filter_short(
        s.tasks_listed(),
        |t: TaskViewV| s.task_goals.contains(LinkV { left: t.task.id, right: goal }),
    );
    crate::order::law_sorted_keeps(s.tasks, rank::<crate::store::TaskRow>());
}

// ----------------------------------------------------------------------- laws

/// Progress adds up: what is done, running, in review and pending is never more
/// than there is.
pub proof fn law_progress_adds_up(ts: Seq<TaskViewV>)
    ensures
        count_in(ts, TaskState::Done) + count_in(ts, TaskState::Running) + count_in(
            ts,
            TaskState::Review,
        ) + count_in(ts, TaskState::Pending) + count_in(ts, TaskState::Blocked) + count_in(
            ts,
            TaskState::Failed,
        ) == ts.len(),
    decreases ts.len(),
{
    reveal(Seq::filter);
    if ts.len() > 0 {
        law_progress_adds_up(ts.drop_last());
    }
}

/// Decomposing a goal links the new task to it.
pub proof fn law_decomposed_task_serves_its_goal(
    s: StoreV,
    goal: Seq<char>,
    title: Seq<char>,
    priority: i64,
    deps: Seq<Seq<char>>,
    symbols: Seq<Seq<char>>,
    now: i64,
)
    requires
        s.goal_decompose(goal, title, priority, deps, symbols, now).1 is Ok,
    ensures
        ({
            let (r, out) = s.goal_decompose(goal, title, priority, deps, symbols, now);
            r.task_goal(out->Ok_0.id) == Some(goal)
        }),
{
    let (r, out) = s.goal_decompose(goal, title, priority, deps, symbols, now);
    let task = out->Ok_0.id;
    let p = |l: LinkV| l.left != task;
    let m = match s.add_task(title, priority, deps, now) {
        (m, _) => if symbols.len() == 0 {
            m
        } else {
            m.set_task_scope(task, symbols, now).0
        },
    };
    let f = m.task_goals.filter(p);
    assert(r.task_goals == f.push(LinkV { left: task, right: goal }));
    assert forall|i: int| 0 <= i < f.len() implies (#[trigger] f[i]).left != task by {
        m.task_goals.lemma_filter_contains_rev(p, f[i]);
    }
    lemma_first_link(f, task, goal);
}

proof fn lemma_first_link(f: Seq<LinkV>, task: Seq<char>, goal: Seq<char>)
    requires
        forall|i: int| 0 <= i < f.len() ==> (#[trigger] f[i]).left != task,
    ensures
        first_where(f.push(LinkV { left: task, right: goal }), |l: LinkV| l.left == task) == Some(
            LinkV { left: task, right: goal },
        ),
    decreases f.len(),
{
    if f.len() > 0 {
        assert forall|i: int| 0 <= i < f.drop_first().len() implies (#[trigger] f.drop_first()[i]).left
            != task by {
            assert(f.drop_first()[i] == f[i + 1]);
        }
        lemma_first_link(f.drop_first(), task, goal);
        assert(f.push(LinkV { left: task, right: goal }).drop_first() =~= f.drop_first().push(
            LinkV { left: task, right: goal },
        ));
        assert(f[0].left != task);
    }
}

} // verus!
