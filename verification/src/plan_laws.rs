//! What a plan of the work shows.

use vstd::prelude::*;
use vstd::string::*;

use crate::arch_laws::lemma_sorted_has;
use crate::claim_laws::{could_start, lemma_in_first_wave, lemma_row};
use crate::lookup_laws::lemma_filtered;
use crate::model::Capability;
use crate::order::{law_sorted_keeps, law_sorted_ordered, rank, sorted, weak_order};
use crate::schedule::{widest, ScheduledTask};
use crate::store::{task_ids_differ, StoreV, TaskRow, TaskRowV};
use crate::work::TaskViewV;

verus! {

broadcast use vstd::string::group_string_axioms;

proof fn lemma_listed(s: StoreV, i: int)
    requires
        0 <= i < s.tasks.len(),
    ensures
        s.tasks_listed().contains(s.view_of(s.tasks[i])),
{
    let r = rank::<TaskRow>();
    let o = sorted(s.tasks, r);
    assert(s.tasks.contains(s.tasks[i]));
    lemma_sorted_has(s.tasks, r, s.tasks[i]);
    let n = choose|n: int| 0 <= n < o.len() && o[n] == s.tasks[i];
    assert(s.tasks_listed()[n] == s.view_of(s.tasks[i]));
}

proof fn lemma_decorated(s: StoreV, ts: Seq<TaskViewV>, v: TaskViewV, now: i64)
    requires
        ts.contains(v),
    ensures
        s.decorated(ts, now).contains(s.decorate(v, now)),
{
    let k = choose|k: int| 0 <= k < ts.len() && ts[k] == v;
    assert(s.decorated(ts, now)[k] == s.decorate(v, now));
}

/// A plan shows all work that runs, all that is in review, and in its first wave all that
/// could start at once.
pub proof fn law_work_is_in_the_plan(s: StoreV, i: int, now: i64)
    requires
        task_ids_differ(s.tasks),
        0 <= i < s.tasks.len(),
    ensures
        ({
            let plan = s.plan(now);
            let x = s.decorate(s.view_of(s.tasks[i]), now);
            &&& s.tasks[i].state is Running ==> plan.running.contains(x)
            &&& s.tasks[i].state is Review ==> plan.in_review.contains(x)
            &&& could_start(s, i) ==> plan.waves.len() > 0 && plan.waves[0].tasks.contains(x)
        }),
{
    let v = s.view_of(s.tasks[i]);
    let x = s.decorate(v, now);
    lemma_listed(s, i);
    let runs = |t: TaskViewV| t.task.state is Running;
    let checks = |t: TaskViewV| t.task.state is Review;
    lemma_filtered(s.tasks_listed(), runs, v);
    lemma_filtered(s.tasks_listed(), checks, v);
    if s.tasks[i].state is Running {
        lemma_decorated(s, s.tasks_listed().filter(runs), v, now);
    }
    if s.tasks[i].state is Review {
        lemma_decorated(s, s.tasks_listed().filter(checks), v, now);
    }
    if could_start(s, i) {
        lemma_in_first_wave(s, i);
        lemma_decorated(s, s.waves()[0], v, now);
        lemma_sorted_has(s.decorated(s.waves()[0], now), rank::<ScheduledTask>(), x);
    }
}

proof fn lemma_widest(waves: Seq<Seq<TaskViewV>>)
    ensures
        forall|k: int| 0 <= k < waves.len() ==> (#[trigger] waves[k]).len() <= widest(waves),
        waves.len() > 0 ==> exists|k: int| 0 <= k < waves.len() && (#[trigger] waves[k]).len() == widest(waves),
        waves.len() == 0 ==> widest(waves) == 0,
    decreases waves.len(),
{
    if waves.len() > 0 {
        let init = waves.drop_last();
        let last = waves.len() - 1;
        lemma_widest(init);
        assert(waves[last] == waves.last());
        assert forall|k: int| 0 <= k < waves.len() implies (#[trigger] waves[k]).len() <= widest(waves) by {
            if k < last {
                assert(init[k] == waves[k]);
            }
        }
        if waves.last().len() > widest(init) {
            assert(waves[last].len() == widest(waves));
        } else if init.len() > 0 {
            let k = choose|k: int| 0 <= k < init.len() && (#[trigger] init[k]).len() == widest(init);
            assert(waves[k] == init[k]);
        } else {
            assert(waves[last].len() == widest(waves));
        }
    }
}

/// Each wave of a plan holds the tasks of that wave, the more urgent ones first; and as
/// many tasks can be worked on at once as the widest wave has.
pub proof fn law_waves_of_a_plan(s: StoreV, k: int, i: int, j: int, now: i64)
    requires
        0 <= k < s.waves().len(),
    ensures
        ({
            let plan = s.plan(now);
            let w = plan.waves[k].tasks;
            &&& plan.waves.len() == s.waves().len() && w.len() == s.waves()[k].len()
            &&& 0 <= i < j < w.len() ==> w[i].task.task.priority >= w[j].task.task.priority
            &&& widest(s.waves()) <= usize::MAX ==> w.len() <= plan.max_parallel && exists|h: int|
                0 <= h < plan.waves.len() && (#[trigger] plan.waves[h]).tasks.len() == plan.max_parallel
        }),
{
    let plan = s.plan(now);
    let r = rank::<ScheduledTask>();
    assert(weak_order(r));
    let d = s.decorated(s.waves()[k], now);
    law_sorted_keeps(d, r);
    law_sorted_ordered(d, r);
    let w = plan.waves[k].tasks;
    assert(w == sorted(d, r));
    if 0 <= i < j < w.len() {
        assert(!r(w[j], w[i]));
    }
    lemma_widest(s.waves());
    let h = choose|h: int| 0 <= h < s.waves().len() && (#[trigger] s.waves()[h]).len() == widest(s.waves());
    law_sorted_keeps(s.decorated(s.waves()[h], now), r);
    assert(plan.waves[h].tasks.len() == s.waves()[h].len());
}

/// What a task asks of whoever does it is what was last set, and nothing else of it
/// changes.
pub proof fn law_setting_a_capability(s: StoreV, i: int, capability: Option<Capability>, now: i64)
    requires
        task_ids_differ(s.tasks),
        0 <= i < s.tasks.len(),
    ensures
        ({
            let (r, x) = s.set_task_required_capability(s.tasks[i].id, capability, now);
            &&& x matches Ok(v) && v.task.required_capability == capability
            &&& r.tasks.len() == s.tasks.len()
            &&& r.tasks[i] == (TaskRowV { required_capability: capability, updated_at: now, ..s.tasks[i] })
            &&& forall|j: int| 0 <= j < s.tasks.len() && j != i ==> #[trigger] r.tasks[j] == s.tasks[j]
        }),
{
    lemma_row(s, i);
    let r = s.set_task_required_capability(s.tasks[i].id, capability, now).0;
    assert forall|j: int| 0 <= j < s.tasks.len() && j != i implies #[trigger] r.tasks[j] == s.tasks[j] by {
        assert(s.tasks[j].id != s.tasks[i].id);
    }
}

} // verus!
