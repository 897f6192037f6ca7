//! What is known of how far agents are.

use vstd::prelude::*;
use vstd::string::*;

use crate::arch_laws::lemma_sorted_has;
use crate::lookup_laws::lemma_filtered;
use crate::negotiate::{clamped, last_word};
use crate::order::{rank, sorted};
use crate::store::{ProgressRow, ProgressRowV, StoreV};

verus! {

broadcast use vstd::string::group_string_axioms;

/// A percentage is kept as it is between none and all, and otherwise as the nearer of the
/// two.
pub proof fn law_percentages(p: i64)
    ensures
        0 <= p <= 100 ==> clamped(p) == p,
        p <= 0 ==> clamped(p) == 0,
        p >= 100 ==> clamped(p) == 100,
{
}

/// What was noted is there, whoever noted it is seen to be alive, and it is told.
pub proof fn law_noting(s: StoreV, p: ProgressRowV, i: int)
    ensures
        ({
            let r = s.noted(p);
            &&& r.progress == s.progress.push(p)
            &&& r.events.len() == s.events.len() + 1 && r.events.last().kind == "agent.progress"@
            &&& r.events.last().agent == Some(p.agent) && r.events.last().task == p.task
            &&& 0 <= i < s.agents.len() ==> r.agents[i].name == s.agents[i].name && (s.agents[i].name == p.agent
                ==> r.agents[i].heartbeat_at == p.ts) && (s.agents[i].name != p.agent ==> r.agents[i] == s.agents[i])
            &&& r.tasks == s.tasks && r.leases == s.leases
        }),
{
}

/// What an agent last said is what is shown of it: an update is shown where its agent made
/// none later, and no other is.
pub proof fn law_latest_progress(s: StoreV, i: int)
    requires
        0 <= i < s.progress.len(),
    ensures
        (forall|j: int|
            0 <= j < s.progress.len() && (#[trigger] s.progress[j]).agent == s.progress[i].agent ==> s.progress[j].id
                <= s.progress[i].id) ==> s.latest_progress().contains(s.progress_of(s.progress[i])),
        forall|k: int|
            0 <= k < s.latest_progress().len() ==> exists|h: int|
                0 <= h < s.progress.len() && #[trigger] s.latest_progress()[k] == s.progress_of(
                    #[trigger] s.progress[h],
                ) && forall|j: int|
                    0 <= j < s.progress.len() && (#[trigger] s.progress[j]).agent == s.progress[h].agent
                        ==> s.progress[j].id <= s.progress[h].id,
{
    let p = |x: ProgressRowV| last_word(s.progress, x);
    let kept = s.progress.filter(p);
    let r = rank::<ProgressRow>();
    let o = sorted(kept, r);
    let all = s.latest_progress();
    let x = s.progress[i];
    assert(s.progress.contains(x));
    lemma_filtered(s.progress, p, x);
    lemma_sorted_has(kept, r, x);
    if p(x) {
        let n = choose|n: int| 0 <= n < o.len() && o[n] == x;
        assert(all[n] == s.progress_of(x));
    }
    assert forall|k: int| 0 <= k < all.len() implies exists|h: int|
        0 <= h < s.progress.len() && #[trigger] all[k] == s.progress_of(#[trigger] s.progress[h]) && forall|j: int|
            0 <= j < s.progress.len() && (#[trigger] s.progress[j]).agent == s.progress[h].agent ==> s.progress[j].id
                <= s.progress[h].id by {
        let y = o[k];
        assert(o.contains(y));
        lemma_sorted_has(kept, r, y);
        lemma_filtered(s.progress, p, y);
        let h = choose|h: int| 0 <= h < s.progress.len() && s.progress[h] == y;
        assert(all[k] == s.progress_of(s.progress[h]));
    }
}

} // verus!
