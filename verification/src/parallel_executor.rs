//! Dependency-aware workflow scheduling.

use vstd::prelude::*;
use std::sync::Arc;
use tokio::sync::Semaphore;
use crate::buffer_model::wrap_add;

verus! {

/// A unit of work in a workflow DAG.
#[derive(Debug, Clone)]
pub struct WorkItem {
    /// Unique identifier for this item.
    pub id: String,
    /// IDs of items that must complete before this one can start.
    pub dependencies: Vec<String>,
}

/// Cumulative statistics for the executor.
///
/// Each counter wraps around on overflow, as an atomic `fetch_add` does.
#[derive(Debug)]
pub struct ExecutorStats {
    pub total_tasks: u64,
    pub parallel_groups: u64,
    pub sequential_fallbacks: u64,
    pub total_wall_time_us: u64,
    pub total_cpu_time_us: u64,
}

impl Default for ExecutorStats {
    fn default() -> (r: Self)
        ensures
            r.total_tasks == 0,
            r.parallel_groups == 0,
            r.sequential_fallbacks == 0,
            r.total_wall_time_us == 0,
            r.total_cpu_time_us == 0,
    {
        ExecutorStats {
            total_tasks: 0,
            parallel_groups: 0,
            sequential_fallbacks: 0,
            total_wall_time_us: 0,
            total_cpu_time_us: 0,
        }
    }
}

impl ExecutorStats {
    /// Snapshot of the current counters.
    pub fn snapshot(&self) -> (r: ExecutorStatsSnapshot)
        ensures
            r.total_tasks == self.total_tasks,
            r.parallel_groups == self.parallel_groups,
            r.sequential_fallbacks == self.sequential_fallbacks,
            r.total_wall_time_us == self.total_wall_time_us,
            r.total_cpu_time_us == self.total_cpu_time_us,
    {
        ExecutorStatsSnapshot {
            total_tasks: self.total_tasks,
            parallel_groups: self.parallel_groups,
            sequential_fallbacks: self.sequential_fallbacks,
            total_wall_time_us: self.total_wall_time_us,
            total_cpu_time_us: self.total_cpu_time_us,
        }
    }
}

/// Plain snapshot of executor statistics.
#[derive(Debug, Clone, Copy, PartialEq, Eq)]
pub struct ExecutorStatsSnapshot {
    pub total_tasks: u64,
    pub parallel_groups: u64,
    pub sequential_fallbacks: u64,
    pub total_wall_time_us: u64,
    pub total_cpu_time_us: u64,
}

} // verus!

verus! {

/// Why a workflow cannot be scheduled.
#[derive(Debug, Clone, Copy, PartialEq, Eq)]
pub enum WorkflowError {
    /// Some item can never run: its dependencies form a cycle or name an
    /// item that does not exist.
    CyclicDependency,
}

/// Some item has identifier `x`.
pub open spec fn has_id(items: Seq<WorkItem>, x: Seq<char>) -> bool {
    exists|i: int| 0 <= i < items.len() && items[i].id@ == x
}

/// The first item named `x` comes before the first item named `y`.
pub open spec fn first_seen_before(items: Seq<WorkItem>, x: Seq<char>, y: Seq<char>) -> bool {
    exists|i: int| 0 <= i < items.len() && #[trigger] items[i].id@ == x
        && forall|k: int| 0 <= k <= i ==> #[trigger] items[k].id@ != y
}

/// `x` is an item that can run in level `n` or earlier: it exists, and every
/// dependency of every item named `x` can run in an earlier level.
pub open spec fn ready_by(items: Seq<WorkItem>, x: Seq<char>, n: nat) -> bool
    decreases n,
{
    if n == 0 {
        &&& has_id(items, x)
        &&& forall|i: int|
            0 <= i < items.len() && #[trigger] items[i].id@ == x ==> items[i].dependencies@.len() == 0
    } else {
        &&& has_id(items, x)
        &&& forall|i: int, j: int|
            0 <= i < items.len() && items[i].id@ == x && 0 <= j < items[i].dependencies@.len()
                ==> ready_by(items, #[trigger] items[i].dependencies@[j]@, (n - 1) as nat)
    }
}

/// `x` runs in level `n`: it can run by level `n` but not earlier.
pub open spec fn in_level(items: Seq<WorkItem>, x: Seq<char>, n: nat) -> bool {
    &&& ready_by(items, x, n)
    &&& (n == 0 || !ready_by(items, x, (n - 1) as nat))
}

/// `x` can run at all: in some level.
pub open spec fn schedulable(items: Seq<WorkItem>, x: Seq<char>) -> bool {
    exists|n: nat| #[trigger] ready_by(items, x, n)
}

} // verus!

verus! {

/// The dependencies of every item named `x` are in `placed`.
pub open spec fn deps_within(items: Seq<WorkItem>, x: Seq<char>, placed: Set<Seq<char>>) -> bool {
    forall|i: int, j: int|
        0 <= i < items.len() && items[i].id@ == x && 0 <= j < items[i].dependencies@.len()
            ==> placed.contains(#[trigger] items[i].dependencies@[j]@)
}

/// Number of `true` entries.
pub open spec fn count_true(s: Seq<bool>) -> nat
    decreases s.len(),
{
    if s.len() == 0 {
        0
    } else {
        count_true(s.drop_last()) + if s.last() { 1nat } else { 0nat }
    }
}

proof fn lemma_count_true_bound(s: Seq<bool>)
    ensures
        count_true(s) <= s.len(),
        count_true(s) == s.len() <==> forall|t: int| 0 <= t < s.len() ==> #[trigger] s[t],
    decreases s.len(),
{
    if s.len() > 0 {
        lemma_count_true_bound(s.drop_last());
        if count_true(s) == s.len() {
            assert forall|t: int| 0 <= t < s.len() implies #[trigger] s[t] by {
                if t < s.len() - 1 {
                    assert(s.drop_last()[t] == s[t]);
                }
            }
        }
        if forall|t: int| 0 <= t < s.len() ==> #[trigger] s[t] {
            assert forall|t: int| 0 <= t < s.drop_last().len() implies #[trigger] s.drop_last()[t] by {
                assert(s[t]);
            }
        }
    }
}

proof fn lemma_count_true_set(s: Seq<bool>, t: int)
    requires
        0 <= t < s.len(),
        !s[t],
    ensures
        count_true(s.update(t, true)) == count_true(s) + 1,
    decreases s.len(),
{
    if t < s.len() - 1 {
        lemma_count_true_set(s.drop_last(), t);
        assert(s.update(t, true).drop_last() =~= s.drop_last().update(t, true));
    } else {
        assert(s.update(t, true).drop_last() =~= s.drop_last());
    }
}

/// Being ready by a level means being ready by every later level.
pub proof fn lemma_ready_mono(items: Seq<WorkItem>, x: Seq<char>, n: nat, m: nat)
    requires
        ready_by(items, x, n),
        n <= m,
    ensures
        ready_by(items, x, m),
    decreases m,
{
    if n < m {
        if m == 1 {
            assert forall|i: int, j: int|
                0 <= i < items.len() && items[i].id@ == x && 0 <= j < items[i].dependencies@.len()
                implies ready_by(items, #[trigger] items[i].dependencies@[j]@, 0) by {
                assert(items[i].dependencies@.len() == 0);
            }
        } else {
            lemma_ready_mono(items, x, n, (m - 1) as nat);
            assert forall|i: int, j: int|
                0 <= i < items.len() && items[i].id@ == x && 0 <= j < items[i].dependencies@.len()
                implies ready_by(items, #[trigger] items[i].dependencies@[j]@, (m - 1) as nat) by {
                if m - 1 == 0 {
                    assert(items[i].dependencies@.len() == 0);
                } else {
                    lemma_ready_mono(items, items[i].dependencies@[j]@, (m - 2) as nat, (m - 1) as nat);
                }
            }
        }
    }
}

/// One scheduling round: when `placed` holds exactly the items ready by the
/// level before `k`, an item is ready by level `k` exactly when all its
/// dependencies are placed.
proof fn lemma_round(items: Seq<WorkItem>, placed: Set<Seq<char>>, k: nat, x: Seq<char>)
    requires
        forall|y: Seq<char>| #[trigger] placed.contains(y) <==> (k > 0 && ready_by(items, y, (k - 1) as nat)),
        has_id(items, x),
    ensures
        deps_within(items, x, placed) <==> ready_by(items, x, k),
{
    if k == 0 {
        if deps_within(items, x, placed) {
            assert forall|i: int| 0 <= i < items.len() && #[trigger] items[i].id@ == x
                implies items[i].dependencies@.len() == 0 by {
                if items[i].dependencies@.len() > 0 {
                    assert(placed.contains(items[i].dependencies@[0]@));
                }
            }
        }
    }
}

/// Once a round adds nothing, nothing else can ever be scheduled.
proof fn lemma_closed(items: Seq<WorkItem>, placed: Set<Seq<char>>, k: nat, z: Seq<char>, n: nat)
    requires
        forall|y: Seq<char>| #[trigger] placed.contains(y) <==> (k > 0 && ready_by(items, y, (k - 1) as nat)),
        forall|y: Seq<char>| has_id(items, y) && !placed.contains(y) ==> !#[trigger] deps_within(items, y, placed),
        ready_by(items, z, n),
    ensures
        placed.contains(z),
    decreases n,
{
    if n > 0 {
        assert forall|i: int, j: int|
            0 <= i < items.len() && items[i].id@ == z && 0 <= j < items[i].dependencies@.len()
            implies placed.contains(#[trigger] items[i].dependencies@[j]@) by {
            lemma_closed(items, placed, k, items[i].dependencies@[j]@, (n - 1) as nat);
        }
    }
    assert(deps_within(items, z, placed));
}

/// A level is determined by the item: an item runs in one level only.
pub proof fn lemma_level_unique(items: Seq<WorkItem>, x: Seq<char>, a: nat, b: nat)
    requires
        in_level(items, x, a),
        in_level(items, x, b),
    ensures
        a == b,
{
    if a < b {
        lemma_ready_mono(items, x, a, (b - 1) as nat);
    } else if b < a {
        lemma_ready_mono(items, x, b, (a - 1) as nat);
    }
}

/// Dependencies run first: a dependency of an item in level `l` runs in an
/// earlier level.
pub proof fn law_dependencies_run_earlier(items: Seq<WorkItem>, i: int, j: int, l: nat, l_dep: nat)
    requires
        0 <= i < items.len(),
        0 <= j < items[i].dependencies@.len(),
        in_level(items, items[i].id@, l),
        in_level(items, items[i].dependencies@[j]@, l_dep),
    ensures
        l_dep < l,
{
    let d = items[i].dependencies@[j]@;
    if l == 0 {
        assert(items[i].dependencies@.len() == 0);
    } else {
        assert(ready_by(items, d, (l - 1) as nat));
        if l_dep >= l {
            if l_dep > 0 {
                lemma_ready_mono(items, d, (l - 1) as nat, (l_dep - 1) as nat);
            }
        }
    }
}

} // verus!

verus! {

/// Index of `x` in `ids`, if present.
fn find_index(ids: &Vec<String>, x: &String) -> (r: Option<usize>)
    ensures
        r matches Some(t) ==> t < ids.len() && ids[t as int]@ == x@,
        r is None ==> forall|t: int| 0 <= t < ids.len() ==> ids[t]@ != x@,
{
    let mut t: usize = 0;
    while t < ids.len()
        invariant
            t <= ids.len(),
            forall|u: int| 0 <= u < t ==> ids[u]@ != x@,
        decreases ids.len() - t,
    {
        if ids[t] == *x {
            return Some(t);
        }
        t = t + 1;
    }
    None
}

/// `x` is one of the names in `ids`.
pub open spec fn listed(ids: Seq<String>, x: Seq<char>) -> bool {
    exists|t: int| 0 <= t < ids.len() && ids[t]@ == x
}

/// The distinct item identifiers, in order of first appearance.
fn collect_ids(items: &[WorkItem]) -> (ids: Vec<String>)
    ensures
        forall|t: int, u: int| 0 <= t < u < ids.len() ==> ids[t]@ != ids[u]@,
        forall|x: Seq<char>| has_id(items@, x) <==> listed(ids@, x),
        forall|t: int, u: int| 0 <= t < u < ids.len() ==> first_seen_before(items@, #[trigger] ids[t]@, #[trigger] ids[u]@),
{
    let mut ids: Vec<String> = Vec::new();
    let mut i: usize = 0;
    while i < items.len()
        invariant
            i <= items.len(),
            forall|t: int, u: int| 0 <= t < u < ids.len() ==> ids[t]@ != ids[u]@,
            forall|t: int| 0 <= t < ids.len() ==> exists|k: int| 0 <= k < i && items@[k].id@ == #[trigger] ids[t]@,
            forall|k: int| 0 <= k < i ==> listed(ids@, #[trigger] items@[k].id@),
            forall|t: int, u: int| 0 <= t < u < ids.len() ==> first_seen_before(items@, #[trigger] ids[t]@, #[trigger] ids[u]@),
        decreases items.len() - i,
    {
        let ghost pre = ids@;
        match find_index(&ids, &items[i].id) {
            Some(t) => {
                assert(listed(ids@, items@[i as int].id@)) by {
                    assert(ids@[t as int]@ == items@[i as int].id@);
                }
            },
            None => {
                ids.push(items[i].id.clone());
                proof {
                    assert forall|k: int| 0 <= k < i + 1 implies listed(ids@, #[trigger] items@[k].id@) by {
                        if k < i {
                            assert(listed(pre, items@[k].id@));
                            let t = choose|t: int| 0 <= t < pre.len() && pre[t]@ == items@[k].id@;
                            assert(ids@[t]@ == items@[k].id@);
                        } else {
                            assert(ids@[ids.len() - 1]@ == items@[k].id@);
                        }
                    }
                    assert forall|t: int| 0 <= t < ids.len() implies exists|k: int| 0 <= k < i + 1
                        && items@[k].id@ == #[trigger] ids[t]@ by {
                        if t < pre.len() {
                            assert(ids[t] == pre[t]);
                            let k = choose|k: int| 0 <= k < i && items@[k].id@ == pre[t]@;
                        } else {
                            assert(items@[i as int].id@ == ids[t]@);
                        }
                    }
                    let y = items@[i as int].id@;
                    assert forall|t: int, u: int| 0 <= t < u < ids.len()
                        implies first_seen_before(items@, #[trigger] ids[t]@, #[trigger] ids[u]@) by {
                        if u < pre.len() {
                            assert(ids[t] == pre[t] && ids[u] == pre[u]);
                        } else {
                            assert(ids[t] == pre[t]);
                            let k = choose|k: int| 0 <= k < i && items@[k].id@ == pre[t]@;
                            assert forall|k2: int| 0 <= k2 <= k implies #[trigger] items@[k2].id@ != ids[u]@ by {
                                assert(listed(pre, items@[k2].id@));
                                let t2 = choose|t2: int| 0 <= t2 < pre.len() && pre[t2]@ == items@[k2].id@;
                                assert(pre[t2]@ != y);
                            }
                            assert(items@[k].id@ == ids[t]@);
                        }
                    }
                }
            },
        }
        i = i + 1;
    }
    proof {
        assert forall|x: Seq<char>| has_id(items@, x) implies listed(ids@, x) by {
            let k = choose|k: int| 0 <= k < items@.len() && items@[k].id@ == x;
            assert(listed(ids@, items@[k].id@));
        }
        assert forall|x: Seq<char>| listed(ids@, x) implies has_id(items@, x) by {
            let t = choose|t: int| 0 <= t < ids.len() && ids[t]@ == x;
            assert(exists|k: int| 0 <= k < items@.len() && items@[k].id@ == #[trigger] ids[t]@);
        }
    }
    ids
}

/// Whether every name in `deps` is placed.
fn all_placed(
    deps: &Vec<String>,
    ids: &Vec<String>,
    placed: &Vec<bool>,
    Ghost(pset): Ghost<Set<Seq<char>>>,
) -> (r: bool)
    requires
        placed.len() == ids.len(),
        forall|t: int| 0 <= t < ids.len() ==> (placed[t] <==> pset.contains(#[trigger] ids[t]@)),
        forall|y: Seq<char>| #[trigger] pset.contains(y) ==> exists|t: int| 0 <= t < ids.len() && ids[t]@ == y,
    ensures
        r == forall|l: int| 0 <= l < deps.len() ==> pset.contains(#[trigger] deps@[l]@),
{
    let mut j: usize = 0;
    while j < deps.len()
        invariant
            j <= deps.len(),
            placed.len() == ids.len(),
            forall|t: int| 0 <= t < ids.len() ==> (placed[t] <==> pset.contains(#[trigger] ids[t]@)),
            forall|y: Seq<char>| #[trigger] pset.contains(y) ==> exists|t: int| 0 <= t < ids.len() && ids[t]@ == y,
            forall|l: int| 0 <= l < j ==> pset.contains(#[trigger] deps@[l]@),
        decreases deps.len() - j,
    {
        match find_index(ids, &deps[j]) {
            Some(t) => {
                if !placed[t] {
                    assert(!pset.contains(deps@[j as int]@));
                    return false;
                }
            },
            None => {
                proof {
                    if pset.contains(deps@[j as int]@) {
                        let t = choose|t: int| 0 <= t < ids.len() && ids[t]@ == deps@[j as int]@;
                    }
                }
                return false;
            },
        }
        j = j + 1;
    }
    true
}

/// Whether every dependency of every item named `x` is placed.
fn deps_all_placed(
    items: &[WorkItem],
    x: &String,
    ids: &Vec<String>,
    placed: &Vec<bool>,
    Ghost(pset): Ghost<Set<Seq<char>>>,
) -> (r: bool)
    requires
        placed.len() == ids.len(),
        forall|t: int| 0 <= t < ids.len() ==> (placed[t] <==> pset.contains(#[trigger] ids[t]@)),
        forall|y: Seq<char>| #[trigger] pset.contains(y) ==> exists|t: int| 0 <= t < ids.len() && ids[t]@ == y,
    ensures
        r == deps_within(items@, x@, pset),
{
    let mut i: usize = 0;
    while i < items.len()
        invariant
            i <= items.len(),
            placed.len() == ids.len(),
            forall|t: int| 0 <= t < ids.len() ==> (placed[t] <==> pset.contains(#[trigger] ids[t]@)),
            forall|y: Seq<char>| #[trigger] pset.contains(y) ==> exists|t: int| 0 <= t < ids.len() && ids[t]@ == y,
            forall|k: int, j: int|
                0 <= k < i && items@[k].id@ == x@ && 0 <= j < items@[k].dependencies@.len()
                    ==> pset.contains(#[trigger] items@[k].dependencies@[j]@),
        decreases items.len() - i,
    {
        if items[i].id == *x {
            if !all_placed(&items[i].dependencies, ids, placed, Ghost(pset)) {
                proof {
                    let l = choose|l: int| 0 <= l < items@[i as int].dependencies@.len()
                        && !pset.contains(#[trigger] items@[i as int].dependencies@[l]@);
                    assert(!pset.contains(items@[i as int].dependencies@[l]@));
                }
                return false;
            }
        }
        i = i + 1;
    }
    true
}

} // verus!

verus! {

/// `x` occurs in one of the levels.
pub open spec fn placed_in(levels: Seq<Vec<String>>, x: Seq<char>) -> bool {
    exists|l: int, p: int| 0 <= l < levels.len() && 0 <= p < levels[l]@.len() && levels[l]@[p]@ == x
}

/// `levels` is the level structure of `items`: level `l` holds, once each,
/// exactly the items that run in level `l`, no level is empty, and every item
/// occurs in some level.
pub open spec fn exact_levels(items: Seq<WorkItem>, levels: Seq<Vec<String>>) -> bool {
    &&& forall|l: int| 0 <= l < levels.len() ==> #[trigger] levels[l]@.len() > 0
    &&& forall|l: int, p: int| 0 <= l < levels.len() && 0 <= p < levels[l]@.len()
        ==> in_level(items, #[trigger] levels[l]@[p]@, l as nat)
    &&& forall|l: int, p: int, q: int| 0 <= l < levels.len() && 0 <= p < q < levels[l]@.len()
        ==> #[trigger] levels[l]@[p]@ != #[trigger] levels[l]@[q]@
    &&& forall|x: Seq<char>| has_id(items, x) ==> placed_in(levels, x)
}


/// Levels built so far: non-empty, each item in the right level, no repeats
/// within a level.
pub open spec fn exact_levels_so_far(items: Seq<WorkItem>, levels: Seq<Vec<String>>) -> bool {
    &&& forall|l: int| 0 <= l < levels.len() ==> #[trigger] levels[l]@.len() > 0
    &&& forall|l: int, p: int| 0 <= l < levels.len() && 0 <= p < levels[l]@.len()
        ==> in_level(items, #[trigger] levels[l]@[p]@, l as nat)
    &&& forall|l: int, p: int, q: int| 0 <= l < levels.len() && 0 <= p < q < levels[l]@.len()
        ==> #[trigger] levels[l]@[p]@ != #[trigger] levels[l]@[q]@
}

/// Every scheduled item runs exactly once: an identifier occurs at one place
/// only in the level structure.
pub proof fn law_each_item_once(items: Seq<WorkItem>, levels: Seq<Vec<String>>, l1: int, p1: int, l2: int, p2: int)
    requires
        exact_levels(items, levels),
        0 <= l1 < levels.len(),
        0 <= p1 < levels[l1]@.len(),
        0 <= l2 < levels.len(),
        0 <= p2 < levels[l2]@.len(),
        levels[l1]@[p1]@ == levels[l2]@[p2]@,
    ensures
        l1 == l2,
        p1 == p2,
{
    lemma_level_unique(items, levels[l1]@[p1]@, l1 as nat, l2 as nat);
    if p1 < p2 {
        assert(levels[l1]@[p1]@ != levels[l1]@[p2]@);
    } else if p2 < p1 {
        assert(levels[l1]@[p2]@ != levels[l1]@[p1]@);
    }
}

proof fn lemma_count_all_false(s: Seq<bool>)
    requires
        forall|t: int| 0 <= t < s.len() ==> !s[t],
    ensures
        count_true(s) == 0,
    decreases s.len(),
{
    if s.len() > 0 {
        lemma_count_all_false(s.drop_last());
    }
}

/// After a round that placed nothing, no unplaced item has all its
/// dependencies placed.
proof fn lemma_stop_closes(
    items: Seq<WorkItem>,
    ids: Seq<String>,
    placed: Seq<bool>,
    pset: Set<Seq<char>>,
    k: nat,
)
    requires
        forall|x: Seq<char>| has_id(items, x) <==> listed(ids, x),
        placed.len() == ids.len(),
        forall|t: int| 0 <= t < ids.len() ==> (placed[t] <==> pset.contains(#[trigger] ids[t]@)),
        forall|u: int| 0 <= u < ids.len() ==> !(!placed[u] && #[trigger] deps_within(items, ids[u]@, pset)),
    ensures
        forall|y: Seq<char>| has_id(items, y) && !pset.contains(y) ==> !#[trigger] deps_within(items, y, pset),
{
    assert forall|y: Seq<char>| has_id(items, y) && !pset.contains(y)
        implies !#[trigger] deps_within(items, y, pset) by {
        assert(listed(ids, y));
        let u = choose|u: int| 0 <= u < ids.len() && ids[u]@ == y;
        assert(!placed[u]);
    }
}

/// A scheduling round: placing the chosen items yields the items ready by
/// this round's level, and the new level is exact.
proof fn lemma_round_step(
    items: Seq<WorkItem>,
    ids: Seq<String>,
    placed0: Seq<bool>,
    placed1: Seq<bool>,
    p0: Set<Seq<char>>,
    p1: Set<Seq<char>>,
    chosen: Seq<usize>,
    old_levels: Seq<Vec<String>>,
    new_levels: Seq<Vec<String>>,
    k: nat,
)
    requires
        forall|t: int, u: int| 0 <= t < u < ids.len() ==> ids[t]@ != ids[u]@,
        forall|x: Seq<char>| has_id(items, x) <==> listed(ids, x),
        placed0.len() == ids.len(),
        placed1.len() == ids.len(),
        forall|t: int| 0 <= t < ids.len() ==> (placed0[t] <==> p0.contains(#[trigger] ids[t]@)),
        forall|y: Seq<char>| #[trigger] p0.contains(y) <==> (k > 0 && ready_by(items, y, (k - 1) as nat)),
        old_levels.len() == k,
        exact_levels_so_far(items, old_levels),
        forall|y: Seq<char>| #[trigger] p0.contains(y) ==> placed_in(old_levels, y),
        chosen.len() > 0,
        forall|q: int| 0 <= q < chosen.len() ==> #[trigger] chosen[q] < ids.len(),
        forall|q: int, w: int| 0 <= q < w < chosen.len() ==> chosen[q] < chosen[w],
        forall|q: int| 0 <= q < chosen.len() ==> !placed0[#[trigger] chosen[q] as int]
            && deps_within(items, ids[chosen[q] as int]@, p0),
        forall|u: int| 0 <= u < ids.len() && !placed0[u] && #[trigger] deps_within(items, ids[u]@, p0)
            ==> exists|q: int| 0 <= q < chosen.len() && chosen[q] == u,
        new_levels.len() == k + 1,
        forall|l: int| 0 <= l < k ==> new_levels[l] == old_levels[l],
        new_levels[k as int]@.len() == chosen.len(),
        forall|q: int| 0 <= q < chosen.len() ==> #[trigger] new_levels[k as int]@[q]@ == ids[chosen[q] as int]@,
        forall|u: int| 0 <= u < ids.len() ==> (placed1[u] <==> (placed0[u]
            || exists|w: int| 0 <= w < chosen.len() && chosen[w] == u)),
        forall|y: Seq<char>| #[trigger] p1.contains(y) <==> (p0.contains(y)
            || exists|w: int| 0 <= w < chosen.len() && ids[chosen[w] as int]@ == y),
    ensures
        forall|t: int| 0 <= t < ids.len() ==> (placed1[t] <==> p1.contains(#[trigger] ids[t]@)),
        forall|y: Seq<char>| #[trigger] p1.contains(y) <==> ready_by(items, y, k),
        exact_levels_so_far(items, new_levels),
        forall|y: Seq<char>| #[trigger] p1.contains(y) ==> placed_in(new_levels, y),
{
    assert forall|t: int| 0 <= t < ids.len() implies (placed1[t] <==> p1.contains(#[trigger] ids[t]@)) by {
        if p1.contains(ids[t]@) && !p0.contains(ids[t]@) {
            let w = choose|w: int| 0 <= w < chosen.len() && ids[chosen[w] as int]@ == ids[t]@;
            if chosen[w] != t {
                if chosen[w] < t {
                    assert(ids[chosen[w] as int]@ != ids[t]@);
                } else {
                    assert(ids[t]@ != ids[chosen[w] as int]@);
                }
            }
        }
        if placed1[t] && !placed0[t] {
            let w = choose|w: int| 0 <= w < chosen.len() && chosen[w] == t;
            assert(ids[chosen[w] as int]@ == ids[t]@);
        }
    }
    assert forall|y: Seq<char>| #[trigger] p1.contains(y) <==> ready_by(items, y, k) by {
        if p1.contains(y) {
            if p0.contains(y) {
                lemma_ready_mono(items, y, (k - 1) as nat, k);
            } else {
                let w = choose|w: int| 0 <= w < chosen.len() && ids[chosen[w] as int]@ == y;
                assert(listed(ids, y));
                lemma_round(items, p0, k, y);
            }
        }
        if ready_by(items, y, k) {
            assert(has_id(items, y));
            assert(listed(ids, y));
            let u = choose|u: int| 0 <= u < ids.len() && ids[u]@ == y;
            if !p0.contains(y) {
                lemma_round(items, p0, k, y);
                assert(!placed0[u]);
                assert(deps_within(items, ids[u]@, p0));
                let q = choose|q: int| 0 <= q < chosen.len() && chosen[q] == u;
                assert(ids[chosen[q] as int]@ == y);
            }
        }
    }
    assert forall|l: int, p: int| 0 <= l < new_levels.len() && 0 <= p < new_levels[l]@.len()
        implies in_level(items, #[trigger] new_levels[l]@[p]@, l as nat) by {
        if l < k {
            assert(new_levels[l] == old_levels[l]);
        } else {
            let y = new_levels[l]@[p]@;
            assert(y == ids[chosen[p] as int]@);
            assert(listed(ids, y));
            lemma_round(items, p0, k, y);
            assert(!placed0[chosen[p] as int]);
            assert(!p0.contains(y));
        }
    }
    assert forall|l: int, p: int, q: int| 0 <= l < new_levels.len() && 0 <= p < q < new_levels[l]@.len()
        implies #[trigger] new_levels[l]@[p]@ != #[trigger] new_levels[l]@[q]@ by {
        if l < k {
            assert(new_levels[l] == old_levels[l]);
        } else {
            assert(new_levels[l]@[p]@ == ids[chosen[p] as int]@);
            assert(new_levels[l]@[q]@ == ids[chosen[q] as int]@);
            assert(chosen[p] < chosen[q]);
        }
    }
    assert forall|l: int| 0 <= l < new_levels.len() implies #[trigger] new_levels[l]@.len() > 0 by {
        if l < k {
            assert(new_levels[l] == old_levels[l]);
        }
    }
    assert forall|y: Seq<char>| #[trigger] p1.contains(y) implies placed_in(new_levels, y) by {
        if p0.contains(y) {
            let (l, p) = choose|l: int, p: int| 0 <= l < old_levels.len() && 0 <= p < old_levels[l]@.len()
                && old_levels[l]@[p]@ == y;
            assert(new_levels[l] == old_levels[l]);
        } else {
            let w = choose|w: int| 0 <= w < chosen.len() && ids[chosen[w] as int]@ == y;
            assert(new_levels[k as int]@[w]@ == y);
        }
    }
}

/// Topological sort into levels for parallel execution.
///
/// Level 0 holds the items without dependencies, level `n` the items whose
/// dependencies all lie in earlier levels (and one of them in level `n - 1`).
/// Items sharing an identifier are one item with all their dependencies.
/// Fails when some item can never run: a cycle, or a dependency on an item
/// that does not exist.  Within a level, items come in order of first
/// appearance.
#[verifier::loop_isolation(false)]
pub fn topological_levels(items: &[WorkItem]) -> (r: Result<Vec<Vec<String>>, WorkflowError>)
    ensures
        r is Ok <==> (forall|i: int| 0 <= i < items@.len() ==> schedulable(items@, #[trigger] items@[i].id@)),
        r matches Ok(levels) ==> exact_levels(items@, levels@),
        r matches Ok(levels) ==> forall|l: int, p: int, q: int|
            0 <= l < levels@.len() && 0 <= p < q < levels@[l]@.len()
                ==> first_seen_before(items@, #[trigger] levels@[l]@[p]@, #[trigger] levels@[l]@[q]@),
{
    let ids = collect_ids(items);
    let mut placed: Vec<bool> = Vec::new();
    let mut t0: usize = 0;
    while t0 < ids.len()
        invariant
            t0 <= ids.len(),
            placed.len() == t0,
            forall|t: int| 0 <= t < t0 ==> !placed[t],
        decreases ids.len() - t0,
    {
        placed.push(false);
        t0 = t0 + 1;
    }
    proof {
        lemma_count_all_false(placed@);
    }
    let ghost mut pset: Set<Seq<char>> = Set::empty();
    let mut levels: Vec<Vec<String>> = Vec::new();
    let mut processed: usize = 0;
    loop
        invariant
            placed.len() == ids.len(),
            forall|t: int| 0 <= t < ids.len() ==> (placed[t] <==> pset.contains(#[trigger] ids[t]@)),
            forall|y: Seq<char>| #[trigger] pset.contains(y)
                <==> (levels.len() > 0 && ready_by(items@, y, (levels.len() - 1) as nat)),
            processed == count_true(placed@),
            levels.len() <= processed,
            exact_levels_so_far(items@, levels@),
            forall|l: int, p: int, q: int| 0 <= l < levels@.len() && 0 <= p < q < levels@[l]@.len()
                ==> first_seen_before(items@, #[trigger] levels@[l]@[p]@, #[trigger] levels@[l]@[q]@),
            forall|y: Seq<char>| #[trigger] pset.contains(y) ==> placed_in(levels@, y),
            forall|t: int, u: int| 0 <= t < u < ids.len() ==> ids[t]@ != ids[u]@,
            forall|x: Seq<char>| has_id(items@, x) <==> listed(ids@, x),
        decreases ids.len() - processed,
    {
        proof {
            lemma_count_true_bound(placed@);
        }
        let ghost k = levels.len() as nat;
        // The items whose dependencies are all placed.
        let mut level: Vec<String> = Vec::new();
        let mut chosen: Vec<usize> = Vec::new();
        let mut t: usize = 0;
        while t < ids.len()
            invariant
                t <= ids.len(),
                level.len() == chosen.len(),
                forall|q: int| 0 <= q < chosen.len() ==> #[trigger] chosen[q] < t,
                forall|q: int, w: int| 0 <= q < w < chosen.len() ==> chosen[q] < chosen[w],
                forall|q: int| 0 <= q < chosen.len() ==> #[trigger] level[q]@ == ids[chosen[q] as int]@,
                forall|q: int| 0 <= q < chosen.len() ==> !placed[#[trigger] chosen[q] as int]
                    && deps_within(items@, ids[chosen[q] as int]@, pset),
                forall|u: int| 0 <= u < t && !placed[u] && #[trigger] deps_within(items@, ids[u]@, pset)
                    ==> exists|q: int| 0 <= q < chosen.len() && chosen[q] == u,
            decreases ids.len() - t,
        {
            let ghost pre_chosen = chosen@;
            if !placed[t] && deps_all_placed(items, &ids[t], &ids, &placed, Ghost(pset)) {
                level.push(ids[t].clone());
                chosen.push(t);
            }
            proof {
                assert forall|u: int| 0 <= u < t + 1 && !placed[u] && #[trigger] deps_within(items@, ids[u]@, pset)
                    implies exists|q: int| 0 <= q < chosen.len() && chosen[q] == u by {
                    if u == t {
                        assert(chosen[chosen.len() - 1] == t);
                    } else {
                        let q = choose|q: int| 0 <= q < pre_chosen.len() && pre_chosen[q] == u;
                        assert(chosen[q] == pre_chosen[q]);
                    }
                }
            }
            t = t + 1;
        }
        if level.len() == 0 {
            proof {
                assert forall|u: int| 0 <= u < ids.len() implies !(!placed[u]
                    && #[trigger] deps_within(items@, ids[u]@, pset)) by {
                }
            }
            break;
        }
        // Place the level.
        let ghost p0 = pset;
        let ghost placed0 = placed@;
        let mut q: usize = 0;
        while q < chosen.len()
            invariant
                q <= chosen.len(),
                placed.len() == ids.len(),
                forall|u: int| 0 <= u < ids.len() ==> (placed[u] <==> (placed0[u]
                    || exists|w: int| 0 <= w < q && chosen[w] == u)),
                forall|y: Seq<char>| #[trigger] pset.contains(y) <==> (p0.contains(y)
                    || exists|w: int| 0 <= w < q && ids[chosen[w] as int]@ == y),
                processed == count_true(placed@),
                processed == count_true(placed0) + q,
            decreases chosen.len() - q,
        {
            let c = chosen[q];
            proof {
                assert(!placed[c as int]) by {
                    if placed[c as int] {
                        let w = choose|w: int| 0 <= w < q && chosen[w] == c;
                        assert(chosen[w] < chosen[q as int]);
                    }
                }
                lemma_count_true_set(placed@, c as int);
                lemma_count_true_bound(placed@.update(c as int, true));
            }
            placed.set(c, true);
            processed = processed + 1;
            proof {
                pset = pset.insert(ids[c as int]@);
                assert forall|u: int| 0 <= u < ids.len() implies (placed[u] <==> (placed0[u]
                    || exists|w: int| 0 <= w < q + 1 && chosen[w] == u)) by {
                    if u == c {
                        assert(chosen[q as int] == u);
                    }
                }
                assert forall|y: Seq<char>| #[trigger] pset.contains(y) <==> (p0.contains(y)
                    || exists|w: int| 0 <= w < q + 1 && ids[chosen[w] as int]@ == y) by {
                    if y == ids[c as int]@ {
                        assert(ids[chosen[q as int] as int]@ == y);
                    }
                }
            }
            q = q + 1;
        }
        proof {
            lemma_count_true_bound(placed@);
        }
        let ghost old_levels = levels@;
        let ghost new_level = level@;
        proof {
            assert forall|p: int, q: int| 0 <= p < q < new_level.len()
                implies first_seen_before(items@, #[trigger] new_level[p]@, #[trigger] new_level[q]@) by {
                assert(chosen[p] < chosen[q]);
                assert(new_level[p]@ == ids[chosen[p] as int]@);
                assert(new_level[q]@ == ids[chosen[q] as int]@);
                assert(first_seen_before(items@, ids[chosen[p] as int]@, ids[chosen[q] as int]@));
            }
        }
        levels.push(level);
        proof {
            assert forall|l: int, p: int, q: int| 0 <= l < levels@.len() && 0 <= p < q < levels@[l]@.len()
                implies first_seen_before(items@, #[trigger] levels@[l]@[p]@, #[trigger] levels@[l]@[q]@) by {
                if l < old_levels.len() {
                    assert(levels@[l] == old_levels[l]);
                } else {
                    assert(levels@[l]@ == new_level);
                }
            }
            lemma_round_step(items@, ids@, placed0, placed@, p0, pset, chosen@, old_levels, levels@, k);
        }
    }
    proof {
        lemma_count_true_bound(placed@);
    }
    if processed != ids.len() {
        proof {
            let u = choose|u: int| 0 <= u < placed.len() && !placed[u];
            let y = ids[u]@;
            assert(listed(ids@, y));
            let i = choose|i: int| 0 <= i < items@.len() && items@[i].id@ == y;
            if schedulable(items@, y) {
                let n = choose|n: nat| #[trigger] ready_by(items@, y, n);
                lemma_stop_closes(items@, ids@, placed@, pset, levels.len() as nat);
                lemma_closed(items@, pset, levels.len() as nat, y, n);
            }
            assert(!schedulable(items@, items@[i].id@));
        }
        Err(WorkflowError::CyclicDependency)
    } else {
        proof {
            assert forall|i: int| 0 <= i < items@.len() implies schedulable(items@, #[trigger] items@[i].id@) by {
                let y = items@[i].id@;
                assert(has_id(items@, y));
                let u = choose|u: int| 0 <= u < ids.len() && ids[u]@ == y;
                assert(placed[u]);
                assert(ready_by(items@, y, (levels.len() - 1) as nat));
            }
            assert forall|x: Seq<char>| has_id(items@, x) implies placed_in(levels@, x) by {
                let u = choose|u: int| 0 <= u < ids.len() && ids[u]@ == x;
                assert(placed[u]);
            }
        }
        Ok(levels)
    }
}

} // verus!

verus! {

/// `tokio::sync::Semaphore`, held by the executor to bound concurrency.
#[verifier::external_type_specification]
#[verifier::external_body]
pub struct ExSemaphore(Semaphore);

/// `Semaphore::new`: a semaphore with `permits` permits, together with a
/// ghost copy of the permit count it was created with.  It panics above
/// `Semaphore::MAX_PERMITS` (`usize::MAX >> 3`), which `requires` excludes.
/// How many permits are free later depends on the tasks holding them, so
/// nothing is stated about that.
#[verifier::external_body]
fn new_semaphore(permits: usize) -> (r: (Semaphore, Ghost<usize>))
    requires
        permits <= usize::MAX >> 3,
    ensures
        r.1@ == permits,
{
    (Semaphore::new(permits), Ghost(permits))
}

/// Dependency-aware parallel executor for agent workflows.
///
/// Tasks within one group run concurrently, groups run one after another,
/// and a semaphore limits the number of tasks running at once.
pub struct ParallelWorkflowExecutor {
    max_concurrency: usize,
    semaphore: Arc<Semaphore>,
    /// The number of permits the semaphore was created with.
    permits: Ghost<usize>,
    stats: ExecutorStats,
}

impl ParallelWorkflowExecutor {
    /// The concurrency limit.
    pub closed spec fn limit(&self) -> usize {
        self.max_concurrency
    }

    /// The semaphore that bounds concurrency.
    pub closed spec fn gate(&self) -> Arc<Semaphore> {
        self.semaphore
    }

    /// The number of permits the semaphore was created with.
    pub closed spec fn gate_permits(&self) -> usize {
        self.permits@
    }

    /// The statistics counters.
    pub closed spec fn counters(&self) -> ExecutorStatsSnapshot {
        ExecutorStatsSnapshot {
            total_tasks: self.stats.total_tasks,
            parallel_groups: self.stats.parallel_groups,
            sequential_fallbacks: self.stats.sequential_fallbacks,
            total_wall_time_us: self.stats.total_wall_time_us,
            total_cpu_time_us: self.stats.total_cpu_time_us,
        }
    }

    /// Create a new executor with the given concurrency limit (at least 1).
    pub fn new(max_concurrency: usize) -> (r: Self)
        requires
            max_concurrency <= usize::MAX >> 3,
        ensures
            r.limit() == if max_concurrency == 0 { 1 } else { max_concurrency },
            r.gate_permits() == r.limit(),
            r.counters() == (ExecutorStatsSnapshot {
                total_tasks: 0, parallel_groups: 0, sequential_fallbacks: 0,
                total_wall_time_us: 0, total_cpu_time_us: 0,
            }),
    {
        let max = if max_concurrency < 1 { 1 } else { max_concurrency };
        assert(forall|x: usize| x >= 8 ==> #[trigger] (x >> 3usize) >= 1) by (bit_vector);
        assert(usize::MAX >> 3usize >= 1);
        let (semaphore, permits) = new_semaphore(max);
        ParallelWorkflowExecutor {
            max_concurrency: max,
            semaphore: Arc::new(semaphore),
            permits,
            stats: ExecutorStats::default(),
        }
    }

    /// Maximum concurrency level.
    pub fn max_concurrency(&self) -> (r: usize)
        ensures
            r == self.limit(),
    {
        self.max_concurrency
    }

    /// The semaphore that bounds how many tasks run at once.
    pub fn semaphore(&self) -> (r: &Arc<Semaphore>)
        ensures
            *r == self.gate(),
    {
        &self.semaphore
    }

    /// Account for one executed group of `task_count` tasks that took
    /// `wall_time_us` microseconds in all and `cpu_time_us` microseconds
    /// summed over its tasks.  An empty group is not counted; a group of one
    /// task counts as a sequential fallback, a larger one as a parallel group.
    pub fn record_group(&mut self, task_count: usize, wall_time_us: u64, cpu_time_us: u64)
        ensures
            final(self).limit() == old(self).limit(),
            final(self).gate() == old(self).gate(),
            final(self).gate_permits() == old(self).gate_permits(),
            task_count == 0 ==> final(self).counters() == old(self).counters(),
            task_count > 0 ==> final(self).counters() == (ExecutorStatsSnapshot {
                total_tasks: wrap_add(old(self).counters().total_tasks, task_count as nat),
                parallel_groups: if task_count > 1 {
                    wrap_add(old(self).counters().parallel_groups, 1)
                } else {
                    old(self).counters().parallel_groups
                },
                sequential_fallbacks: if task_count == 1 {
                    wrap_add(old(self).counters().sequential_fallbacks, 1)
                } else {
                    old(self).counters().sequential_fallbacks
                },
                total_wall_time_us: wrap_add(old(self).counters().total_wall_time_us, wall_time_us as nat),
                total_cpu_time_us: wrap_add(old(self).counters().total_cpu_time_us, cpu_time_us as nat),
            }),
    {
        if task_count == 0 {
            return;
        }
        proof {
            crate::buffer_model::lemma_wrapping_add_is_wrap(self.stats.total_tasks, task_count as u64);
            crate::buffer_model::lemma_wrapping_add_is_wrap(self.stats.parallel_groups, 1);
            crate::buffer_model::lemma_wrapping_add_is_wrap(self.stats.sequential_fallbacks, 1);
            crate::buffer_model::lemma_wrapping_add_is_wrap(self.stats.total_wall_time_us, wall_time_us);
            crate::buffer_model::lemma_wrapping_add_is_wrap(self.stats.total_cpu_time_us, cpu_time_us);
        }
        self.stats.total_tasks = self.stats.total_tasks.wrapping_add(task_count as u64);
        if task_count == 1 {
            self.stats.sequential_fallbacks = self.stats.sequential_fallbacks.wrapping_add(1);
        } else {
            self.stats.parallel_groups = self.stats.parallel_groups.wrapping_add(1);
        }
        self.stats.total_wall_time_us = self.stats.total_wall_time_us.wrapping_add(wall_time_us);
        self.stats.total_cpu_time_us = self.stats.total_cpu_time_us.wrapping_add(cpu_time_us);
    }

    /// Get stats snapshot.
    pub fn stats(&self) -> (r: ExecutorStatsSnapshot)
        ensures
            r == self.counters(),
    {
        self.stats.snapshot()
    }
}

} // verus!
