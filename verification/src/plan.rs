//! Decisions of the module registry's build and lookup paths: the build
//! order, what to do with each module during the eager build phase, where a
//! capability lookup is answered from, and the order in which lifecycle
//! callbacks run. The registry applies these decisions to its type-erased
//! state.

use std::any::TypeId;
use vstd::prelude::*;

use crate::error::TraitKitError;
use crate::graph::{DependencyGraph, GraphError};
use crate::typeid::type_id_eq;

verus! {

/// The build order of a registry's modules: the validated topological
/// order, or the graph's error as a [`TraitKitError`].
pub fn build_order(graph: &DependencyGraph) -> (r: Result<Vec<TypeId>, TraitKitError>)
    requires
        graph.wf(),
    ensures
        graph.has_missing() <==> r matches Err(TraitKitError::DependencyMissing { .. }),
        r matches Err(TraitKitError::DependencyMissing { module, missing }) ==> exists|i: int, k: int|
            #![trigger graph.missing_at(i, k)]
            graph.first_missing_at(i, k) && module == graph@[i].name && missing == graph.deps(i)[k].0,
        r matches Ok(s) ==> graph.is_topo_order(s@),
        r matches Err(TraitKitError::CycleDetected { cycle }) ==> graph.names_cycle(cycle@),
        !graph.has_missing() ==> (r is Ok <==> graph.has_topo_order()),
        !graph.has_missing() && (exists|p: Seq<int>| #[trigger] graph.is_cycle_path(p)) ==> r matches Err(
            TraitKitError::CycleDetected { .. },
        ),
        r is Ok || r matches Err(TraitKitError::DependencyMissing { .. }) || r matches Err(
            TraitKitError::CycleDetected { .. },
        ),
{
    match graph.validate() {
        Ok(sorted) => Ok(sorted),
        Err(GraphError::DependencyMissing { module, missing }) => Err(
            TraitKitError::DependencyMissing { module, missing },
        ),
        Err(GraphError::CycleDetected { cycle }) => Err(TraitKitError::CycleDetected { cycle }),
    }
}

/// What the eager build phase does with one module.
#[derive(Debug, Clone, Copy, PartialEq, Eq, Structural)]
pub enum EagerStep {
    /// Store the pre-built override; the build function is not run.
    UseOverride,
    /// Leave the module to be built on first lookup.
    Defer,
    /// Run the module's build function and store the result.
    Build,
    /// Nothing to do (no override, not lazy, no build function).
    Skip,
}

/// Priority of the eager build phase: an override wins, then a lazy
/// registration, then a build function.
pub fn eager_step(has_override: bool, is_lazy: bool, has_builder: bool) -> (r: EagerStep)
    ensures
        r == (if has_override {
            EagerStep::UseOverride
        } else if is_lazy {
            EagerStep::Defer
        } else if has_builder {
            EagerStep::Build
        } else {
            EagerStep::Skip
        }),
{
    if has_override {
        EagerStep::UseOverride
    } else if is_lazy {
        EagerStep::Defer
    } else if has_builder {
        EagerStep::Build
    } else {
        EagerStep::Skip
    }
}

/// What a store lookup found under a key.
#[derive(Debug, Clone, Copy, PartialEq, Eq, Structural)]
pub enum Lookup {
    /// A value of the requested type.
    Found,
    /// A value of another type.
    WrongType,
    /// No value.
    Absent,
}

/// Where a capability lookup is answered from.
#[derive(Debug, Clone, Copy, PartialEq, Eq, Structural)]
pub enum RequireStep {
    /// The eagerly built (or overridden) capability.
    Eager,
    /// The cached result of an earlier lazy build.
    Cached,
    /// Run the lazy builder now, cache and return its result.
    BuildLazily,
    /// A stored value has another type than requested.
    TypeMismatch,
    /// Nothing is registered under the key.
    Missing,
}

/// Lookup priority: eager capabilities, then the lazy cache, then a lazy
/// build; a value of the wrong type in either store is a type mismatch.
pub fn require_step(eager: Lookup, cached: Lookup, has_lazy_builder: bool) -> (r: RequireStep)
    ensures
        r == (match eager {
            Lookup::Found => RequireStep::Eager,
            Lookup::WrongType => RequireStep::TypeMismatch,
            Lookup::Absent => match cached {
                Lookup::Found => RequireStep::Cached,
                Lookup::WrongType => RequireStep::TypeMismatch,
                Lookup::Absent => if has_lazy_builder {
                    RequireStep::BuildLazily
                } else {
                    RequireStep::Missing
                },
            },
        }),
{
    match eager {
        Lookup::Found => RequireStep::Eager,
        Lookup::WrongType => RequireStep::TypeMismatch,
        Lookup::Absent => match cached {
            Lookup::Found => RequireStep::Cached,
            Lookup::WrongType => RequireStep::TypeMismatch,
            Lookup::Absent => {
                if has_lazy_builder {
                    RequireStep::BuildLazily
                } else {
                    RequireStep::Missing
                }
            },
        },
    }
}

/// Position of the first occurrence of `t` in `s`, or `s.len()` when absent
/// (absent identifiers rank after every present one).
pub open spec fn topo_rank(s: Seq<TypeId>, t: TypeId) -> nat
    decreases s.len(),
{
    if s.len() == 0 {
        0
    } else if s[0] == t {
        0
    } else {
        1 + topo_rank(s.skip(1), t)
    }
}

/// Indices `i < n` with `ranks[i] == r`, in increasing order.
pub open spec fn indices_with_rank(ranks: Seq<nat>, r: nat, n: nat) -> Seq<usize>
    decreases n,
{
    if n == 0 {
        Seq::empty()
    } else if ranks[n - 1] == r {
        indices_with_rank(ranks, r, (n - 1) as nat).push((n - 1) as usize)
    } else {
        indices_with_rank(ranks, r, (n - 1) as nat)
    }
}

/// All indices of `ranks`, ranks `0..m` in turn, each rank in increasing
/// index order: a stable sort of the indices by rank.
pub open spec fn rank_order(ranks: Seq<nat>, m: nat) -> Seq<usize>
    decreases m,
{
    if m == 0 {
        Seq::empty()
    } else {
        rank_order(ranks, (m - 1) as nat) + indices_with_rank(ranks, (m - 1) as nat, ranks.len())
    }
}

/// Rank of `t` in `sorted`.
fn rank_of(sorted: &[TypeId], t: &TypeId) -> (r: usize)
    ensures
        r == topo_rank(sorted@, *t),
        r <= sorted@.len(),
{
    let mut i: usize = 0;
    proof {
        assert(sorted@.skip(0) =~= sorted@);
        lemma_topo_rank_bound(sorted@, *t);
    }
    while i < sorted.len()
        invariant
            i <= sorted@.len(),
            topo_rank(sorted@, *t) == i + topo_rank(sorted@.skip(i as int), *t),
            topo_rank(sorted@.skip(i as int), *t) <= sorted@.len() - i,
        decreases sorted@.len() - i,
    {
        proof {
            assert(sorted@.skip(i as int).skip(1) =~= sorted@.skip(i + 1));
            lemma_topo_rank_bound(sorted@.skip(i + 1), *t);
        }
        if type_id_eq(&sorted[i], t) {
            return i;
        }
        i += 1;
    }
    i
}

proof fn lemma_topo_rank_bound(s: Seq<TypeId>, t: TypeId)
    ensures
        topo_rank(s, t) <= s.len(),
    decreases s.len(),
{
    if s.len() > 0 {
        lemma_topo_rank_bound(s.skip(1), t);
    }
}

/// Order in which shutdown callbacks registered for `ids` run backwards:
/// the indices of `ids` stably sorted by the topological rank of each
/// identifier in `sorted`, identifiers absent from `sorted` last. Walking
/// the result in reverse shuts dependents down before their dependencies.
pub fn topo_callback_order(sorted: &[TypeId], ids: &[TypeId]) -> (r: Vec<usize>)
    ensures
        r@ == rank_order(
            Seq::new(ids@.len(), |i: int| topo_rank(sorted@, ids@[i])),
            (sorted@.len() + 1) as nat,
        ),
{
    let n = ids.len();
    let ghost rk = Seq::new(ids@.len(), |i: int| topo_rank(sorted@, ids@[i]));
    let mut ranks: Vec<usize> = Vec::new();
    let mut i: usize = 0;
    while i < n
        invariant
            n == ids@.len(),
            i <= n,
            ranks@.len() == i,
            rk == Seq::new(ids@.len(), |j: int| topo_rank(sorted@, ids@[j])),
            forall|j: int| 0 <= j < i ==> ranks@[j] as nat == rk[j] && ranks@[j] <= sorted@.len(),
        decreases n - i,
    {
        let r = rank_of(sorted, &ids[i]);
        ranks.push(r);
        i += 1;
    }
    let m = sorted.len();
    let mut out: Vec<usize> = Vec::new();
    let mut r: usize = 0;
    loop
        invariant_except_break
            out@ == rank_order(rk, r as nat),
        invariant
            n == ids@.len(),
            m == sorted@.len(),
            r <= m,
            ranks@.len() == n,
            rk.len() == n,
            forall|j: int| 0 <= j < n ==> ranks@[j] as nat == rk[j],
        ensures
            out@ == rank_order(rk, (m + 1) as nat),
        decreases m - r,
    {
        push_rank(&mut out, &ranks, r, Ghost(rk));
        if r == m {
            break;
        }
        r += 1;
    }
    out
}

/// Appends the indices of `ranks` holding `r`, in increasing order.
fn push_rank(out: &mut Vec<usize>, ranks: &Vec<usize>, r: usize, Ghost(rk): Ghost<Seq<nat>>)
    requires
        rk.len() == ranks@.len(),
        forall|q: int| 0 <= q < ranks@.len() ==> ranks@[q] as nat == rk[q],
    ensures
        final(out)@ == old(out)@ + indices_with_rank(rk, r as nat, ranks@.len() as nat),
{
    let n = ranks.len();
    let mut j: usize = 0;
    while j < n
        invariant
            n == ranks@.len(),
            j <= n,
            rk.len() == n,
            forall|q: int| 0 <= q < n ==> ranks@[q] as nat == rk[q],
            out@ == old(out)@ + indices_with_rank(rk, r as nat, j as nat),
        decreases n - j,
    {
        if ranks[j] == r {
            out.push(j);
        }
        j += 1;
    }
}

proof fn lemma_indices_with_rank(ranks: Seq<nat>, r: nat, n: nat)
    requires
        n <= ranks.len(),
        ranks.len() <= usize::MAX,
    ensures
        forall|a: int| 0 <= a < indices_with_rank(ranks, r, n).len() ==> {
            let x = #[trigger] indices_with_rank(ranks, r, n)[a];
            x < n && ranks[x as int] == r
        },
        forall|i: int| #![trigger ranks[i]] 0 <= i < n && ranks[i] == r ==> indices_with_rank(ranks, r, n).contains(
            i as usize,
        ),
        forall|a: int, b: int|
            0 <= a < b < indices_with_rank(ranks, r, n).len() ==> #[trigger] indices_with_rank(
                ranks,
                r,
                n,
            )[a] < #[trigger] indices_with_rank(ranks, r, n)[b],
    decreases n,
{
    if n > 0 {
        lemma_indices_with_rank(ranks, r, (n - 1) as nat);
        let p = indices_with_rank(ranks, r, (n - 1) as nat);
        let q = indices_with_rank(ranks, r, n);
        if ranks[n - 1] == r {
            assert(q == p.push((n - 1) as usize));
            assert forall|a: int| 0 <= a < q.len() implies {
                let x = #[trigger] q[a];
                x < n && ranks[x as int] == r
            } by {
                if a < p.len() {
                    assert(q[a] == p[a]);
                }
            }
            assert forall|a: int, b: int| 0 <= a < b < q.len() implies #[trigger] q[a] < #[trigger] q[b] by {
                assert(q[a] == p[a]);
                if b < p.len() {
                    assert(q[b] == p[b]);
                }
            }
            assert forall|i: int| #![trigger ranks[i]] 0 <= i < n && ranks[i] == r implies q.contains(i as usize) by {
                if i < n - 1 {
                    assert(p.contains(i as usize));
                    let w = choose|w: int| 0 <= w < p.len() && p[w] == i as usize;
                    assert(q[w] == i as usize);
                } else {
                    assert(q[q.len() - 1] == i as usize);
                }
            }
        } else {
            assert(q == p);
            assert forall|i: int| #![trigger ranks[i]] 0 <= i < n && ranks[i] == r implies q.contains(i as usize) by {
                if i < n - 1 {
                    assert(p.contains(i as usize));
                }
            }
        }
    }
}

/// The order of [`topo_callback_order`] is a permutation of the indices,
/// sorted by rank, and stable: each index occurs exactly once, ranks never
/// decrease along the order, and indices of equal rank keep their relative
/// order. Run in reverse, callbacks of later-ranked (dependent) modules
/// therefore come before those of earlier-ranked ones.
pub proof fn lemma_rank_order_is_stable_sort(ranks: Seq<nat>, m: nat)
    requires
        ranks.len() <= usize::MAX,
        forall|i: int| 0 <= i < ranks.len() ==> #[trigger] ranks[i] < m,
    ensures
        rank_order(ranks, m).len() == ranks.len(),
        forall|i: usize| (i as int) < ranks.len() ==> #[trigger] rank_order(ranks, m).contains(i),
        forall|a: int, b: int|
            0 <= a < b < rank_order(ranks, m).len() ==> {
                let x = #[trigger] rank_order(ranks, m)[a];
                let y = #[trigger] rank_order(ranks, m)[b];
                &&& x < ranks.len()
                &&& y < ranks.len()
                &&& ranks[x as int] <= ranks[y as int]
                &&& (ranks[x as int] == ranks[y as int] ==> x < y)
            },
{
    lemma_rank_order_prefix(ranks, m);
    lemma_rank_order_len(ranks, m);
    let r = rank_order(ranks, m);
    assert forall|i: usize| (i as int) < ranks.len() implies #[trigger] r.contains(i) by {
        assert(ranks[i as int] < m);
    }
}

proof fn lemma_rank_order_prefix(ranks: Seq<nat>, m: nat)
    requires
        ranks.len() <= usize::MAX,
    ensures
        forall|a: int| 0 <= a < rank_order(ranks, m).len() ==> {
            let x = #[trigger] rank_order(ranks, m)[a];
            x < ranks.len() && ranks[x as int] < m
        },
        forall|i: int| #![trigger ranks[i]] 0 <= i < ranks.len() && ranks[i] < m ==> rank_order(ranks, m).contains(
            i as usize,
        ),
        forall|a: int, b: int|
            0 <= a < b < rank_order(ranks, m).len() ==> {
                let x = #[trigger] rank_order(ranks, m)[a];
                let y = #[trigger] rank_order(ranks, m)[b];
                &&& x < ranks.len()
                &&& y < ranks.len()
                &&& ranks[x as int] <= ranks[y as int]
                &&& (ranks[x as int] == ranks[y as int] ==> x < y)
            },
    decreases m,
{
    if m > 0 {
        lemma_rank_order_prefix(ranks, (m - 1) as nat);
        let p = rank_order(ranks, (m - 1) as nat);
        let t = indices_with_rank(ranks, (m - 1) as nat, ranks.len());
        lemma_indices_with_rank(ranks, (m - 1) as nat, ranks.len());
        let q = p + t;
        assert forall|a: int| 0 <= a < q.len() implies {
            let x = #[trigger] q[a];
            x < ranks.len() && ranks[x as int] < m
        } by {
            if a < p.len() {
                assert(q[a] == p[a]);
            } else {
                assert(q[a] == t[a - p.len()]);
            }
        }
        assert forall|i: int| #![trigger ranks[i]] 0 <= i < ranks.len() && ranks[i] < m implies q.contains(i as usize) by {
            if ranks[i] < m - 1 {
                let w = choose|w: int| 0 <= w < p.len() && p[w] == i as usize;
                assert(q[w] == i as usize);
            } else {
                assert(t.contains(i as usize));
                let w = choose|w: int| 0 <= w < t.len() && t[w] == i as usize;
                assert(q[p.len() + w] == i as usize);
            }
        }
        assert forall|a: int, b: int| 0 <= a < b < q.len() implies {
            let x = #[trigger] q[a];
            let y = #[trigger] q[b];
            &&& x < ranks.len()
            &&& y < ranks.len()
            &&& ranks[x as int] <= ranks[y as int]
            &&& (ranks[x as int] == ranks[y as int] ==> x < y)
        } by {
            if b < p.len() {
                assert(q[a] == p[a] && q[b] == p[b]);
            } else if a < p.len() {
                assert(q[a] == p[a] && q[b] == t[b - p.len()]);
                assert(ranks[p[a] as int] < m - 1);
            } else {
                assert(q[a] == t[a - p.len()] && q[b] == t[b - p.len()]);
            }
        }
    }
}

proof fn lemma_rank_order_len(ranks: Seq<nat>, m: nat)
    requires
        ranks.len() <= usize::MAX,
        forall|i: int| 0 <= i < ranks.len() ==> #[trigger] ranks[i] < m,
    ensures
        rank_order(ranks, m).len() == ranks.len(),
{
    lemma_rank_order_prefix(ranks, m);
    let r = rank_order(ranks, m);
    // Every index occurs, and occurrences are distinct (ranks strictly
    // ordered or indices strictly increasing), so the order is a
    // duplicate-free sequence over `0..ranks.len()` covering all of it.
    assert(r.no_duplicates()) by {
        assert forall|a: int, b: int| 0 <= a < r.len() && 0 <= b < r.len() && a != b implies r[a] != r[b] by {
            if a < b {
                let x = r[a];
                let y = r[b];
                assert(ranks[x as int] <= ranks[y as int]);
            } else {
                let x = r[b];
                let y = r[a];
                assert(ranks[x as int] <= ranks[y as int]);
            }
        }
    }
    let dom = Set::new(|i: usize| (i as int) < ranks.len());
    assert(r.to_set() =~= dom) by {
        assert forall|i: usize| r.to_set().contains(i) <==> dom.contains(i) by {
            if (i as int) < ranks.len() {
                assert(ranks[i as int] < m);
                assert(r.contains(i));
            }
            if r.to_set().contains(i) {
                let w = choose|w: int| 0 <= w < r.len() && r[w] == i;
                assert(r[w] < ranks.len());
            }
        }
    }
    r.unique_seq_to_set();
    assert(dom =~= Set::new(|i: usize| 0 <= i < ranks.len()));
    lemma_usize_range_len(ranks.len());
}

proof fn lemma_usize_range_len(n: nat)
    ensures
        Set::new(|i: usize| 0 <= i < n).finite(),
        Set::new(|i: usize| 0 <= i < n).len() == (if n <= usize::MAX + 1 { n } else { (usize::MAX + 1) as nat }),
    decreases n,
{
    if n == 0 {
        assert(Set::new(|i: usize| 0 <= i < n) =~= Set::<usize>::empty());
    } else {
        lemma_usize_range_len((n - 1) as nat);
        if n <= usize::MAX + 1 {
            assert(Set::new(|i: usize| 0 <= i < n) =~= Set::new(|i: usize| 0 <= i < n - 1).insert((n - 1) as usize));
        } else {
            assert(Set::new(|i: usize| 0 <= i < n) =~= Set::new(|i: usize| 0 <= i < n - 1));
        }
    }
}

/// Index of the last occurrence of `t` in `ids`, or `-1`.
pub open spec fn last_index(ids: Seq<TypeId>, t: TypeId) -> int
    decreases ids.len(),
{
    if ids.len() == 0 {
        -1
    } else if ids.last() == t {
        ids.len() - 1
    } else {
        last_index(ids.drop_last(), t)
    }
}

/// For the first `m` modules of `sorted`, in order, the index of the last
/// ready callback registered for the module, skipping modules without one.
pub open spec fn ready_indices(sorted: Seq<TypeId>, ids: Seq<TypeId>, m: nat) -> Seq<usize>
    decreases m,
{
    if m == 0 {
        Seq::empty()
    } else {
        let prev = ready_indices(sorted, ids, (m - 1) as nat);
        let k = last_index(ids, sorted[m - 1]);
        if k >= 0 {
            prev.push(k as usize)
        } else {
            prev
        }
    }
}

proof fn lemma_last_index_bound(ids: Seq<TypeId>, t: TypeId)
    ensures
        -1 <= last_index(ids, t) < ids.len(),
        last_index(ids, t) >= 0 ==> ids[last_index(ids, t)] == t,
    decreases ids.len(),
{
    if ids.len() > 0 {
        lemma_last_index_bound(ids.drop_last(), t);
    }
}

proof fn lemma_ready_indices_prefix(sorted: Seq<TypeId>, ids: Seq<TypeId>, m: nat)
    requires
        sorted.no_duplicates(),
        m <= sorted.len(),
        ids.len() <= usize::MAX,
    ensures
        ({
            let r = ready_indices(sorted, ids, m);
            &&& forall|i: int|
                0 <= i < r.len() ==> {
                    &&& (#[trigger] r[i]) < ids.len()
                    &&& last_index(ids, ids[r[i] as int]) == r[i]
                    &&& exists|p: int| 0 <= p < m && sorted[p] == ids[r[i] as int]
                }
            &&& forall|i: int, j: int, p: int, q: int|
                0 <= i < j < r.len() && 0 <= p < sorted.len() && 0 <= q < sorted.len() && #[trigger] sorted[p]
                    == ids[#[trigger] r[i] as int] && #[trigger] sorted[q] == ids[#[trigger] r[j] as int] ==> p < q
            &&& forall|p: int|
                0 <= p < m && last_index(ids, #[trigger] sorted[p]) >= 0 ==> r.contains(
                    last_index(ids, sorted[p]) as usize,
                )
        }),
    decreases m,
{
    if m > 0 {
        let prev = ready_indices(sorted, ids, (m - 1) as nat);
        lemma_ready_indices_prefix(sorted, ids, (m - 1) as nat);
        let k = last_index(ids, sorted[m - 1]);
        lemma_last_index_bound(ids, sorted[m - 1]);
        let r = ready_indices(sorted, ids, m);
        if k >= 0 {
            assert(r == prev.push(k as usize));
            assert(ids[k] == sorted[m - 1]);
            assert forall|i: int|
                0 <= i < r.len() implies {
                    &&& (#[trigger] r[i]) < ids.len()
                    &&& last_index(ids, ids[r[i] as int]) == r[i]
                    &&& exists|p: int| 0 <= p < m && sorted[p] == ids[r[i] as int]
                } by {
                if i < prev.len() {
                    assert(r[i] == prev[i]);
                } else {
                    assert(r[i] == k as usize);
                    assert(sorted[m - 1] == ids[r[i] as int]);
                }
            }
            assert forall|i: int, j: int, p: int, q: int|
                0 <= i < j < r.len() && 0 <= p < sorted.len() && 0 <= q < sorted.len() && #[trigger] sorted[p]
                    == ids[#[trigger] r[i] as int] && #[trigger] sorted[q] == ids[#[trigger] r[j] as int] implies p
                < q by {
                assert(r[i] == prev[i]);
                if j < prev.len() {
                    assert(r[j] == prev[j]);
                } else {
                    assert(r[j] == k as usize);
                    assert(sorted[q] == sorted[m - 1]);
                    assert(q == m - 1);
                    let p0 = choose|p0: int| 0 <= p0 < m - 1 && sorted[p0] == ids[prev[i] as int];
                    assert(sorted[p0] == sorted[p]);
                    assert(p0 == p);
                }
            }
            assert forall|p: int|
                0 <= p < m && last_index(ids, #[trigger] sorted[p]) >= 0 implies r.contains(
                    last_index(ids, sorted[p]) as usize,
                ) by {
                if p < m - 1 {
                    let w = choose|w: int| 0 <= w < prev.len() && prev[w] == last_index(ids, sorted[p]) as usize;
                    assert(r[w] == prev[w]);
                } else {
                    assert(r[r.len() - 1] == k as usize);
                }
            }
        } else {
            assert(r == prev);
            assert forall|i: int|
                0 <= i < r.len() implies {
                    &&& (#[trigger] r[i]) < ids.len()
                    &&& last_index(ids, ids[r[i] as int]) == r[i]
                    &&& exists|p: int| 0 <= p < m && sorted[p] == ids[r[i] as int]
                } by {
                let p0 = choose|p0: int| 0 <= p0 < m - 1 && sorted[p0] == ids[prev[i] as int];
                assert(0 <= p0 < m && sorted[p0] == ids[r[i] as int]);
            }
        }
    }
}

/// Ready callbacks run in the order of the build order: every index chosen
/// is the last callback registered for a module of `sorted`, the modules'
/// positions in `sorted` increase along the result, and every module of
/// `sorted` that has a callback gets its last one.
pub proof fn lemma_ready_order_follows_sorted(sorted: Seq<TypeId>, ids: Seq<TypeId>)
    requires
        sorted.no_duplicates(),
        ids.len() <= usize::MAX,
    ensures
        ({
            let r = ready_indices(sorted, ids, sorted.len());
            &&& forall|i: int|
                0 <= i < r.len() ==> (#[trigger] r[i]) < ids.len() && last_index(ids, ids[r[i] as int])
                    == r[i] && sorted.contains(ids[r[i] as int])
            &&& forall|i: int, j: int, p: int, q: int|
                0 <= i < j < r.len() && 0 <= p < sorted.len() && 0 <= q < sorted.len() && #[trigger] sorted[p]
                    == ids[#[trigger] r[i] as int] && #[trigger] sorted[q] == ids[#[trigger] r[j] as int] ==> p < q
            &&& forall|x: int|
                0 <= x < ids.len() && sorted.contains(#[trigger] ids[x]) && last_index(ids, ids[x]) == x
                    ==> r.contains(x as usize)
        }),
{
    let r = ready_indices(sorted, ids, sorted.len());
    lemma_ready_indices_prefix(sorted, ids, sorted.len());
    assert forall|i: int|
        0 <= i < r.len() implies (#[trigger] r[i]) < ids.len() && last_index(ids, ids[r[i] as int]) == r[i]
            && sorted.contains(ids[r[i] as int]) by {
        let p = choose|p: int| 0 <= p < sorted.len() && sorted[p] == ids[r[i] as int];
        assert(sorted[p] == ids[r[i] as int]);
    }
    assert forall|x: int|
        0 <= x < ids.len() && sorted.contains(#[trigger] ids[x]) && last_index(ids, ids[x]) == x implies r.contains(
            x as usize,
        ) by {
        let p = choose|p: int| 0 <= p < sorted.len() && sorted[p] == ids[x];
        assert(last_index(ids, sorted[p]) == x);
    }
}

/// Last index in `ids` holding `t`.
fn last_index_of(ids: &[TypeId], t: &TypeId) -> (r: Option<usize>)
    ensures
        match r {
            Some(k) => last_index(ids@, *t) == k,
            None => last_index(ids@, *t) == -1,
        },
{
    let mut y = ids.len();
    proof {
        assert(ids@.take(y as int) =~= ids@);
    }
    while y > 0
        invariant
            y <= ids@.len(),
            last_index(ids@, *t) == last_index(ids@.take(y as int), *t),
        decreases y,
    {
        proof {
            assert(ids@.take(y as int).drop_last() =~= ids@.take(y - 1));
        }
        if type_id_eq(&ids[y - 1], t) {
            return Some(y - 1);
        }
        y -= 1;
    }
    None
}

/// Order in which ready callbacks registered for `ids` run: modules in the
/// order of `sorted`, each with its most recently registered callback;
/// callbacks of modules absent from `sorted` do not run.
pub fn ready_callback_order(sorted: &[TypeId], ids: &[TypeId]) -> (r: Vec<usize>)
    ensures
        r@ == ready_indices(sorted@, ids@, sorted@.len() as nat),
        sorted@.no_duplicates() ==> forall|i: int, j: int, p: int, q: int|
            0 <= i < j < r@.len() && 0 <= p < sorted@.len() && 0 <= q < sorted@.len() && #[trigger] sorted@[p]
                == ids@[#[trigger] r@[i] as int] && #[trigger] sorted@[q] == ids@[#[trigger] r@[j] as int] ==> p < q,
{
    let mut out: Vec<usize> = Vec::new();
    let mut p: usize = 0;
    while p < sorted.len()
        invariant
            p <= sorted@.len(),
            out@ == ready_indices(sorted@, ids@, p as nat),
        decreases sorted@.len() - p,
    {
        match last_index_of(ids, &sorted[p]) {
            Some(k) => {
                out.push(k);
            },
            None => {},
        }
        p += 1;
    }
    let n_ids = ids.len();
    proof {
        assert(ids@.len() == n_ids);
        if sorted@.no_duplicates() {
            lemma_ready_order_follows_sorted(sorted@, ids@);
        }
    }
    out
}

} // verus!
