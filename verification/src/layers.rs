//! Splitting a validated topological order into dependency levels, so that
//! the modules of one level can be built concurrently.

use std::any::TypeId;
use vstd::prelude::*;

use crate::graph::{id_before, DependencyGraph};
use crate::typeid::type_id_eq;

verus! {

/// Level recorded for the latest position before `lv.len()` that holds `t`,
/// if any.
pub open spec fn known_level(s: Seq<TypeId>, lv: Seq<nat>, t: TypeId) -> Option<nat>
    decreases lv.len(),
{
    if lv.len() == 0 {
        None
    } else if s[lv.len() - 1] == t {
        Some(lv.last())
    } else {
        known_level(s, lv.drop_last(), t)
    }
}

/// Largest `known_level + 1` over the first `k` dependencies in `deps`.
pub open spec fn dep_max(
    s: Seq<TypeId>,
    lv: Seq<nat>,
    deps: Seq<(&'static str, TypeId)>,
    k: int,
) -> Option<nat>
    decreases k,
{
    if k <= 0 {
        None
    } else {
        let prev = dep_max(s, lv, deps, k - 1);
        match known_level(s, lv, deps[k - 1].1) {
            None => prev,
            Some(l) => match prev {
                None => Some(l + 1),
                Some(p) => Some(if p >= l + 1 { p } else { l + 1 }),
            },
        }
    }
}

impl DependencyGraph {
    /// Level of position `lv.len()` of `s`: one more than the deepest level
    /// among its dependencies placed earlier, `0` when it has none (or is not
    /// registered).
    pub open spec fn level_at(self, s: Seq<TypeId>, lv: Seq<nat>) -> nat {
        let t = s[lv.len() as int];
        if self.contains_id(t) {
            let deps = self.deps(self.index_of_id(t));
            match dep_max(s, lv, deps, deps.len() as int) {
                None => 0,
                Some(m) => m,
            }
        } else {
            0
        }
    }

    /// Levels of the first `m` positions of `s`.
    pub open spec fn levels(self, s: Seq<TypeId>, m: nat) -> Seq<nat>
        decreases m,
    {
        if m == 0 {
            Seq::empty()
        } else {
            let prev = self.levels(s, (m - 1) as nat);
            prev.push(self.level_at(s, prev))
        }
    }
}

/// The elements of the first `m` positions of `s` whose level is `l`, in order.
pub open spec fn bucket(s: Seq<TypeId>, lv: Seq<nat>, l: nat, m: nat) -> Seq<TypeId>
    decreases m,
{
    if m == 0 {
        Seq::empty()
    } else if lv[m - 1] == l {
        bucket(s, lv, l, (m - 1) as nat).push(s[m - 1])
    } else {
        bucket(s, lv, l, (m - 1) as nat)
    }
}

/// Largest value in `lv`, `0` when empty.
pub open spec fn max_level(lv: Seq<nat>) -> nat
    decreases lv.len(),
{
    if lv.len() == 0 {
        0
    } else {
        let m = max_level(lv.drop_last());
        if lv.last() > m { lv.last() } else { m }
    }
}

proof fn lemma_levels_prefix(g: DependencyGraph, s: Seq<TypeId>, m: nat, x: nat)
    requires
        x <= m,
    ensures
        g.levels(s, m).len() == m,
        g.levels(s, m).take(x as int) == g.levels(s, x),
    decreases m,
{
    if m > 0 {
        lemma_levels_prefix(g, s, (m - 1) as nat, if x == m { (m - 1) as nat } else { x });
        if x == m {
            assert(g.levels(s, m).take(x as int) =~= g.levels(s, m));
        } else {
            assert(g.levels(s, m).take(x as int) =~= g.levels(s, (m - 1) as nat).take(x as int));
        }
    }
}

proof fn lemma_known_level_bound(s: Seq<TypeId>, lv: Seq<nat>, t: TypeId)
    requires
        forall|y: int| 0 <= y < lv.len() ==> #[trigger] lv[y] <= y,
    ensures
        known_level(s, lv, t) matches Some(l) ==> l < lv.len(),
    decreases lv.len(),
{
    if lv.len() > 0 {
        lemma_known_level_bound(s, lv.drop_last(), t);
    }
}

proof fn lemma_dep_max_bound(s: Seq<TypeId>, lv: Seq<nat>, deps: Seq<(&'static str, TypeId)>, k: int)
    requires
        forall|y: int| 0 <= y < lv.len() ==> #[trigger] lv[y] <= y,
    ensures
        dep_max(s, lv, deps, k) matches Some(m) ==> m <= lv.len(),
    decreases k,
{
    if k > 0 {
        lemma_dep_max_bound(s, lv, deps, k - 1);
        lemma_known_level_bound(s, lv, deps[k - 1].1);
    }
}

/// Level recorded for the latest position before `x` that holds `t`.
fn known_level_exec(sorted: &[TypeId], level_of: &Vec<usize>, t: &TypeId) -> (r: Option<usize>)
    requires
        level_of@.len() <= sorted@.len(),
    ensures
        r matches Some(l) ==> known_level(
            sorted@,
            level_of@.map_values(|v: usize| v as nat),
            *t,
        ) == Some(l as nat),
        r is None ==> known_level(sorted@, level_of@.map_values(|v: usize| v as nat), *t) is None,
{
    let ghost lv = level_of@.map_values(|v: usize| v as nat);
    let mut y = level_of.len();
    proof {
        assert(lv.take(y as int) =~= lv);
    }
    while y > 0
        invariant
            y <= level_of@.len() <= sorted@.len(),
            lv == level_of@.map_values(|v: usize| v as nat),
            known_level(sorted@, lv, *t) == known_level(sorted@, lv.take(y as int), *t),
        decreases y,
    {
        proof {
            assert(lv.take(y as int).drop_last() =~= lv.take(y - 1));
        }
        if type_id_eq(&sorted[y - 1], t) {
            return Some(level_of[y - 1]);
        }
        y -= 1;
    }
    None
}

/// Split a validated topological order into dependency levels.
///
/// Level 0 = modules without dependencies; level N = modules whose longest
/// dependency chain has N+1 nodes. Within a level no module depends on
/// another, so they can build concurrently.
pub fn topo_layers(graph: &DependencyGraph, sorted: &[TypeId]) -> (r: Vec<Vec<TypeId>>)
    requires
        graph.wf(),
        sorted@.no_duplicates(),
    ensures
        r@.len() == (if sorted@.len() == 0 {
            0
        } else {
            max_level(graph.levels(sorted@, sorted@.len())) + 1
        }),
        forall|l: int|
            0 <= l < r@.len() ==> #[trigger] r@[l]@ == bucket(
                sorted@,
                graph.levels(sorted@, sorted@.len()),
                l as nat,
                sorted@.len(),
            ),
{
    let n = sorted.len();
    let mut level_of: Vec<usize> = Vec::new();
    let mut x: usize = 0;
    while x < n
        invariant
            graph.wf(),
            n == sorted@.len(),
            x <= n,
            level_of@.len() == x,
            level_of@.map_values(|v: usize| v as nat) == graph.levels(sorted@, x as nat),
            forall|y: int| 0 <= y < x ==> #[trigger] level_of@[y] <= y,
        decreases n - x,
    {
        let ghost lv = level_of@.map_values(|v: usize| v as nat);
        proof {
            assert forall|y: int| 0 <= y < lv.len() implies #[trigger] lv[y] <= y by {
                assert(level_of@[y] <= y);
            }
        }
        let level = match graph.index_of(&sorted[x]) {
            None => 0,
            Some(i) => {
                proof {
                    graph.lemma_index_of_id(sorted@[x as int], i as int);
                }
                let deps = &graph.entries()[i].dependencies;
                let mut best: Option<usize> = None;
                let mut k: usize = 0;
                while k < deps.len()
                    invariant
                        x < n,
                        n == sorted@.len(),
                        level_of@.len() == x,
                        lv == level_of@.map_values(|v: usize| v as nat),
                        forall|y: int| 0 <= y < lv.len() ==> #[trigger] lv[y] <= y,
                        k <= deps@.len(),
                        best matches Some(b) ==> dep_max(sorted@, lv, deps@, k as int) == Some(b as nat),
                        best is None ==> dep_max(sorted@, lv, deps@, k as int) is None,
                    decreases deps@.len() - k,
                {
                    proof {
                        lemma_known_level_bound(sorted@, lv, deps@[k as int].1);
                    }
                    match known_level_exec(sorted, &level_of, &deps[k].1) {
                        None => {},
                        Some(l) => {
                            let c = l + 1;
                            best = match best {
                                None => Some(c),
                                Some(p) => Some(if p >= c { p } else { c }),
                            };
                        },
                    }
                    k += 1;
                }
                proof {
                    lemma_dep_max_bound(sorted@, lv, deps@, deps@.len() as int);
                }
                match best {
                    None => 0,
                    Some(m) => m,
                }
            },
        };
        proof {
            assert(level as nat == graph.level_at(sorted@, lv));
            assert(level <= x);
        }
        level_of.push(level);
        x += 1;
        proof {
            assert(level_of@.map_values(|v: usize| v as nat) =~= graph.levels(sorted@, x as nat));
        }
    }

    let ghost lv = graph.levels(sorted@, n as nat);
    let mut buckets: Vec<Vec<TypeId>> = Vec::new();
    let mut x: usize = 0;
    while x < n
        invariant
            n == sorted@.len(),
            x <= n,
            level_of@.len() == n,
            lv == level_of@.map_values(|v: usize| v as nat),
            buckets@.len() == (if x == 0 { 0 } else { max_level(lv.take(x as int)) + 1 }),
            forall|l: int| 0 <= l < buckets@.len() ==> #[trigger] buckets@[l]@ == bucket(
                sorted@,
                lv,
                l as nat,
                x as nat,
            ),
        decreases n - x,
    {
        let level = level_of[x];
        proof {
            assert(lv.take(x + 1).drop_last() =~= lv.take(x as int));
            assert(lv.take(x + 1).last() == level as nat);
            lemma_bucket_empty_above(sorted@, lv, x as nat);
        }
        while buckets.len() <= level
            invariant
                x < n,
                n == sorted@.len(),
                lv == level_of@.map_values(|v: usize| v as nat),
                level == lv[x as int],
                buckets@.len() >= (if x == 0 { 0 } else { max_level(lv.take(x as int)) + 1 }),
                buckets@.len() <= (if x == 0 { 0 } else { max_level(lv.take(x as int)) + 1 }) || buckets@.len() <= level + 1,
                forall|l: int| 0 <= l < buckets@.len() ==> #[trigger] buckets@[l]@ == bucket(
                    sorted@,
                    lv,
                    l as nat,
                    x as nat,
                ),
                forall|l: nat| (x > 0 && l > max_level(lv.take(x as int))) ==> #[trigger] bucket(sorted@, lv, l, x as nat) == Seq::<TypeId>::empty(),
                x == 0 ==> forall|l: nat| #[trigger] bucket(sorted@, lv, l, x as nat) == Seq::<TypeId>::empty(),
            decreases level + 1 - buckets@.len(),
        {
            let ghost len0 = buckets@.len();
            proof {
                assert(bucket(sorted@, lv, len0 as nat, x as nat) == Seq::<TypeId>::empty());
            }
            buckets.push(Vec::new());
            proof {
                assert forall|l: int| 0 <= l < buckets@.len() implies #[trigger] buckets@[l]@
                    == bucket(sorted@, lv, l as nat, x as nat) by {
                    if l == len0 {
                        assert(buckets@[l]@ =~= Seq::<TypeId>::empty());
                    }
                }
            }
        }
        let ghost old_b = buckets@;
        buckets[level].push(sorted[x]);
        x += 1;
        proof {
            assert forall|l: int| 0 <= l < buckets@.len() implies #[trigger] buckets@[l]@ == bucket(
                sorted@,
                lv,
                l as nat,
                x as nat,
            ) by {
                if l != level as int {
                    assert(buckets@[l] == old_b[l]);
                }
            }
        }
    }
    proof {
        assert(lv.take(n as int) =~= lv);
    }
    buckets
}

proof fn lemma_known_level_at(s: Seq<TypeId>, lv: Seq<nat>, t: TypeId, q: int)
    requires
        0 <= q < lv.len(),
        lv.len() <= s.len(),
        s[q] == t,
        forall|y: int| q < y < lv.len() ==> s[y] != t,
    ensures
        known_level(s, lv, t) == Some(lv[q]),
    decreases lv.len(),
{
    if q < lv.len() - 1 {
        assert(s[lv.len() - 1] != t);
        lemma_known_level_at(s, lv.drop_last(), t, q);
    }
}

proof fn lemma_dep_max_ge(
    s: Seq<TypeId>,
    lv: Seq<nat>,
    deps: Seq<(&'static str, TypeId)>,
    big_k: int,
    k: int,
    l: nat,
)
    requires
        0 <= k < big_k <= deps.len(),
        known_level(s, lv, deps[k].1) == Some(l),
    ensures
        dep_max(s, lv, deps, big_k) matches Some(m) && m >= l + 1,
    decreases big_k,
{
    if k < big_k - 1 {
        lemma_dep_max_ge(s, lv, deps, big_k - 1, k, l);
    }
}

proof fn lemma_bucket_member(s: Seq<TypeId>, lv: Seq<nat>, l: nat, m: nat, a: TypeId)
    requires
        bucket(s, lv, l, m).contains(a),
    ensures
        exists|y: int| 0 <= y < m && lv[y] == l && #[trigger] s[y] == a,
    decreases m,
{
    if m > 0 {
        let prev = bucket(s, lv, l, (m - 1) as nat);
        if lv[m - 1] == l {
            if s[m - 1] != a {
                let cur = bucket(s, lv, l, m);
                let w = choose|w: int| 0 <= w < cur.len() && #[trigger] cur[w] == a;
                assert(cur == prev.push(s[m - 1]));
                assert(w < prev.len());
                assert(prev[w] == a);
                lemma_bucket_member(s, lv, l, (m - 1) as nat, a);
            }
        } else {
            lemma_bucket_member(s, lv, l, (m - 1) as nat, a);
        }
    }
}

/// In the levels of a topological order, each module lies on a deeper level
/// than every module it depends on.
pub proof fn lemma_dependency_level_lower(graph: DependencyGraph, s: Seq<TypeId>, p: int, q: int)
    requires
        graph.wf(),
        graph.is_topo_order(s),
        0 <= p < s.len(),
        0 <= q < s.len(),
        graph.depends_on(graph.index_of_id(s[p]), graph.index_of_id(s[q])),
    ensures
        q < p,
        graph.levels(s, s.len())[q] < graph.levels(s, s.len())[p],
{
    let n = s.len();
    let i = graph.index_of_id(s[p]);
    let j = graph.index_of_id(s[q]);
    assert(graph.contains_id(s[p]));
    assert(graph.contains_id(s[q]));
    assert(graph.id(i) == s[p]);
    assert(graph.id(j) == s[q]);
    let k = choose|k: int| 0 <= k < graph.deps(i).len() && #[trigger] graph.deps(i)[k].1 == graph.id(j);
    assert(graph.deps(i)[k].1 == s[q]);
    assert(id_before(s, p, graph.deps(i)[k].1));
    let y = choose|y: int| 0 <= y < p && s[y] == graph.deps(i)[k].1;
    assert(y == q);
    let lvp = graph.levels(s, p as nat);
    lemma_levels_prefix(graph, s, n, p as nat);
    lemma_levels_prefix(graph, s, n, (p + 1) as nat);
    lemma_levels_prefix(graph, s, p as nat, p as nat);
    assert(graph.levels(s, n).take(p + 1)[p] == graph.levels(s, n)[p]);
    assert(graph.levels(s, n).take(p)[q] == graph.levels(s, n)[q]);
    assert(lvp.len() == p);
    assert forall|z: int| q < z < lvp.len() implies s[z] != s[q] by {
        assert(s[z] != s[q]);
    }
    lemma_known_level_at(s, lvp, s[q], q);
    lemma_dep_max_ge(s, lvp, graph.deps(i), graph.deps(i).len() as int, k, lvp[q]);
    assert(graph.levels(s, (p + 1) as nat)[p] == graph.level_at(s, lvp));
}

/// Two modules on one level of a topological order never depend on each
/// other, so the modules of a level can be built concurrently.
pub proof fn lemma_layer_members_independent(
    graph: DependencyGraph,
    s: Seq<TypeId>,
    l: nat,
    a: TypeId,
    b: TypeId,
)
    requires
        graph.wf(),
        graph.is_topo_order(s),
        bucket(s, graph.levels(s, s.len()), l, s.len()).contains(a),
        bucket(s, graph.levels(s, s.len()), l, s.len()).contains(b),
    ensures
        !graph.depends_on(graph.index_of_id(a), graph.index_of_id(b)),
{
    let lv = graph.levels(s, s.len());
    lemma_bucket_member(s, lv, l, s.len(), a);
    lemma_bucket_member(s, lv, l, s.len(), b);
    let p = choose|y: int| 0 <= y < s.len() && lv[y] == l && #[trigger] s[y] == a;
    let q = choose|y: int| 0 <= y < s.len() && lv[y] == l && #[trigger] s[y] == b;
    if graph.depends_on(graph.index_of_id(a), graph.index_of_id(b)) {
        lemma_dependency_level_lower(graph, s, p, q);
    }
}

proof fn lemma_bucket_empty_above(s: Seq<TypeId>, lv: Seq<nat>, x: nat)
    requires
        x <= lv.len(),
    ensures
        x > 0 ==> forall|l: nat| l > max_level(lv.take(x as int)) ==> #[trigger] bucket(s, lv, l, x) == Seq::<TypeId>::empty(),
        x == 0 ==> forall|l: nat| #[trigger] bucket(s, lv, l, x) == Seq::<TypeId>::empty(),
    decreases x,
{
    if x > 0 {
        lemma_bucket_empty_above(s, lv, (x - 1) as nat);
        let t = lv.take(x as int);
        assert(t.drop_last() =~= lv.take(x - 1));
        assert(t.last() == lv[x - 1]);
        assert forall|l: nat| l > max_level(lv.take(x as int)) implies #[trigger] bucket(s, lv, l, x)
            == Seq::<TypeId>::empty() by {
            assert(max_level(t) >= lv[x - 1]);
            assert(max_level(t) >= max_level(lv.take(x - 1)));
            assert(bucket(s, lv, l, x) == bucket(s, lv, l, (x - 1) as nat));
        }
    }
}


/// Total length of the layers below `top`, over the first `m` positions.
pub open spec fn layers_total(s: Seq<TypeId>, lv: Seq<nat>, top: nat, m: nat) -> nat
    decreases top,
{
    if top == 0 {
        0
    } else {
        layers_total(s, lv, (top - 1) as nat, m) + bucket(s, lv, (top - 1) as nat, m).len()
    }
}

/// Number of the first `m` positions whose level is below `top`.
pub open spec fn count_below(lv: Seq<nat>, top: nat, m: nat) -> nat
    decreases m,
{
    if m == 0 {
        0
    } else {
        count_below(lv, top, (m - 1) as nat) + if lv[m - 1] < top { 1nat } else { 0nat }
    }
}

proof fn lemma_max_level_ge(lv: Seq<nat>, y: int)
    requires
        0 <= y < lv.len(),
    ensures
        lv[y] <= max_level(lv),
    decreases lv.len(),
{
    if y < lv.len() - 1 {
        assert(lv.drop_last()[y] == lv[y]);
        lemma_max_level_ge(lv.drop_last(), y);
    }
}

proof fn lemma_bucket_exact(s: Seq<TypeId>, lv: Seq<nat>, l: nat, m: nat)
    requires
        m <= s.len(),
        m <= lv.len(),
        s.no_duplicates(),
    ensures
        forall|y: int| 0 <= y < m ==> (bucket(s, lv, l, m).contains(#[trigger] s[y]) <==> lv[y] == l),
    decreases m,
{
    if m > 0 {
        let prev = bucket(s, lv, l, (m - 1) as nat);
        lemma_bucket_exact(s, lv, l, (m - 1) as nat);
        if prev.contains(s[m - 1]) {
            lemma_bucket_member(s, lv, l, (m - 1) as nat, s[m - 1]);
        }
        assert forall|y: int| 0 <= y < m implies (bucket(s, lv, l, m).contains(#[trigger] s[y])
            <==> lv[y] == l) by {
            if lv[m - 1] == l {
                let cur = prev.push(s[m - 1]);
                if y < m - 1 {
                    if cur.contains(s[y]) {
                        let w = choose|w: int| 0 <= w < cur.len() && cur[w] == s[y];
                        if w < prev.len() {
                            assert(prev[w] == s[y]);
                        }
                    }
                    if prev.contains(s[y]) {
                        let w = choose|w: int| 0 <= w < prev.len() && prev[w] == s[y];
                        assert(cur[w] == s[y]);
                    }
                } else {
                    assert(cur[cur.len() - 1] == s[y]);
                }
            }
        }
    }
}

proof fn lemma_bucket_order(s: Seq<TypeId>, lv: Seq<nat>, l: nat, m: nat)
    requires
        m <= s.len(),
        m <= lv.len(),
        s.no_duplicates(),
    ensures
        forall|i: int, j: int, y1: int, y2: int|
            0 <= i < j < bucket(s, lv, l, m).len() && 0 <= y1 < m && 0 <= y2 < m && #[trigger] s[y1] == #[trigger] bucket(
                s,
                lv,
                l,
                m,
            )[i] && #[trigger] s[y2] == #[trigger] bucket(s, lv, l, m)[j] ==> y1 < y2,
    decreases m,
{
    if m > 0 {
        let prev = bucket(s, lv, l, (m - 1) as nat);
        let cur = bucket(s, lv, l, m);
        lemma_bucket_order(s, lv, l, (m - 1) as nat);
        assert forall|i: int, j: int, y1: int, y2: int|
            0 <= i < j < cur.len() && 0 <= y1 < m && 0 <= y2 < m && #[trigger] s[y1] == #[trigger] cur[i] && #[trigger] s[y2]
                == #[trigger] cur[j] implies y1 < y2 by {
            assert(i < prev.len());
            assert(cur[i] == prev[i]);
            assert(prev.contains(prev[i]));
            lemma_bucket_member(s, lv, l, (m - 1) as nat, prev[i]);
            let a = choose|y: int| 0 <= y < m - 1 && lv[y] == l && #[trigger] s[y] == prev[i];
            assert(a == y1);
            if j < prev.len() {
                assert(cur[j] == prev[j]);
                assert(prev.contains(prev[j]));
                lemma_bucket_member(s, lv, l, (m - 1) as nat, prev[j]);
                let b = choose|y: int| 0 <= y < m - 1 && lv[y] == l && #[trigger] s[y] == prev[j];
                assert(b == y2);
            } else {
                assert(cur[j] == s[m - 1]);
                assert(y2 == m - 1);
            }
        }
    }
}

proof fn lemma_layers_total_step(s: Seq<TypeId>, lv: Seq<nat>, top: nat, m: nat)
    requires
        0 < m,
    ensures
        layers_total(s, lv, top, m) == layers_total(s, lv, top, (m - 1) as nat) + if lv[m - 1] < top {
            1nat
        } else {
            0nat
        },
    decreases top,
{
    if top > 0 {
        lemma_layers_total_step(s, lv, (top - 1) as nat, m);
    }
}

proof fn lemma_layers_total_count(s: Seq<TypeId>, lv: Seq<nat>, top: nat, m: nat)
    ensures
        layers_total(s, lv, top, m) == count_below(lv, top, m),
    decreases m, top,
{
    if m == 0 {
        if top > 0 {
            lemma_layers_total_count(s, lv, (top - 1) as nat, m);
        }
    } else {
        lemma_layers_total_step(s, lv, top, m);
        lemma_layers_total_count(s, lv, top, (m - 1) as nat);
    }
}

proof fn lemma_count_below_all(lv: Seq<nat>, top: nat, m: nat)
    requires
        m <= lv.len(),
        forall|y: int| 0 <= y < m ==> #[trigger] lv[y] < top,
    ensures
        count_below(lv, top, m) == m,
    decreases m,
{
    if m > 0 {
        lemma_count_below_all(lv, top, (m - 1) as nat);
    }
}

/// The layers of a duplicate-free order partition it: each element lies in
/// the layer of its own level and in no other, every layer member comes
/// from the order, each layer keeps the order's relative order, and the
/// layers together hold exactly as many elements as the order.
pub proof fn lemma_layers_partition(graph: DependencyGraph, s: Seq<TypeId>)
    requires
        graph.wf(),
        s.no_duplicates(),
        s.len() > 0,
    ensures
        ({
            let lv = graph.levels(s, s.len());
            &&& forall|y: int|
                0 <= y < s.len() ==> lv[y] <= max_level(lv) && bucket(s, lv, lv[y], s.len()).contains(
                    #[trigger] s[y],
                )
            &&& forall|l: nat, y: int|
                0 <= y < s.len() && #[trigger] bucket(s, lv, l, s.len()).contains(s[y]) ==> lv[y] == l
            &&& forall|l: nat, a: TypeId|
                #[trigger] bucket(s, lv, l, s.len()).contains(a) ==> s.contains(a)
            &&& forall|l: nat, i: int, j: int, y1: int, y2: int|
                0 <= i < j < bucket(s, lv, l, s.len()).len() && 0 <= y1 < s.len() && 0 <= y2 < s.len()
                    && #[trigger] s[y1] == #[trigger] bucket(s, lv, l, s.len())[i] && #[trigger] s[y2] == #[trigger] bucket(
                    s,
                    lv,
                    l,
                    s.len(),
                )[j] ==> y1 < y2
            &&& layers_total(s, lv, max_level(lv) + 1, s.len()) == s.len()
        }),
{
    let n = s.len();
    let lv = graph.levels(s, n);
    lemma_levels_prefix(graph, s, n, n);
    assert forall|y: int| 0 <= y < n implies lv[y] <= max_level(lv) && bucket(s, lv, lv[y], n).contains(
        #[trigger] s[y],
    ) by {
        lemma_max_level_ge(lv, y);
        lemma_bucket_exact(s, lv, lv[y], n);
    }
    assert forall|l: nat, y: int|
        0 <= y < n && #[trigger] bucket(s, lv, l, n).contains(s[y]) implies lv[y] == l by {
        lemma_bucket_exact(s, lv, l, n);
    }
    assert forall|l: nat, a: TypeId| #[trigger] bucket(s, lv, l, n).contains(a) implies s.contains(a) by {
        lemma_bucket_member(s, lv, l, n, a);
        let y = choose|y: int| 0 <= y < n && lv[y] == l && #[trigger] s[y] == a;
        assert(s[y] == a);
    }
    assert forall|l: nat, i: int, j: int, y1: int, y2: int|
        0 <= i < j < bucket(s, lv, l, n).len() && 0 <= y1 < n && 0 <= y2 < n && #[trigger] s[y1]
            == #[trigger] bucket(s, lv, l, n)[i] && #[trigger] s[y2] == #[trigger] bucket(s, lv, l, n)[j] implies y1
        < y2 by {
        lemma_bucket_order(s, lv, l, n);
    }
    assert forall|y: int| 0 <= y < n implies #[trigger] lv[y] < max_level(lv) + 1 by {
        lemma_max_level_ge(lv, y);
    }
    lemma_count_below_all(lv, max_level(lv) + 1, n);
    lemma_layers_total_count(s, lv, max_level(lv) + 1, n);
}

} // verus!
