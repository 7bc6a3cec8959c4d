use vstd::prelude::*;
use crate::graph::{Edge, TravelGraph, MAX_LOCATIONS};
use crate::types::copy_of;

verus! {

/// The cheapest of the edges in `es` that lead to `v`.
pub open spec fn min_edge(es: Seq<Edge>, v: int) -> Option<int>
    decreases es.len(),
{
    if es.len() == 0 {
        None
    } else {
        let rest = min_edge(es.drop_last(), v);
        if es.last().to as int != v {
            rest
        } else {
            match rest {
                Some(c) => if c <= es.last().cost as int {
                    Some(c)
                } else {
                    Some(es.last().cost as int)
                },
                None => Some(es.last().cost as int),
            }
        }
    }
}

/// Cost of the cheapest direct connection from `u` to `v`, if any.
pub open spec fn edge_cost(g: TravelGraph, u: int, v: int) -> Option<int> {
    if 0 <= u < g.edges@.len() {
        min_edge(g.edges@[u]@, v)
    } else {
        None
    }
}

/// `p` is a walk from `origin` to `dest` over connections of `g`, whose every
/// location after the origin has a risk score of at least `min_risk`.
pub open spec fn is_walk(g: TravelGraph, p: Seq<usize>, origin: int, dest: int, min_risk: int) -> bool {
    &&& p.len() >= 1
    &&& p[0] as int == origin
    &&& p.last() as int == dest
    &&& 0 <= origin < g.n()
    &&& forall|i: int| 1 <= i < p.len() ==> {
        &&& (#[trigger] p[i]) < g.n()
        &&& g.risks@[p[i] as int] >= min_risk
        &&& edge_cost(g, p[i - 1] as int, p[i] as int) is Some
    }
}

/// Summed connection cost of a walk.
pub open spec fn walk_cost(g: TravelGraph, p: Seq<usize>) -> int
    decreases p.len(),
{
    if p.len() <= 1 {
        0
    } else {
        walk_cost(g, p.drop_last()) + match edge_cost(g, p[p.len() - 2] as int, p.last() as int) {
            Some(c) => c,
            None => 0,
        }
    }
}

proof fn lemma_min_edge_bounds(es: Seq<Edge>, v: int, j: int)
    requires
        0 <= j < es.len(),
        es[j].to as int == v,
    ensures
        min_edge(es, v) matches Some(c) && 0 <= c <= es[j].cost,
    decreases es.len(),
{
    if j < es.len() - 1 {
        lemma_min_edge_bounds(es.drop_last(), v, j);
    } else if es.len() > 1 {
        lemma_min_edge_range(es.drop_last(), v);
    }
}

proof fn lemma_min_edge_range(es: Seq<Edge>, v: int)
    ensures
        min_edge(es, v) matches Some(c) ==> 0 <= c <= 0xffff_ffff,
    decreases es.len(),
{
    if es.len() > 0 {
        lemma_min_edge_range(es.drop_last(), v);
    }
}

proof fn lemma_min_edge_attained(es: Seq<Edge>, v: int)
    ensures
        min_edge(es, v) matches Some(c) ==> exists|j: int|
            0 <= j < es.len() && (#[trigger] es[j]).to as int == v && es[j].cost as int == c,
    decreases es.len(),
{
    if es.len() > 0 {
        lemma_min_edge_attained(es.drop_last(), v);
        if let Some(c) = min_edge(es, v) {
            if es.last().to as int == v && c == es.last().cost as int {
                assert(es[es.len() - 1] == es.last());
            } else {
                let j = choose|j: int|
                    0 <= j < es.drop_last().len() && (#[trigger] es.drop_last()[j]).to as int == v
                        && es.drop_last()[j].cost as int == c;
                assert(es[j] == es.drop_last()[j]);
            }
        }
    }
}

proof fn lemma_walk_cost_bound(g: TravelGraph, p: Seq<usize>)
    ensures
        0 <= walk_cost(g, p),
        p.len() >= 1 ==> walk_cost(g, p) <= (p.len() - 1) * 0xffff_ffff,
    decreases p.len(),
{
    if p.len() > 1 {
        lemma_walk_cost_bound(g, p.drop_last());
        if 0 <= p[p.len() - 2] < g.edges@.len() {
            lemma_min_edge_range(g.edges@[p[p.len() - 2] as int]@, p.last() as int);
        }
        assert((p.len() - 2) * 0xffff_ffff + 0xffff_ffff == (p.len() - 1) * 0xffff_ffff) by (nonlinear_arith);
    }
}

proof fn lemma_walk_push(g: TravelGraph, p: Seq<usize>, origin: int, u: int, v: usize, min_risk: int)
    requires
        is_walk(g, p, origin, u, min_risk),
        v < g.n(),
        g.risks@[v as int] >= min_risk,
        edge_cost(g, u, v as int) is Some,
    ensures
        is_walk(g, p.push(v), origin, v as int, min_risk),
        walk_cost(g, p.push(v)) == walk_cost(g, p) + edge_cost(g, u, v as int).unwrap(),
{
    let q = p.push(v);
    assert(q.drop_last() =~= p);
    assert forall|i: int| 1 <= i < q.len() implies {
        &&& (#[trigger] q[i]) < g.n()
        &&& g.risks@[q[i] as int] >= min_risk
        &&& edge_cost(g, q[i - 1] as int, q[i] as int) is Some
    } by {
        if i < p.len() {
            assert(q[i] == p[i] && q[i - 1] == p[i - 1]);
        }
    }
}

proof fn lemma_walk_prefix(g: TravelGraph, q: Seq<usize>, origin: int, v: int, min_risk: int)
    requires
        is_walk(g, q, origin, v, min_risk),
        q.len() >= 2,
    ensures
        is_walk(g, q.drop_last(), origin, q[q.len() - 2] as int, min_risk),
{
    let p = q.drop_last();
    assert forall|i: int| 1 <= i < p.len() implies {
        &&& (#[trigger] p[i]) < g.n()
        &&& g.risks@[p[i] as int] >= min_risk
        &&& edge_cost(g, p[i - 1] as int, p[i] as int) is Some
    } by {
        assert(p[i] == q[i] && p[i - 1] == q[i - 1]);
    }
}

proof fn lemma_distinct_below(s: Seq<usize>, m: nat)
    requires
        m <= MAX_LOCATIONS,
        s.no_duplicates(),
        forall|i: int| 0 <= i < s.len() ==> (#[trigger] s[i]) < m,
    ensures
        s.len() <= m,
    decreases m,
{
    if s.len() > 0 {
        assert(s[0] < m);
        let top = (m - 1) as usize;
        let t = s.filter(|x: usize| x != top);
        s.lemma_filter_len(|x: usize| x != top);
        assert forall|i: int| 0 <= i < t.len() implies (#[trigger] t[i]) < (m - 1) as nat by {
            s.lemma_filter_pred(|x: usize| x != top, i);
            s.lemma_filter_contains_rev(|x: usize| x != top, t[i]);
        }
        assert(t.no_duplicates()) by {
            s.filter_lemma(|x: usize| x != top);
            lemma_filter_no_dup(s, top);
        }
        lemma_distinct_below(t, (m - 1) as nat);
        lemma_filter_drops_at_most_one(s, top);
        assert(t.len() + 1 >= s.len());
    }
}

proof fn lemma_filter_no_dup(s: Seq<usize>, top: usize)
    requires
        s.no_duplicates(),
    ensures
        s.filter(|x: usize| x != top).no_duplicates(),
    decreases s.len(),
{
    broadcast use vstd::seq_lib::group_filter_ensures;

    if s.len() > 0 {
        lemma_filter_no_dup(s.drop_last(), top);
        let f = |x: usize| x != top;
        assert(s.drop_last().push(s.last()) =~= s);
        s.drop_last().lemma_filter_push(s.last(), f);
        let t = s.drop_last().filter(f);
        if f(s.last()) {
            assert forall|i: int| 0 <= i < t.len() implies t[i] != s.last() by {
                s.drop_last().lemma_filter_contains_rev(f, t[i]);
            }
        }
    }
}

proof fn lemma_filter_drops_at_most_one(s: Seq<usize>, top: usize)
    requires
        s.no_duplicates(),
    ensures
        s.filter(|x: usize| x != top).len() + 1 >= s.len(),
    decreases s.len(),
{
    broadcast use vstd::seq_lib::group_filter_ensures;

    if s.len() > 0 {
        let f = |x: usize| x != top;
        assert(s.drop_last().push(s.last()) =~= s);
        s.drop_last().lemma_filter_push(s.last(), f);
        if s.last() == top {
            assert forall|i: int| 0 <= i < s.drop_last().len() implies f(#[trigger] s.drop_last()[i]) by {
                assert(s[i] != s[s.len() - 1]);
            }
            s.drop_last().lemma_filter_eq_filter_alt(f);
            lemma_filter_all(s.drop_last(), top);
        } else {
            lemma_filter_drops_at_most_one(s.drop_last(), top);
        }
    }
}

proof fn lemma_filter_all(s: Seq<usize>, top: usize)
    requires
        forall|i: int| 0 <= i < s.len() ==> #[trigger] s[i] != top,
    ensures
        s.filter(|x: usize| x != top).len() == s.len(),
    decreases s.len(),
{
    broadcast use vstd::seq_lib::group_filter_ensures;

    if s.len() > 0 {
        let f = |x: usize| x != top;
        lemma_filter_all(s.drop_last(), top);
        assert(s.drop_last().push(s.last()) =~= s);
        s.drop_last().lemma_filter_push(s.last(), f);
    }
}

/// A walk that repeats no location passes through at most as many locations
/// as the graph has; so the path finder's result is no dearer than any
/// risk-compliant path without repeated locations.
pub proof fn lemma_simple_walk_len(g: TravelGraph, q: Seq<usize>, origin: int, dest: int, min_risk: int)
    requires
        g.wf(),
        is_walk(g, q, origin, dest, min_risk),
        q.no_duplicates(),
    ensures
        q.len() <= g.n(),
{
    assert forall|i: int| 0 <= i < q.len() implies (#[trigger] q[i]) < g.n() as nat by {
        if i == 0 {
            assert(q[0] as int == origin);
        }
    }
    lemma_distinct_below(q, g.n() as nat);
}

fn extended(p: &Vec<usize>, v: usize) -> (r: Vec<usize>)
    ensures
        r@ == p@.push(v),
{
    let mut r = copy_of(p);
    r.push(v);
    r
}

/// What the relaxation has established after some rounds: every reached
/// location holds a walk no dearer than its recorded cost, and every walk of
/// at most `len` locations is matched by a reached location no dearer.
pub open spec fn relaxed(
    g: TravelGraph,
    origin: int,
    min_risk: int,
    reached: Seq<bool>,
    best: Seq<u64>,
    paths: Seq<Vec<usize>>,
    len: int,
) -> bool {
    &&& reached.len() == g.n()
    &&& best.len() == g.n()
    &&& paths.len() == g.n()
    &&& forall|v: int| 0 <= v < g.n() && #[trigger] reached[v] ==> {
        &&& is_walk(g, paths[v]@, origin, v, min_risk)
        &&& walk_cost(g, paths[v]@) <= best[v]
    }
    &&& forall|q: Seq<usize>, v: int|
        q.len() <= len && #[trigger] is_walk(g, q, origin, v, min_risk) ==> reached[v] && best[v]
            <= walk_cost(g, q)
}

/// Every location reached in `r1` is reached in `r2`, at no greater cost.
pub open spec fn improves(r1: Seq<bool>, b1: Seq<u64>, r2: Seq<bool>, b2: Seq<u64>) -> bool {
    &&& r1.len() == r2.len()
    &&& b1.len() == b2.len()
    &&& forall|x: int| 0 <= x < r1.len() && #[trigger] r1[x] ==> r2[x] && b2[x] <= b1[x]
}

/// Relaxes the `j`-th connection out of `u`, reached at cost `bu`.
#[verifier::rlimit(40)]
fn relax_edge(
    g: &TravelGraph,
    origin: usize,
    min_risk: i32,
    len: Ghost<int>,
    u: usize,
    j: usize,
    bu: u64,
    reached: &mut Vec<bool>,
    best: &mut Vec<u64>,
    paths: &mut Vec<Vec<usize>>,
) -> (changed: bool)
    requires
        g.wf(),
        u < g.n(),
        origin < g.n(),
        old(reached)@[origin as int],
        old(best)@[origin as int] == 0,
        old(paths)@[origin as int]@ == seq![origin],
        j < g.edges@[u as int]@.len(),
        relaxed(*g, origin as int, min_risk as int, old(reached)@, old(best)@, old(paths)@, len@),
        old(reached)@[u as int],
        old(best)@[u as int] == bu,
    ensures
        relaxed(*g, origin as int, min_risk as int, final(reached)@, final(best)@, final(paths)@, len@),
        improves(old(reached)@, old(best)@, final(reached)@, final(best)@),
        final(best)@[u as int] == bu,
        final(paths)@[u as int] == old(paths)@[u as int],
        final(reached)@[origin as int],
        final(best)@[origin as int] == 0,
        final(paths)@[origin as int]@ == seq![origin],
        !changed ==> final(reached)@ == old(reached)@ && final(best)@ == old(best)@,
        ({
            let e = g.edges@[u as int]@[j as int];
            g.risks@[e.to as int] >= min_risk && bu + e.cost <= u64::MAX ==> final(reached)@[e.to as int]
                && final(best)@[e.to as int] <= bu + e.cost
        }),
{
    let e = g.edges[u][j];
    let w = e.to;
    assert(w < g.n());
    if g.risks[w] >= min_risk && bu <= u64::MAX - e.cost as u64 {
        let nc = bu + e.cost as u64;
        if !reached[w] || nc < best[w] {
            proof {
                lemma_min_edge_bounds(g.edges@[u as int]@, w as int, j as int);
                lemma_walk_push(*g, paths@[u as int]@, origin as int, u as int, w, min_risk as int);
            }
            let np = extended(&paths[u], w);
            let ghost old_reached = reached@;
            let ghost old_best = best@;
            reached.set(w, true);
            best.set(w, nc);
            paths.set(w, np);
            proof {
                assert(w != origin) by {
                    if w == origin {
                        assert(nc >= 0);
                    }
                }
                assert(w != u) by {
                    if w == u {
                        assert(nc >= bu);
                    }
                }
                assert forall|x: int| 0 <= x < g.n() && #[trigger] reached@[x] implies {
                    &&& is_walk(*g, paths@[x]@, origin as int, x, min_risk as int)
                    &&& walk_cost(*g, paths@[x]@) <= best@[x]
                } by {
                    if x != w {
                        assert(old_reached[x]);
                    }
                }
                assert forall|q: Seq<usize>, x: int|
                    q.len() <= len@ && #[trigger] is_walk(*g, q, origin as int, x, min_risk as int)
                    implies reached@[x] && best@[x] <= walk_cost(*g, q) by {
                    assert(old_reached[x] && old_best[x] <= walk_cost(*g, q));
                }
            }
            return true;
        }
    }
    false
}

/// What a path query answers for `dest`: the origin alone when `dest` is the
/// origin; otherwise a risk-compliant walk no dearer than any risk-compliant
/// walk through at most as many locations as the graph has, or than any
/// risk-compliant walk that repeats no location; `None` exactly when no such
/// walk exists.
pub open spec fn shortest_ok(g: TravelGraph, origin: int, dest: int, min_risk: int, r: Option<Vec<usize>>) -> bool {
    &&& origin == dest ==> (r matches Some(p) && p@ == seq![origin as usize])
    &&& r matches Some(p) ==> is_walk(g, p@, origin, dest, min_risk)
    &&& r matches Some(p) ==> forall|q: Seq<usize>|
        q.len() <= g.n() && #[trigger] is_walk(g, q, origin, dest, min_risk) ==> walk_cost(g, p@) <= walk_cost(g, q)
    &&& r is None ==> forall|q: Seq<usize>| q.len() <= g.n() ==> !#[trigger] is_walk(g, q, origin, dest, min_risk)
    &&& r matches Some(p) ==> forall|q: Seq<usize>|
        #[trigger] is_walk(g, q, origin, dest, min_risk) && q.no_duplicates() ==> walk_cost(g, p@) <= walk_cost(g, q)
    &&& r is None ==> forall|q: Seq<usize>| #[trigger] is_walk(g, q, origin, dest, min_risk) ==> !q.no_duplicates()
}

/// No connection out of a reached location can lower the recorded cost of its
/// destination any further.
pub open spec fn stable(g: TravelGraph, min_risk: int, reached: Seq<bool>, best: Seq<u64>, upto: int) -> bool {
    forall|u: int, j: int|
        0 <= u < upto && reached[u] && 0 <= j < g.edges@[u]@.len() && g.risks@[(#[trigger] g.edges@[u]@[j]).to as int] >= min_risk && best[u] + g.edges@[u]@[j].cost <= u64::MAX ==> reached[g.edges@[u]@[j].to as int]
            && best[g.edges@[u]@[j].to as int] <= best[u] + g.edges@[u]@[j].cost
}

/// Once relaxation is stable, the bound for walks of some length extends to
/// walks of any length up to the number of locations.
proof fn lemma_stable_extends(
    g: TravelGraph,
    origin: int,
    min_risk: int,
    reached: Seq<bool>,
    best: Seq<u64>,
    paths: Seq<Vec<usize>>,
    len: int,
)
    requires
        g.wf(),
        1 <= len <= g.n(),
        relaxed(g, origin, min_risk, reached, best, paths, len),
        stable(g, min_risk, reached, best, g.n()),
    ensures
        relaxed(g, origin, min_risk, reached, best, paths, g.n()),
    decreases g.n() - len,
{
    if len < g.n() {
        assert forall|q: Seq<usize>, v: int|
            q.len() <= len + 1 && #[trigger] is_walk(g, q, origin, v, min_risk) implies reached[v] && best[v]
                <= walk_cost(g, q) by {
            if q.len() == len + 1 {
                let p = q.drop_last();
                let u = q[q.len() - 2] as int;
                lemma_walk_prefix(g, q, origin, v, min_risk);
                lemma_walk_cost_bound(g, p);
                let c = edge_cost(g, u, v).unwrap();
                lemma_min_edge_attained(g.edges@[u]@, v);
                let i = choose|i: int|
                    0 <= i < g.edges@[u]@.len() && (#[trigger] g.edges@[u]@[i]).to as int == v
                        && g.edges@[u]@[i].cost as int == c;
                assert(q[q.len() - 1] == v);
                assert(walk_cost(g, q) == walk_cost(g, p) + c);
                assert((p.len() - 1) * 0xffff_ffff + 0xffff_ffff <= 0xffff_ffff * 0xffff_ffff) by (nonlinear_arith)
                    requires
                        p.len() <= MAX_LOCATIONS,
                ;
            }
        }
        lemma_stable_extends(g, origin, min_risk, reached, best, paths, len + 1);
    }
}

/// The cheapest path from `origin` to every location (see `shortest_ok`).
/// Equal-cost alternatives are settled by a fixed scan order, so the result
/// depends on the arguments alone.
pub fn shortest_paths(g: &TravelGraph, origin: usize, min_risk: i32) -> (r: Vec<Option<Vec<usize>>>)
    requires
        g.wf(),
        origin < g.n(),
    ensures
        r@.len() == g.n(),
        forall|d: int| 0 <= d < g.n() ==> shortest_ok(*g, origin as int, d, min_risk as int, #[trigger] r@[d]),
{
    let n = g.ids.len();
    let mut reached: Vec<bool> = Vec::new();
    let mut best: Vec<u64> = Vec::new();
    let mut paths: Vec<Vec<usize>> = Vec::new();
    let mut v: usize = 0;
    while v < n
        invariant
            v <= n,
            n == g.n(),
            reached@.len() == v,
            best@.len() == v,
            paths@.len() == v,
            forall|w: int| 0 <= w < v ==> #[trigger] reached@[w] == (w == origin),
            origin < v ==> paths@[origin as int]@ == seq![origin] && best@[origin as int] == 0,
        decreases n - v,
    {
        reached.push(v == origin);
        best.push(0);
        if v == origin {
            let mut p0: Vec<usize> = Vec::new();
            p0.push(origin);
            assert(p0@ =~= seq![origin]);
            paths.push(p0);
        } else {
            paths.push(Vec::new());
        }
        v = v + 1;
    }
    proof {
        assert(is_walk(*g, paths@[origin as int]@, origin as int, origin as int, min_risk as int));
        assert forall|q: Seq<usize>, v: int|
            q.len() <= 1 && #[trigger] is_walk(*g, q, origin as int, v, min_risk as int) implies reached@[v]
                && best@[v] <= walk_cost(*g, q) by {
            assert(q[0] == q.last());
        }
    }
    let mut round: usize = 1;
    let mut settled = false;
    while round < n && !settled
        invariant
            1 <= round <= n,
            n == g.n(),
            g.wf(),
            origin < n,
            relaxed(*g, origin as int, min_risk as int, reached@, best@, paths@, round as int),
            settled ==> relaxed(*g, origin as int, min_risk as int, reached@, best@, paths@, n as int),
            reached@[origin as int],
            best@[origin as int] == 0,
            paths@[origin as int]@ == seq![origin],
        decreases n - round + (if settled { 0int } else { 1int }),
    {
        let ghost r0 = reached@;
        let ghost b0 = best@;
        let mut changed = false;
        let mut u: usize = 0;
        while u < n
            invariant
                u <= n,
                1 <= round < n,
                n == g.n(),
                g.wf(),
                origin < n,
                relaxed(*g, origin as int, min_risk as int, reached@, best@, paths@, round as int),
                forall|q: Seq<usize>, v: int|
                    q.len() == round + 1 && #[trigger] is_walk(*g, q, origin as int, v, min_risk as int)
                        && q[q.len() - 2] < u ==> reached@[v] && best@[v] <= walk_cost(*g, q),
                !changed ==> reached@ == r0 && best@ == b0,
                !changed ==> stable(*g, min_risk as int, reached@, best@, u as int),
                reached@[origin as int],
                best@[origin as int] == 0,
                paths@[origin as int]@ == seq![origin],
            decreases n - u,
        {
            if reached[u] {
                let bu = best[u];
                let ghost pu = paths@[u as int]@;
                let es = &g.edges[u];
                let mut j: usize = 0;
                while j < es.len()
                    invariant
                        j <= es@.len(),
                        u < n,
                        1 <= round < n,
                        n == g.n(),
                        g.wf(),
                        origin < n,
                        *es == g.edges@[u as int],
                        reached@[u as int],
                        best@[u as int] == bu,
                        paths@[u as int]@ == pu,
                        relaxed(*g, origin as int, min_risk as int, reached@, best@, paths@, round as int),
                        forall|q: Seq<usize>, v: int|
                            q.len() == round + 1 && #[trigger] is_walk(*g, q, origin as int, v, min_risk as int)
                                && q[q.len() - 2] < u ==> reached@[v] && best@[v] <= walk_cost(*g, q),
                        forall|i: int|
                            0 <= i < j && g.risks@[(#[trigger] es@[i]).to as int] >= min_risk && bu + es@[i].cost
                                <= u64::MAX ==> reached@[es@[i].to as int] && best@[es@[i].to as int] <= bu
                                + es@[i].cost,
                        !changed ==> reached@ == r0 && best@ == b0,
                        !changed ==> stable(*g, min_risk as int, reached@, best@, u as int),
                        reached@[origin as int],
                        best@[origin as int] == 0,
                        paths@[origin as int]@ == seq![origin],
                    decreases es@.len() - j,
                {
                    let step = relax_edge(g, origin, min_risk, Ghost(round as int), u, j, bu, &mut reached, &mut best, &mut paths);
                    if step {
                        changed = true;
                    }
                    j = j + 1;
                }
                proof {
                    assert forall|q: Seq<usize>, v: int|
                        q.len() == round + 1 && #[trigger] is_walk(*g, q, origin as int, v, min_risk as int)
                            && q[q.len() - 2] <= u implies reached@[v] && best@[v] <= walk_cost(*g, q) by {
                        if q[q.len() - 2] == u {
                            let p = q.drop_last();
                            lemma_walk_prefix(*g, q, origin as int, v, min_risk as int);
                            lemma_walk_cost_bound(*g, p);
                            let c = edge_cost(*g, u as int, v).unwrap();
                            lemma_min_edge_attained(es@, v);
                            let i = choose|i: int|
                                0 <= i < es@.len() && (#[trigger] es@[i]).to as int == v && es@[i].cost as int == c;
                            assert(q[q.len() - 1] == v);
                            assert(walk_cost(*g, q) == walk_cost(*g, p) + c);
                            assert(bu <= walk_cost(*g, p));
                            assert((p.len() - 1) * 0xffff_ffff + 0xffff_ffff <= 0xffff_ffff * 0xffff_ffff)
                                by (nonlinear_arith)
                                requires
                                    p.len() <= MAX_LOCATIONS,
                            ;
                        }
                    }
                    if !changed {
                        assert forall|w: int, i: int|
                            0 <= w < u + 1 && reached@[w] && 0 <= i < g.edges@[w]@.len() && g.risks@[(#[trigger] g.edges@[w]@[i]).to as int] >= min_risk && best@[w] + g.edges@[w]@[i].cost <= u64::MAX implies reached@[g.edges@[w]@[i].to as int]
                                && best@[g.edges@[w]@[i].to as int] <= best@[w] + g.edges@[w]@[i].cost by {
                            if w == u {
                                assert(es@[i] == g.edges@[w]@[i]);
                            }
                        }
                    }
                }
            } else {
                proof {
                    assert forall|q: Seq<usize>, v: int|
                        q.len() == round + 1 && #[trigger] is_walk(*g, q, origin as int, v, min_risk as int)
                            && q[q.len() - 2] <= u implies reached@[v] && best@[v] <= walk_cost(*g, q) by {
                        if q[q.len() - 2] == u {
                            lemma_walk_prefix(*g, q, origin as int, v, min_risk as int);
                        }
                    }
                }
            }
            u = u + 1;
        }
        proof {
            assert forall|q: Seq<usize>, v: int|
                q.len() <= round + 1 && #[trigger] is_walk(*g, q, origin as int, v, min_risk as int)
                implies reached@[v] && best@[v] <= walk_cost(*g, q) by {
                if q.len() == round + 1 {
                    assert(q[q.len() - 2] < g.n());
                }
            }
            if !changed {
                lemma_stable_extends(*g, origin as int, min_risk as int, reached@, best@, paths@, round + 1);
            }
        }
        if !changed {
            settled = true;
        }
        round = round + 1;
    }
    let mut out: Vec<Option<Vec<usize>>> = Vec::new();
    let mut d: usize = 0;
    while d < n
        invariant
            d <= n,
            n == g.n(),
            g.wf(),
            origin < n,
            out@.len() == d,
            relaxed(*g, origin as int, min_risk as int, reached@, best@, paths@, n as int),
            reached@[origin as int],
            best@[origin as int] == 0,
            paths@[origin as int]@ == seq![origin],
            forall|k: int| 0 <= k < d ==> shortest_ok(*g, origin as int, k, min_risk as int, #[trigger] out@[k]),
        decreases n - d,
    {
        let entry = if reached[d] {
            Some(copy_of(&paths[d]))
        } else {
            None
        };
        proof {
            assert forall|q: Seq<usize>|
                #[trigger] is_walk(*g, q, origin as int, d as int, min_risk as int) && q.no_duplicates()
                implies q.len() <= g.n() by {
                lemma_simple_walk_len(*g, q, origin as int, d as int, min_risk as int);
            }
            if reached@[d as int] {
                let p = entry.unwrap();
                assert forall|q: Seq<usize>|
                    q.len() <= g.n() && #[trigger] is_walk(*g, q, origin as int, d as int, min_risk as int)
                    implies walk_cost(*g, p@) <= walk_cost(*g, q) by {
                    assert(best@[d as int] <= walk_cost(*g, q));
                }
            }
        }
        out.push(entry);
        d = d + 1;
    }
    out
}

/// The cheapest path from `origin` to `dest` (see `shortest_ok`).
pub fn shortest_path(g: &TravelGraph, origin: usize, dest: usize, min_risk: i32) -> (r: Option<Vec<usize>>)
    requires
        g.wf(),
        origin < g.n(),
        dest < g.n(),
    ensures
        origin == dest ==> (r matches Some(p) && p@ == seq![origin]),
        r matches Some(p) ==> is_walk(*g, p@, origin as int, dest as int, min_risk as int),
        r matches Some(p) ==> forall|q: Seq<usize>|
            q.len() <= g.n() && #[trigger] is_walk(*g, q, origin as int, dest as int, min_risk as int)
                ==> walk_cost(*g, p@) <= walk_cost(*g, q),
        r is None ==> forall|q: Seq<usize>|
            q.len() <= g.n() ==> !#[trigger] is_walk(*g, q, origin as int, dest as int, min_risk as int),
        r matches Some(p) ==> forall|q: Seq<usize>|
            #[trigger] is_walk(*g, q, origin as int, dest as int, min_risk as int) && q.no_duplicates()
                ==> walk_cost(*g, p@) <= walk_cost(*g, q),
        r is None ==> forall|q: Seq<usize>|
            #[trigger] is_walk(*g, q, origin as int, dest as int, min_risk as int) ==> !q.no_duplicates(),
{
    let mut all = shortest_paths(g, origin, min_risk);
    let r = all.swap_remove(dest);
    assert(shortest_ok(*g, origin as int, dest as int, min_risk as int, r));
    r
}

} // verus!
