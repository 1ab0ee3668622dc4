use vstd::prelude::*;

use crate::errors::RouteError;
use crate::graph::{adj_view, AdjGraph, Edge};
use crate::table::{lemma_as_map_props, lemma_submap_len, SortedMap};

verus! {

/// The search's predecessor map: a settled node to its parent on the
/// best-known path, the source to no parent.
pub type ParentMap = SortedMap<Option<i64>>;

/// The graph has a directed edge from u to v.
pub open spec fn has_edge(g: Map<i64, Seq<Edge>>, u: i64, v: i64) -> bool {
    g.contains_key(u) && exists|i: int| 0 <= i < g[u].len() && (#[trigger] g[u][i]).to == v
}

/// p walks the graph's edges from s to t.
pub open spec fn is_path(g: Map<i64, Seq<Edge>>, p: Seq<i64>, s: i64, t: i64) -> bool {
    &&& p.len() >= 1
    &&& p[0] == s
    &&& p[p.len() - 1] == t
    &&& forall|i: int| 0 <= i < p.len() - 1 ==> has_edge(g, #[trigger] p[i], p[i + 1])
}

/// Some path leads from s to t.
pub open spec fn reachable(g: Map<i64, Seq<Edge>>, s: i64, t: i64) -> bool {
    exists|p: Seq<i64>| is_path(g, p, s, t)
}

/// The predecessor mapping is well formed for graph g and source s, under a
/// rank that decreases toward the source: the source is held with no parent,
/// and every other held node has a held parent one rank lower with a real
/// edge to it.
pub open spec fn parent_ok(
    pm: Map<i64, Option<i64>>,
    g: Map<i64, Seq<Edge>>,
    s: i64,
    rank: Map<i64, nat>,
) -> bool {
    &&& pm.contains_key(s)
    &&& pm[s] is None
    &&& forall|k: i64|
        #[trigger] pm.contains_key(k) && k != s ==> pm[k] is Some && pm.contains_key(
            pm[k]->Some_0,
        ) && has_edge(g, pm[k]->Some_0, k) && rank[k] == rank[pm[k]->Some_0] + 1
}

/// Every rank the mapping holds lies below the mapping's size: the bound
/// under which a backward walk must reach the source.
pub open spec fn rank_bounded(pm: Map<i64, Option<i64>>, rank: Map<i64, nat>) -> bool {
    forall|k: i64| #[trigger] pm.contains_key(k) ==> rank[k] < pm.dom().len()
}

/// Every node held by a well-formed predecessor mapping is reachable from
/// the source: its parent chain, read backward, is a path.
pub proof fn lemma_parent_path(
    pm: Map<i64, Option<i64>>,
    g: Map<i64, Seq<Edge>>,
    s: i64,
    rank: Map<i64, nat>,
    k: i64,
)
    requires
        parent_ok(pm, g, s, rank),
        pm.contains_key(k),
    ensures
        reachable(g, s, k),
    decreases rank[k],
{
    if k == s {
        let p = seq![s];
        assert(is_path(g, p, s, s));
    } else {
        let c = pm[k]->Some_0;
        assert(pm.contains_key(c) && has_edge(g, c, k) && rank[k] == rank[c] + 1);
        lemma_parent_path(pm, g, s, rank, c);
        let q = choose|q: Seq<i64>| is_path(g, q, s, c);
        let p = q.push(k);
        assert(p[p.len() - 1] == k);
        assert(p[0] == q[0]);
        assert(forall|i: int| 0 <= i < q.len() ==> p[i] == q[i]);
        assert(is_path(g, p, s, k));
    }
}

/// A set that contains the source, is closed under the graph's edges, and
/// misses t admits no path from the source to t.
proof fn lemma_path_stays(g: Map<i64, Seq<Edge>>, s_set: Set<i64>, p: Seq<i64>, s: i64, t: i64)
    requires
        is_path(g, p, s, t),
        s_set.contains(s),
        forall|u: i64, v: i64| s_set.contains(u) && has_edge(g, u, v) ==> s_set.contains(v),
    ensures
        s_set.contains(t),
    decreases p.len(),
{
    if p.len() == 1 {
    } else {
        let q = p.drop_last();
        let t2 = p[p.len() - 2];
        assert(forall|i: int| 0 <= i < q.len() ==> q[i] == p[i]);
        assert(is_path(g, q, s, t2));
        lemma_path_stays(g, s_set, q, s, t2);
        assert(has_edge(g, t2, t));
    }
}

pub proof fn lemma_closed_no_path(g: Map<i64, Seq<Edge>>, s_set: Set<i64>, s: i64, t: i64)
    requires
        s_set.contains(s),
        !s_set.contains(t),
        forall|u: i64, v: i64| s_set.contains(u) && has_edge(g, u, v) ==> s_set.contains(v),
    ensures
        !reachable(g, s, t),
{
    if reachable(g, s, t) {
        let p = choose|p: Seq<i64>| is_path(g, p, s, t);
        lemma_path_stays(g, s_set, p, s, t);
    }
}

/// Some frontier entry carries this node.
pub open spec fn in_frontier(f: Seq<(u64, i64)>, k: i64) -> bool {
    exists|i: int| 0 <= i < f.len() && (#[trigger] f[i]).1 == k
}

/// Every outgoing edge of k leads to a held node.
pub open spec fn edges_covered(g: Map<i64, Seq<Edge>>, pm: Map<i64, Option<i64>>, k: i64) -> bool {
    g.contains_key(k) ==> forall|j: int|
        0 <= j < g[k].len() ==> pm.contains_key((#[trigger] g[k][j]).to)
}

/// Collect every node identifier the graph mentions, plus the source: the
/// universe the search can ever settle.
fn collect_universe(g: &AdjGraph, source: i64) -> (r: SortedMap<()>)
    requires
        g.wf(),
    ensures
        r.wf(),
        r@.contains_key(source),
        forall|k: i64| adj_view(*g).contains_key(k) ==> r@.contains_key(k),
        forall|k: i64, j: int|
            adj_view(*g).contains_key(k) && 0 <= j < adj_view(*g)[k].len() ==> r@.contains_key(
                (#[trigger] adj_view(*g)[k][j]).to,
            ),
{
    proof {
        lemma_as_map_props(g.entries@);
    }
    let mut uni: SortedMap<()> = SortedMap::new();
    uni.set(source, ());
    let n = g.entries.len();
    let mut i: usize = 0;
    while i < n
        invariant
            g.wf(),
            n == g.entries@.len(),
            0 <= i <= n,
            uni.wf(),
            uni@.contains_key(source),
            forall|ii: int|
                0 <= ii < i ==> uni@.contains_key((#[trigger] g.entries@[ii]).0) && forall|j: int|
                    0 <= j < g.entries@[ii].1@.len() ==> uni@.contains_key(
                        (#[trigger] g.entries@[ii].1@[j]).to,
                    ),
        decreases n - i,
    {
        let key = g.entries[i].0;
        uni.set(key, ());
        let m = g.entries[i].1.len();
        let mut j: usize = 0;
        while j < m
            invariant
                g.wf(),
                0 <= i < g.entries@.len(),
                m == g.entries@[i as int].1@.len(),
                0 <= j <= m,
                uni.wf(),
                uni@.contains_key(source),
                uni@.contains_key(g.entries@[i as int].0),
                forall|jj: int|
                    0 <= jj < j ==> uni@.contains_key((#[trigger] g.entries@[i as int].1@[jj]).to),
                forall|ii: int|
                    0 <= ii < i ==> uni@.contains_key((#[trigger] g.entries@[ii]).0) && forall|
                        jj: int,
                    |
                        0 <= jj < g.entries@[ii].1@.len() ==> uni@.contains_key(
                            (#[trigger] g.entries@[ii].1@[jj]).to,
                        ),
            decreases m - j,
        {
            let e = g.entries[i].1[j];
            uni.set(e.to, ());
            j = j + 1;
        }
        i = i + 1;
    }
    proof {
        assert forall|k: i64| adj_view(*g).contains_key(k) implies uni@.contains_key(k) by {
            let ii = choose|ii: int|
                0 <= ii < g.entries@.len() && (#[trigger] g.entries@[ii]).0 == k;
        }
        assert forall|k: i64, j: int|
            adj_view(*g).contains_key(k) && 0 <= j < adj_view(*g)[k].len() implies uni@.contains_key(
            (adj_view(*g)[k][j]).to,
        ) by {
            let ii = choose|ii: int|
                0 <= ii < g.entries@.len() && (#[trigger] g.entries@[ii]).0 == k;
            assert(g@[k] == g.entries@[ii].1);
            assert(adj_view(*g)[k] == g.entries@[ii].1@);
            assert(uni@.contains_key((g.entries@[ii].1@[j]).to));
        }
    }
    uni
}

/// Single-source shortest-path search with an integer-keyed frontier:
/// entries are popped in (cumulative distance, node) order, a node is
/// settled the first time a predecessor is written for it, and the search
/// stops as soon as the goal is popped. Returns the predecessor map, or
/// reports that no route exists when the frontier empties first: the goal is
/// settled if and only if some path reaches it.
pub fn search(g: &AdjGraph, source: i64, goal: i64) -> (r: Result<(ParentMap, u64), RouteError>)
    requires
        g.wf(),
    ensures
        match r {
            Ok(p) => {
                &&& p.0.wf()
                &&& p.0@.contains_key(goal)
                &&& p.0@.contains_key(source)
                &&& exists|rank: Map<i64, nat>|
                    parent_ok(p.0@, adj_view(*g), source, rank) && rank_bounded(p.0@, rank)
                &&& reachable(adj_view(*g), source, goal)
            },
            Err(e) => {
                &&& e == RouteError::NoRouteFound
                &&& !reachable(adj_view(*g), source, goal)
            },
        },
{
    let ghost gv = adj_view(*g);
    let uni = collect_universe(g, source);
    let mut parent: ParentMap = SortedMap::new();
    let mut frontier: Vec<(u64, i64)> = Vec::new();
    parent.set(source, None);
    frontier.push((0, source));
    let ghost mut rank: Map<i64, nat> = Map::empty().insert(source, 0);
    proof {
        lemma_as_map_props(uni.entries@);
        lemma_as_map_props(parent.entries@);
        lemma_submap_len(parent, uni);
        assert(frontier@[0].1 == source);
        assert(in_frontier(frontier@, source));
    }
    while frontier.len() > 0
        invariant
            g.wf(),
            gv == adj_view(*g),
            uni.wf(),
            uni@.contains_key(source),
            forall|k: i64| gv.contains_key(k) ==> uni@.contains_key(k),
            forall|k: i64, j: int|
                gv.contains_key(k) && 0 <= j < gv[k].len() ==> uni@.contains_key(
                    (#[trigger] gv[k][j]).to,
                ),
            parent.wf(),
            parent_ok(parent@, gv, source, rank),
            rank_bounded(parent@, rank),
            forall|i: int|
                0 <= i < frontier@.len() ==> parent@.contains_key((#[trigger] frontier@[i]).1),
            forall|i: int, j: int|
                0 <= i < j < frontier@.len() ==> (#[trigger] frontier@[i]).1 != (
                #[trigger] frontier@[j]).1,
            forall|k: i64| parent@.contains_key(k) ==> uni@.contains_key(k),
            forall|k: i64|
                parent@.contains_key(k) && !in_frontier(frontier@, k) ==> edges_covered(
                    gv,
                    parent@,
                    k,
                ),
            parent@.contains_key(goal) ==> in_frontier(frontier@, goal),
            parent.entries@.len() <= uni.entries@.len(),
        decreases 2 * (uni.entries@.len() - parent.entries@.len()) + frontier@.len(),
    {
        // Deterministic pop: the least (distance, node) pair.
        let mut best: usize = 0;
        let mut bi: usize = 1;
        while bi < frontier.len()
            invariant
                frontier@.len() > 0,
                0 <= best < frontier@.len(),
                1 <= bi <= frontier@.len(),
            decreases frontier@.len() - bi,
        {
            if frontier[bi].0 < frontier[best].0 || (frontier[bi].0 == frontier[best].0
                && frontier[bi].1 < frontier[best].1) {
                best = bi;
            }
            bi = bi + 1;
        }
        let ghost old_frontier = frontier@;
        let ghost old_flen = frontier@.len() as int;
        let ghost plen0 = parent.entries@.len() as int;
        let popped = frontier.swap_remove(best);
        let dist = popped.0;
        let current = popped.1;
        proof {
            assert(parent@.contains_key(current));
            assert forall|i: int| 0 <= i < frontier@.len() implies exists|i2: int|
                0 <= i2 < old_frontier.len() && i2 != best && old_frontier[i2] == (
                #[trigger] frontier@[i]) by {
                if i == best {
                    assert(old_frontier[old_frontier.len() - 1] == frontier@[i]);
                    assert(best < old_frontier.len() - 1);
                } else {
                    assert(old_frontier[i] == frontier@[i]);
                }
            }
            assert forall|i: int, j: int| 0 <= i < j < frontier@.len() implies (
            #[trigger] frontier@[i]).1 != (#[trigger] frontier@[j]).1 by {
                let i2 = choose|i2: int|
                    0 <= i2 < old_frontier.len() && i2 != best && old_frontier[i2] == frontier@[i];
                let j2 = choose|j2: int|
                    0 <= j2 < old_frontier.len() && j2 != best && old_frontier[j2] == frontier@[j];
                if i == best {
                    assert(frontier@[i] == old_frontier[old_frontier.len() - 1]);
                    assert(frontier@[j] == old_frontier[j]);
                } else if j == best {
                    assert(frontier@[j] == old_frontier[old_frontier.len() - 1]);
                    assert(frontier@[i] == old_frontier[i]);
                } else {
                    assert(frontier@[i] == old_frontier[i]);
                    assert(frontier@[j] == old_frontier[j]);
                }
            }
            assert(!in_frontier(frontier@, current)) by {
                if in_frontier(frontier@, current) {
                    let i = choose|i: int|
                        0 <= i < frontier@.len() && (#[trigger] frontier@[i]).1 == current;
                    if i == best {
                        assert(frontier@[i] == old_frontier[old_frontier.len() - 1]);
                        assert(old_frontier[best as int].1 == current);
                    } else {
                        assert(frontier@[i] == old_frontier[i]);
                        assert(old_frontier[best as int].1 == current);
                    }
                }
            }
            assert forall|k: i64|
                parent@.contains_key(k) && k != current && !in_frontier(frontier@, k)
                implies edges_covered(gv, parent@, k) by {
                if in_frontier(old_frontier, k) {
                    let i = choose|i: int|
                        0 <= i < old_frontier.len() && (#[trigger] old_frontier[i]).1 == k;
                    if i == old_frontier.len() - 1 {
                        if best < old_frontier.len() - 1 {
                            assert(frontier@[best as int].1 == k);
                        } else {
                            assert(old_frontier[best as int].1 == current);
                        }
                    } else {
                        if i == best {
                            assert(old_frontier[best as int].1 == current);
                        } else {
                            assert(frontier@[i].1 == k);
                        }
                    }
                }
            }
            if parent@.contains_key(goal) {
                let i = choose|i: int|
                    0 <= i < old_frontier.len() && (#[trigger] old_frontier[i]).1 == goal;
                if current != goal {
                    if i == old_frontier.len() - 1 {
                        if best < old_frontier.len() - 1 {
                            assert(frontier@[best as int].1 == goal);
                        } else {
                            assert(old_frontier[best as int].1 == current);
                        }
                    } else {
                        if i == best {
                            assert(old_frontier[best as int].1 == current);
                        } else {
                            assert(frontier@[i].1 == goal);
                        }
                    }
                    assert(in_frontier(frontier@, goal));
                }
            }
            assert forall|k: i64| in_frontier(frontier@, k) implies in_frontier(old_frontier, k) by {
                let i = choose|i: int|
                    0 <= i < frontier@.len() && (#[trigger] frontier@[i]).1 == k;
            }
            assert forall|k: i64|
                in_frontier(old_frontier, k) && k != current implies in_frontier(frontier@, k) by {
                let i = choose|i: int|
                    0 <= i < old_frontier.len() && (#[trigger] old_frontier[i]).1 == k;
                if i == old_frontier.len() - 1 {
                    assert(frontier@[best as int].1 == k);
                } else {
                    assert(frontier@[i].1 == k);
                }
            }
        }
        if current == goal {
            proof {
                lemma_parent_path(parent@, gv, source, rank, goal);
            }
            return Ok((parent, dist));
        }
        let row = match g.get(current) {
            Some(r) => r,
            None => {
                proof {
                    lemma_submap_len(parent, uni);
                }
                continue;
            },
        };
        let m = row.len();
        let mut j: usize = 0;
        while j < m
            invariant
                g.wf(),
                gv == adj_view(*g),
                uni.wf(),
                uni@.contains_key(source),
                forall|k: i64| gv.contains_key(k) ==> uni@.contains_key(k),
                forall|k: i64, jj: int|
                    gv.contains_key(k) && 0 <= jj < gv[k].len() ==> uni@.contains_key(
                        (#[trigger] gv[k][jj]).to,
                    ),
                gv.contains_key(current),
                row@ == gv[current],
                m == row@.len(),
                0 <= j <= m,
                parent.wf(),
                parent@.contains_key(current),
                parent_ok(parent@, gv, source, rank),
                rank_bounded(parent@, rank),
                forall|i: int|
                    0 <= i < frontier@.len() ==> parent@.contains_key((#[trigger] frontier@[i]).1),
                forall|i: int, jj: int|
                    0 <= i < jj < frontier@.len() ==> (#[trigger] frontier@[i]).1 != (
                    #[trigger] frontier@[jj]).1,
                forall|k: i64| parent@.contains_key(k) ==> uni@.contains_key(k),
                forall|k: i64|
                    parent@.contains_key(k) && k != current && !in_frontier(frontier@, k)
                        ==> edges_covered(gv, parent@, k),
                forall|jj: int| 0 <= jj < j ==> parent@.contains_key((#[trigger] row@[jj]).to),
                parent@.contains_key(goal) ==> in_frontier(frontier@, goal),
                goal != current,
                !in_frontier(frontier@, current),
                parent.entries@.len() <= uni.entries@.len(),
                frontier@.len() + 2 * (uni.entries@.len() - parent.entries@.len()) <= 2 * (
                uni.entries@.len() - plen0) + old_flen - 1,
            decreases m - j,
        {
            let e = row[j];
            if !parent.contains_key(e.to) {
                let nd = if e.weight_mm > u64::MAX - dist {
                    u64::MAX
                } else {
                    dist + e.weight_mm
                };
                let ghost p0 = parent@;
                proof {
                    lemma_as_map_props(parent.entries@);
                }
                parent.set(e.to, Some(current));
                proof {
                    rank = rank.insert(e.to, (rank[current] + 1) as nat);
                    assert(has_edge(gv, current, e.to)) by {
                        assert(gv[current][j as int].to == e.to);
                    }
                    assert(parent_ok(parent@, gv, source, rank));
                    lemma_as_map_props(parent.entries@);
                    assert(parent@.dom().len() == p0.dom().len() + 1);
                    assert(rank_bounded(parent@, rank));
                    lemma_submap_len(parent, uni);
                }
                let ghost f0 = frontier@;
                frontier.push((nd, e.to));
                proof {
                    assert(frontier@[frontier@.len() - 1].1 == e.to);
                    assert(in_frontier(frontier@, e.to));
                    assert forall|k: i64| in_frontier(f0, k) implies in_frontier(frontier@, k) by {
                        let i = choose|i: int| 0 <= i < f0.len() && (#[trigger] f0[i]).1 == k;
                        assert(frontier@[i].1 == k);
                    }
                    assert forall|k: i64|
                        in_frontier(frontier@, k) && k != e.to implies in_frontier(f0, k) by {
                        let i = choose|i: int|
                            0 <= i < frontier@.len() && (#[trigger] frontier@[i]).1 == k;
                        assert(f0[i].1 == k);
                    }
                    assert forall|k: i64|
                        parent@.contains_key(k) && k != current && !in_frontier(frontier@, k)
                        implies edges_covered(gv, parent@, k) by {
                        if k == e.to {
                            assert(in_frontier(frontier@, e.to));
                        } else {
                            assert(p0.contains_key(k));
                            assert(!in_frontier(f0, k));
                            assert(edges_covered(gv, p0, k));
                            if gv.contains_key(k) {
                                assert forall|jj: int|
                                    0 <= jj < gv[k].len() implies parent@.contains_key(
                                    (#[trigger] gv[k][jj]).to,
                                ) by {
                                    assert(p0.contains_key(gv[k][jj].to));
                                }
                            }
                        }
                    }
                }
            }
            j = j + 1;
        }
        proof {
            assert(edges_covered(gv, parent@, current));
            assert forall|k: i64|
                parent@.contains_key(k) && !in_frontier(frontier@, k) implies edges_covered(
                gv,
                parent@,
                k,
            ) by {
                if k != current {
                }
            }
        }
    }
    proof {
        let s_set = parent@.dom();
        assert forall|u: i64, v: i64| s_set.contains(u) && has_edge(gv, u, v) implies s_set.contains(
            v,
        ) by {
            assert(!in_frontier(frontier@, u));
            assert(edges_covered(gv, parent@, u));
        }
        lemma_closed_no_path(gv, s_set, source, goal);
    }
    Err(RouteError::NoRouteFound)
}

} // verus!
