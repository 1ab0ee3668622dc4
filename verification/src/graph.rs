use vstd::prelude::*;

use crate::errors::RouteError;
use crate::filter::{is_cyclable_way, spec_cyclable, tags_contain, tags_have, FilterConfig, RawWay};
use crate::geom::{distance_mm, spec_distance_mm, valid_lat_e7, valid_lon_e7, GeoNode};
use crate::table::SortedMap;

verus! {

/// A directed weighted edge, stored inline in the adjacency graph.
#[derive(Clone, Copy, Debug, PartialEq, Eq, Structural)]
pub struct Edge {
    pub to: i64,
    pub weight_mm: u64,
}

/// The node-coordinate table: node identifier to fixed-point (latitude,
/// longitude).
pub type NodeTable = SortedMap<(i64, i64)>;

/// The adjacency graph: node identifier to its outgoing edges, in insertion
/// order.
pub type AdjGraph = SortedMap<Vec<Edge>>;

/// The adjacency graph as a mathematical mapping to edge sequences.
pub open spec fn adj_view(g: AdjGraph) -> Map<i64, Seq<Edge>> {
    g@.map_values(|v: Vec<Edge>| v@)
}

/// The coordinate table denoted by a raw node sequence; a repeated identifier
/// keeps its last record.
pub open spec fn node_map_of(ns: Seq<GeoNode>) -> Map<i64, (i64, i64)>
    decreases ns.len(),
{
    if ns.len() == 0 {
        Map::empty()
    } else {
        node_map_of(ns.drop_last()).insert(
            ns.last().id,
            (ns.last().lat_e7, ns.last().lon_e7),
        )
    }
}

/// Every coordinate held by the table of a well-formed node sequence is on
/// the globe.
pub proof fn lemma_node_map_valid(ns: Seq<GeoNode>)
    requires
        forall|i: int| 0 <= i < ns.len() ==> (#[trigger] ns[i]).wf(),
    ensures
        forall|k: i64|
            node_map_of(ns).contains_key(k) ==> valid_lat_e7(
                (#[trigger] node_map_of(ns)[k]).0 as int,
            ) && valid_lon_e7(node_map_of(ns)[k].1 as int) && k >= 0,
    decreases ns.len(),
{
    if ns.len() > 0 {
        let p = ns.drop_last();
        assert(ns.last() == ns[ns.len() - 1]);
        assert(forall|i: int| 0 <= i < ns.len() - 1 ==> p[i] == ns[i]);
        lemma_node_map_valid(p);
        assert forall|k: i64| node_map_of(ns).contains_key(k) implies valid_lat_e7(
            (#[trigger] node_map_of(ns)[k]).0 as int,
        ) && valid_lon_e7(node_map_of(ns)[k].1 as int) && k >= 0 by {
            if k != ns.last().id {
                assert(node_map_of(p).contains_key(k));
                assert(node_map_of(ns)[k] == node_map_of(p)[k]);
            }
        }
    }
}

/// Appending one directed edge to the adjacency mapping.
pub open spec fn add_edge_spec(m: Map<i64, Seq<Edge>>, u: i64, e: Edge) -> Map<i64, Seq<Edge>> {
    if m.contains_key(u) {
        m.insert(u, m[u].push(e))
    } else {
        m.insert(u, seq![e])
    }
}

/// The weight of the edge between two held coordinates, in millimeters.
pub open spec fn edge_weight(nm: Map<i64, (i64, i64)>, u: i64, v: i64) -> u64 {
    spec_distance_mm(nm[u].0 as int, nm[u].1 as int, nm[v].0 as int, nm[v].1 as int) as u64
}

/// The adjacency mapping after the consecutive pairs of a way whose second
/// index lies below i: each pair adds a forward edge, and a backward edge
/// when the way is bidirectional. A pair with an unknown endpoint adds
/// nothing (the builder rejects such input).
pub open spec fn adj_way(
    m: Map<i64, Seq<Edge>>,
    nm: Map<i64, (i64, i64)>,
    ns: Seq<i64>,
    i: int,
    bidir: bool,
) -> Map<i64, Seq<Edge>>
    decreases i,
{
    if i <= 1 {
        m
    } else {
        let prev = adj_way(m, nm, ns, i - 1, bidir);
        let u = ns[i - 2];
        let v = ns[i - 1];
        if nm.contains_key(u) && nm.contains_key(v) {
            let w = edge_weight(nm, u, v);
            let m1 = add_edge_spec(prev, u, Edge { to: v, weight_mm: w });
            if bidir {
                add_edge_spec(m1, v, Edge { to: u, weight_mm: w })
            } else {
                m1
            }
        } else {
            prev
        }
    }
}

/// A way tagged one-way in the forward sense yields only forward edges.
pub open spec fn spec_oneway(tags: Seq<(String, String)>) -> bool {
    tags_have(tags, "oneway"@, "yes"@)
}

/// The adjacency mapping denoted by the cyclable ways of a sequence.
pub open spec fn adj_of_ways(
    nm: Map<i64, (i64, i64)>,
    ways: Seq<RawWay>,
    cfg: FilterConfig,
) -> Map<i64, Seq<Edge>>
    decreases ways.len(),
{
    if ways.len() == 0 {
        Map::empty()
    } else {
        let prev = adj_of_ways(nm, ways.drop_last(), cfg);
        let w = ways.last();
        if spec_cyclable(w.tags@, cfg) {
            adj_way(prev, nm, w.nodes@, w.nodes@.len() as int, !spec_oneway(w.tags@))
        } else {
            prev
        }
    }
}

/// The node identifiers referenced by the consecutive pairs of a way whose
/// second index lies below i.
pub open spec fn refs_of_way(ns: Seq<i64>, i: int) -> Set<i64>
    decreases i,
{
    if i <= 1 {
        Set::empty()
    } else {
        refs_of_way(ns, i - 1).insert(ns[i - 2]).insert(ns[i - 1])
    }
}

/// The node identifiers referenced by any retained edge.
pub open spec fn refs_of_ways(ways: Seq<RawWay>, cfg: FilterConfig) -> Set<i64>
    decreases ways.len(),
{
    if ways.len() == 0 {
        Set::empty()
    } else {
        let prev = refs_of_ways(ways.drop_last(), cfg);
        let w = ways.last();
        if spec_cyclable(w.tags@, cfg) {
            prev.union(refs_of_way(w.nodes@, w.nodes@.len() as int))
        } else {
            prev
        }
    }
}

/// Every node an edge-contributing way references is held by the table.
pub open spec fn way_refs_ok(nm: Map<i64, (i64, i64)>, ns: Seq<i64>) -> bool {
    ns.len() < 2 || forall|i: int| 0 <= i < ns.len() ==> nm.contains_key(#[trigger] ns[i])
}

/// Every cyclable way's references are held by the table: the raw input is
/// well formed.
pub open spec fn ways_ok(nm: Map<i64, (i64, i64)>, ways: Seq<RawWay>, cfg: FilterConfig) -> bool {
    forall|i: int|
        0 <= i < ways.len() ==> (spec_cyclable((#[trigger] ways[i]).tags@, cfg) ==> way_refs_ok(
            nm,
            ways[i].nodes@,
        ))
}

/// A cyclable two-node way with no one-way tag yields both directed edges,
/// with one and the same weight; tagged one-way in the forward sense, it
/// yields only the forward edge.
pub proof fn lemma_two_node_way(nm: Map<i64, (i64, i64)>, way: RawWay, cfg: FilterConfig)
    requires
        spec_cyclable(way.tags@, cfg),
        way.nodes@.len() == 2,
        nm.contains_key(way.nodes@[0]),
        nm.contains_key(way.nodes@[1]),
        way.nodes@[0] != way.nodes@[1],
    ensures
        ({
            let g = adj_of_ways(nm, seq![way], cfg);
            let a = way.nodes@[0];
            let b = way.nodes@[1];
            let w = edge_weight(nm, a, b);
            &&& !spec_oneway(way.tags@) ==> g.contains_key(a) && g.contains_key(b) && g[a]
                == seq![Edge { to: b, weight_mm: w }] && g[b] == seq![Edge { to: a, weight_mm: w }]
            &&& spec_oneway(way.tags@) ==> g.contains_key(a) && g[a] == seq![Edge { to: b, weight_mm: w }]
                && !g.contains_key(b)
        }),
{
    let ws = seq![way];
    assert(ws.drop_last() =~= Seq::<RawWay>::empty());
    assert(ws.last() == way);
    assert(adj_of_ways(nm, ws.drop_last(), cfg) == Map::<i64, Seq<Edge>>::empty());
    let ns = way.nodes@;
    let bidir = !spec_oneway(way.tags@);
    let m0 = Map::<i64, Seq<Edge>>::empty();
    assert(adj_way(m0, nm, ns, 1, bidir) == m0);
    let a = ns[0];
    let b = ns[1];
    let w = edge_weight(nm, a, b);
    let m1 = add_edge_spec(m0, a, Edge { to: b, weight_mm: w });
    assert(m1 == m0.insert(a, seq![Edge { to: b, weight_mm: w }]));
    if bidir {
        let m2 = add_edge_spec(m1, b, Edge { to: a, weight_mm: w });
        assert(!m1.contains_key(b));
        assert(m2 == m1.insert(b, seq![Edge { to: a, weight_mm: w }]));
    }
}

/// An element-wise copy of an edge row.
fn copy_edges(row: &Vec<Edge>) -> (r: Vec<Edge>)
    ensures
        r@ == row@,
{
    let mut r: Vec<Edge> = Vec::new();
    let n = row.len();
    let mut i: usize = 0;
    while i < n
        invariant
            0 <= i <= n,
            n == row@.len(),
            r@ == row@.take(i as int),
        decreases n - i,
    {
        r.push(row[i]);
        proof {
            assert(r@ =~= row@.take(i as int + 1));
        }
        i = i + 1;
    }
    proof {
        assert(row@.take(n as int) =~= row@);
    }
    r
}

/// Build the node table and adjacency graph from the raw records: buffer all
/// nodes, add the edges of each cyclable way (both directions unless tagged
/// one-way), then prune the table to the nodes referenced by retained edges.
/// A cyclable way that references an unknown node is a malformed input and is
/// reported as a decode failure.
pub fn build_graph(nodes: &Vec<GeoNode>, ways: &Vec<RawWay>, cfg: &FilterConfig) -> (r: Result<
    (NodeTable, AdjGraph),
    RouteError,
>)
    requires
        forall|i: int| 0 <= i < nodes@.len() ==> (#[trigger] nodes@[i]).wf(),
    ensures
        match r {
            Ok(p) => {
                &&& ways_ok(node_map_of(nodes@), ways@, *cfg)
                &&& p.0.wf()
                &&& p.1.wf()
                &&& p.0@ == node_map_of(nodes@).restrict(refs_of_ways(ways@, *cfg))
                &&& adj_view(p.1) == adj_of_ways(node_map_of(nodes@), ways@, *cfg)
            },
            Err(e) => {
                &&& e == RouteError::DecodeFailure
                &&& !ways_ok(node_map_of(nodes@), ways@, *cfg)
            },
        },
{
    let ghost nm = node_map_of(nodes@);
    // 1. Buffer every raw node, keyed by identifier.
    let mut buffer: NodeTable = SortedMap::new();
    let nn = nodes.len();
    let mut i: usize = 0;
    while i < nn
        invariant
            0 <= i <= nn,
            nn == nodes@.len(),
            buffer.wf(),
            buffer@ == node_map_of(nodes@.take(i as int)),
        decreases nn - i,
    {
        let nd = &nodes[i];
        buffer.set(nd.id, (nd.lat_e7, nd.lon_e7));
        proof {
            assert(nodes@.take(i as int + 1).drop_last() =~= nodes@.take(i as int));
            assert(nodes@.take(i as int + 1).last() == nodes@[i as int]);
        }
        i = i + 1;
    }
    proof {
        assert(nodes@.take(nn as int) =~= nodes@);
    }
    // 2. Insert the edges of each cyclable way.
    let mut adj: AdjGraph = SortedMap::new();
    let mut refs: SortedMap<()> = SortedMap::new();
    let nw = ways.len();
    let mut wi: usize = 0;
    while wi < nw
        invariant
            0 <= wi <= nw,
            nw == ways@.len(),
            buffer.wf(),
            buffer@ == nm,
            nm == node_map_of(nodes@),
            forall|j: int| 0 <= j < nodes@.len() ==> (#[trigger] nodes@[j]).wf(),
            adj.wf(),
            refs.wf(),
            adj_view(adj) == adj_of_ways(nm, ways@.take(wi as int), *cfg),
            refs@.dom() == refs_of_ways(ways@.take(wi as int), *cfg),
            ways_ok(nm, ways@.take(wi as int), *cfg),
        decreases nw - wi,
    {
        let way = &ways[wi];
        let cyc = is_cyclable_way(way, cfg);
        if cyc {
            let bidir = !tags_contain(&way.tags, "oneway", "yes");
            let ghost base = adj_view(adj);
            let ghost refs0 = refs@.dom();
            let ns = &way.nodes;
            let np = ns.len();
            let mut pi: usize = 1;
            while pi < np
                invariant
                    1 <= pi,
                    pi <= np || pi == 1,
                    np == ns@.len(),
                    ns@ == ways@[wi as int].nodes@,
                    0 <= wi < ways@.len(),
                    buffer.wf(),
                    buffer@ == nm,
                    forall|j: int| 0 <= j < nodes@.len() ==> (#[trigger] nodes@[j]).wf(),
                    nm == node_map_of(nodes@),
                    adj.wf(),
                    refs.wf(),
                    adj_view(adj) == adj_way(base, nm, ns@, pi as int, bidir),
                    refs@.dom() == refs0.union(refs_of_way(ns@, pi as int)),
                    spec_cyclable(ways@[wi as int].tags@, *cfg),
                    pi > 1 ==> forall|j: int| 0 <= j < pi ==> nm.contains_key(#[trigger] ns@[j]),
                decreases np - pi,
            {
                let u = ns[pi - 1];
                let v = ns[pi];
                refs.set(u, ());
                refs.set(v, ());
                proof {
                    assert(refs@.dom() =~= refs0.union(refs_of_way(ns@, pi as int + 1)));
                }
                let cu = match buffer.get(u) {
                    Some(c) => *c,
                    None => {
                        proof {
                            assert(ns@.len() >= 2);
                            assert(!nm.contains_key(ns@[pi as int - 1]));
                            assert(!way_refs_ok(nm, ways@[wi as int].nodes@));
                            assert(!ways_ok(nm, ways@, *cfg));
                        }
                        return Err(RouteError::DecodeFailure);
                    },
                };
                let cv = match buffer.get(v) {
                    Some(c) => *c,
                    None => {
                        proof {
                            assert(ns@.len() >= 2);
                            assert(!nm.contains_key(ns@[pi as int]));
                            assert(!way_refs_ok(nm, ways@[wi as int].nodes@));
                            assert(!ways_ok(nm, ways@, *cfg));
                        }
                        return Err(RouteError::DecodeFailure);
                    },
                };
                proof {
                    lemma_node_map_valid(nodes@);
                }
                let gu = GeoNode { id: 0, lat_e7: cu.0, lon_e7: cu.1 };
                let gv = GeoNode { id: 0, lat_e7: cv.0, lon_e7: cv.1 };
                let w = distance_mm(&gu, &gv);
                assert(w == edge_weight(nm, u, v));
                let mut row = match adj.get(u) {
                    Some(r) => copy_edges(r),
                    None => Vec::new(),
                };
                row.push(Edge { to: v, weight_mm: w });
                adj.set(u, row);
                proof {
                    assert(adj_view(adj) =~= add_edge_spec(
                        adj_way(base, nm, ns@, pi as int, bidir),
                        u,
                        Edge { to: v, weight_mm: w },
                    ));
                }
                if bidir {
                    let mut row2 = match adj.get(v) {
                        Some(r) => copy_edges(r),
                        None => Vec::new(),
                    };
                    row2.push(Edge { to: u, weight_mm: w });
                    adj.set(v, row2);
                }
                pi = pi + 1;
            }
            proof {
                if np < 2 {
                    assert(adj_view(adj) == adj_way(base, nm, ns@, np as int, bidir));
                }
                assert(ways@.take(wi as int + 1).drop_last() =~= ways@.take(wi as int));
                assert(ways@.take(wi as int + 1).last() == ways@[wi as int]);
                assert(adj_view(adj) == adj_of_ways(nm, ways@.take(wi as int + 1), *cfg));
                if np >= 2 {
                    assert(way_refs_ok(nm, ways@[wi as int].nodes@));
                }
                assert(refs@.dom() =~= refs_of_ways(ways@.take(wi as int + 1), *cfg));
            }
        } else {
            proof {
                assert(ways@.take(wi as int + 1).drop_last() =~= ways@.take(wi as int));
                assert(ways@.take(wi as int + 1).last() == ways@[wi as int]);
            }
        }
        proof {
            assert(forall|j: int|
                0 <= j < wi + 1 ==> ways@.take(wi as int + 1)[j] == ways@[j]);
        }
        wi = wi + 1;
    }
    proof {
        assert(ways@.take(nw as int) =~= ways@);
    }
    // 3. Prune: keep only the nodes referenced by some retained edge.
    let ghost rset = refs_of_ways(ways@, *cfg);
    let mut nt: NodeTable = SortedMap::new();
    let bn = buffer.len();
    let mut bi: usize = 0;
    proof {
        assert(node_map_of(nodes@.take(0)).restrict(rset) =~= Map::<i64, (i64, i64)>::empty());
    }
    while bi < bn
        invariant
            0 <= bi <= bn,
            bn == buffer.entries@.len(),
            buffer.wf(),
            buffer@ == nm,
            nm == node_map_of(nodes@),
            refs.wf(),
            refs@.dom() == rset,
            nt.wf(),
            nt@ == crate::table::as_map_of(buffer.entries@.take(bi as int)).restrict(rset),
        decreases bn - bi,
    {
        let key = buffer.entries[bi].0;
        let val = buffer.entries[bi].1;
        proof {
            assert(buffer.entries@.take(bi as int + 1).drop_last() =~= buffer.entries@.take(
                bi as int,
            ));
            assert(buffer.entries@.take(bi as int + 1).last() == buffer.entries@[bi as int]);
        }
        if refs.contains_key(key) {
            nt.set(key, val);
            proof {
                assert(nt@ =~= crate::table::as_map_of(
                    buffer.entries@.take(bi as int + 1),
                ).restrict(rset));
            }
        } else {
            proof {
                assert(nt@ =~= crate::table::as_map_of(
                    buffer.entries@.take(bi as int + 1),
                ).restrict(rset));
            }
        }
        bi = bi + 1;
    }
    proof {
        assert(buffer.entries@.take(bn as int) =~= buffer.entries@);
    }
    Ok((nt, adj))
}

} // verus!
