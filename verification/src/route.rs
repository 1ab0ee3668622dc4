use vstd::prelude::*;

use crate::errors::RouteError;
use crate::geom::{valid_lat_e7, valid_lon_e7};
use crate::graph::NodeTable;
use crate::graph::Edge;
use crate::search::{parent_ok, rank_bounded, ParentMap};
use crate::table::lemma_as_map_props;

verus! {

/// Walk backward from cur along predecessor links until the source, spending
/// one unit of fuel per step; the result is the visited nodes in
/// source-to-cur order. None when a link is missing, broken, or the fuel
/// runs out (a cycle).
pub open spec fn spec_walk(
    pm: Map<i64, Option<i64>>,
    source: i64,
    cur: i64,
    fuel: nat,
) -> Option<Seq<i64>>
    decreases fuel,
{
    if cur == source {
        Some(seq![cur])
    } else if fuel == 0 {
        None
    } else if !pm.contains_key(cur) {
        None
    } else {
        match pm[cur] {
            None => None,
            Some(c) => match spec_walk(pm, source, c, (fuel - 1) as nat) {
                None => None,
                Some(p) => Some(p.push(cur)),
            },
        }
    }
}

/// The fuel that suffices for any acyclic chain in the mapping.
pub open spec fn walk_fuel(pm: Map<i64, Option<i64>>) -> nat {
    pm.dom().len() + 1
}

/// The reconstructed route as coordinates: the predecessor chain from goal
/// back to source, reversed, with each node's coordinate looked up. A goal
/// that was never settled (or a broken chain) is a missing route; a settled
/// node without a coordinate cannot be encoded.
pub open spec fn spec_route(
    pm: Map<i64, Option<i64>>,
    nm: Map<i64, (i64, i64)>,
    source: i64,
    goal: i64,
) -> Result<Seq<(i64, i64)>, RouteError> {
    match spec_walk(pm, source, goal, walk_fuel(pm)) {
        None => Err(RouteError::NoRouteFound),
        Some(ids) => {
            if forall|i: int| 0 <= i < ids.len() ==> nm.contains_key(#[trigger] ids[i]) {
                Ok(ids.map_values(|id: i64| nm[id]))
            } else {
                Err(RouteError::EncodingFailure)
            }
        },
    }
}

/// Under a well-formed, rank-decreasing predecessor mapping, the backward
/// walk from any held node reaches the source within its rank's worth of
/// fuel.
pub proof fn lemma_walk_reaches_source(
    pm: Map<i64, Option<i64>>,
    g: Map<i64, Seq<Edge>>,
    source: i64,
    rank: Map<i64, nat>,
    k: i64,
    fuel: nat,
)
    requires
        parent_ok(pm, g, source, rank),
        pm.contains_key(k),
        fuel >= rank[k],
    ensures
        spec_walk(pm, source, k, fuel) is Some,
    decreases rank[k],
{
    if k != source {
        let c = pm[k]->Some_0;
        assert(pm.contains_key(c) && rank[k] == rank[c] + 1);
        lemma_walk_reaches_source(pm, g, source, rank, c, (fuel - 1) as nat);
    }
}

/// A goal the search settled can always be reconstructed: the fuel the
/// reconstruction spends covers every rank such a mapping holds.
pub proof fn lemma_settled_goal_reconstructs(
    pm: Map<i64, Option<i64>>,
    g: Map<i64, Seq<Edge>>,
    source: i64,
    rank: Map<i64, nat>,
    goal: i64,
)
    requires
        parent_ok(pm, g, source, rank),
        rank_bounded(pm, rank),
        pm.contains_key(goal),
    ensures
        spec_walk(pm, source, goal, walk_fuel(pm)) is Some,
{
    lemma_walk_reaches_source(pm, g, source, rank, goal, walk_fuel(pm));
}

/// The backward walk, step for step as the specification walks.
fn walk_exec(pm: &ParentMap, source: i64, cur: i64, fuel: u128) -> (r: Option<Vec<i64>>)
    requires
        pm.wf(),
    ensures
        match r {
            Some(v) => spec_walk(pm@, source, cur, fuel as nat) == Some(v@),
            None => spec_walk(pm@, source, cur, fuel as nat) is None,
        },
    decreases fuel,
{
    if cur == source {
        let mut v: Vec<i64> = Vec::new();
        v.push(cur);
        proof {
            assert(v@ =~= seq![cur]);
        }
        Some(v)
    } else if fuel == 0 {
        None
    } else {
        match pm.get(cur) {
            None => None,
            Some(link) => match *link {
                None => None,
                Some(c) => match walk_exec(pm, source, c, fuel - 1) {
                    None => None,
                    Some(mut v) => {
                        v.push(cur);
                        Some(v)
                    },
                },
            },
        }
    }
}

/// Walk the predecessor map from goal to source, reverse into
/// source-to-goal order, and look up each node's coordinates.
pub fn reconstruct_route(pm: &ParentMap, source: i64, goal: i64, nt: &NodeTable) -> (r: Result<
    Vec<(i64, i64)>,
    RouteError,
>)
    requires
        pm.wf(),
        nt.wf(),
    ensures
        match r {
            Ok(v) => spec_route(pm@, nt@, source, goal) == Ok::<Seq<(i64, i64)>, RouteError>(v@),
            Err(e) => spec_route(pm@, nt@, source, goal) == Err::<Seq<(i64, i64)>, RouteError>(e),
        },
{
    proof {
        lemma_as_map_props(pm.entries@);
    }
    let fuel: u128 = pm.entries.len() as u128 + 1;
    assert(fuel as nat == walk_fuel(pm@));
    match walk_exec(pm, source, goal, fuel) {
        None => Err(RouteError::NoRouteFound),
        Some(ids) => {
            let ghost ids_seq = ids@;
            let mut coords: Vec<(i64, i64)> = Vec::new();
            let n = ids.len();
            let mut i: usize = 0;
            while i < n
                invariant
                    nt.wf(),
                    n == ids@.len(),
                    ids@ == ids_seq,
                    spec_walk(pm@, source, goal, walk_fuel(pm@)) == Some(ids_seq),
                    0 <= i <= n,
                    forall|j: int| 0 <= j < i ==> nt@.contains_key(#[trigger] ids@[j]),
                    coords@ == ids@.take(i as int).map_values(|id: i64| nt@[id]),
                decreases n - i,
            {
                match nt.get(ids[i]) {
                    None => {
                        proof {
                            assert(!nt@.contains_key(ids@[i as int]));
                        }
                        return Err(RouteError::EncodingFailure);
                    },
                    Some(c) => {
                        coords.push(*c);
                        proof {
                            assert(ids@.take(i as int + 1).drop_last() =~= ids@.take(i as int));
                            assert(ids@.take(i as int + 1).map_values(|id: i64| nt@[id])
                                =~= ids@.take(i as int).map_values(|id: i64| nt@[id]).push(
                                nt@[ids@[i as int]],
                            ));
                        }
                    },
                }
                i = i + 1;
            }
            proof {
                assert(ids@.take(n as int) =~= ids@);
            }
            Ok(coords)
        },
    }
}

/// The zig-zag encoding of a signed value: non-negatives to evens, negatives
/// to odds.
pub open spec fn zigzag(v: int) -> int {
    if v < 0 {
        -2 * v - 1
    } else {
        2 * v
    }
}

/// The base-64-offset chunk encoding of a non-negative value: five bits per
/// output byte, low bits first, a continuation bit on every byte but the
/// last, all offset by 63.
pub open spec fn spec_chunks(n: nat) -> Seq<u8>
    decreases n,
{
    if n < 32 {
        seq![(n + 63) as u8]
    } else {
        seq![(n % 32 + 95) as u8].add(spec_chunks(n / 32))
    }
}

/// A fixed-point degree coordinate rounded to five decimal digits of a
/// degree, half away from zero.
pub open spec fn value_e5(x: int) -> int {
    if x >= 0 {
        (x + 50) / 100
    } else {
        -(((-x) + 50) / 100)
    }
}

/// The polyline encoding of a coordinate sequence, given the previous
/// rounded coordinate pair: each pair contributes its latitude then
/// longitude delta, chunk-encoded.
pub open spec fn spec_poly(coords: Seq<(i64, i64)>, plat: int, plon: int) -> Seq<u8>
    decreases coords.len(),
{
    if coords.len() == 0 {
        Seq::empty()
    } else {
        let lat5 = value_e5(coords[0].0 as int);
        let lon5 = value_e5(coords[0].1 as int);
        spec_chunks(zigzag(lat5 - plat) as nat).add(
            spec_chunks(zigzag(lon5 - plon) as nat).add(
                spec_poly(coords.subrange(1, coords.len() as int), lat5, lon5),
            ),
        )
    }
}

/// The polyline encoding of a route, at five-digit precision, starting from
/// the origin.
pub open spec fn spec_polyline(coords: Seq<(i64, i64)>) -> Seq<u8> {
    spec_poly(coords, 0, 0)
}

/// Append the chunk encoding of one non-negative value.
fn push_chunks(out: &mut Vec<u8>, n: u64)
    ensures
        final(out)@ == old(out)@.add(spec_chunks(n as nat)),
    decreases n,
{
    if n < 32 {
        out.push((n + 63) as u8);
        proof {
            assert(final(out)@ =~= old(out)@.add(spec_chunks(n as nat)));
        }
    } else {
        out.push((n % 32 + 95) as u8);
        push_chunks(out, n / 32);
        proof {
            assert(final(out)@ =~= old(out)@.add(spec_chunks(n as nat)));
        }
    }
}

/// Append the zig-zag chunk encoding of one signed delta.
fn push_value(out: &mut Vec<u8>, v: i64)
    requires
        -40_000_000 <= v <= 40_000_000,
    ensures
        final(out)@ == old(out)@.add(spec_chunks(zigzag(v as int) as nat)),
{
    let zz: u64 = if v < 0 {
        ((-(v as i128)) * 2 - 1) as u64
    } else {
        ((v as i128) * 2) as u64
    };
    assert(zz as int == zigzag(v as int));
    push_chunks(out, zz);
}

/// Encode an ordered coordinate sequence as a fixed five-digit-precision
/// polyline: an ASCII byte string.
#[verifier::rlimit(60)]
pub fn encode_polyline(coords: &Vec<(i64, i64)>) -> (r: Vec<u8>)
    requires
        forall|i: int|
            0 <= i < coords@.len() ==> valid_lat_e7((#[trigger] coords@[i]).0 as int)
                && valid_lon_e7(coords@[i].1 as int),
    ensures
        r@ == spec_polyline(coords@),
{
    let mut out: Vec<u8> = Vec::new();
    let mut plat: i64 = 0;
    let mut plon: i64 = 0;
    let n = coords.len();
    let mut i: usize = 0;
    proof {
        assert(coords@.subrange(0, n as int) =~= coords@);
        assert(Seq::<u8>::empty().add(spec_poly(coords@, 0, 0)) =~= spec_poly(coords@, 0, 0));
    }
    while i < n
        invariant
            n == coords@.len(),
            0 <= i <= n,
            forall|j: int|
                0 <= j < n ==> valid_lat_e7((#[trigger] coords@[j]).0 as int) && valid_lon_e7(
                    coords@[j].1 as int,
                ),
            spec_polyline(coords@) == out@.add(
                spec_poly(coords@.subrange(i as int, n as int), plat as int, plon as int),
            ),
            i > 0 ==> plat == value_e5(coords@[i as int - 1].0 as int) && plon == value_e5(
                coords@[i as int - 1].1 as int,
            ),
            i == 0 ==> plat == 0 && plon == 0,
            -18_000_000 <= plat <= 18_000_000,
            -18_000_000 <= plon <= 18_000_000,
        decreases n - i,
    {
        let c = coords[i];
        let lat5: i64 = if c.0 >= 0 {
            (c.0 + 50) / 100
        } else {
            -(((-c.0) + 50) / 100)
        };
        let lon5: i64 = if c.1 >= 0 {
            (c.1 + 50) / 100
        } else {
            -(((-c.1) + 50) / 100)
        };
        assert(lat5 as int == value_e5(c.0 as int));
        assert(lon5 as int == value_e5(c.1 as int));
        let ghost rest = coords@.subrange(i as int, n as int);
        let ghost out0 = out@;
        proof {
            assert(rest[0] == coords@[i as int]);
            assert(rest.subrange(1, rest.len() as int) =~= coords@.subrange(
                i as int + 1,
                n as int,
            ));
        }
        push_value(&mut out, lat5 - plat);
        push_value(&mut out, lon5 - plon);
        proof {
            let ca = spec_chunks(zigzag(lat5 as int - plat as int) as nat);
            let cb = spec_chunks(zigzag(lon5 as int - plon as int) as nat);
            let tail = spec_poly(
                coords@.subrange(i as int + 1, n as int),
                lat5 as int,
                lon5 as int,
            );
            assert(spec_poly(rest, plat as int, plon as int) == ca.add(cb.add(tail)));
            assert(out0.add(ca.add(cb.add(tail))) =~= out0.add(ca).add(cb).add(tail));
            assert(out@ == out0.add(ca).add(cb));
        }
        plat = lat5;
        plon = lon5;
        i = i + 1;
    }
    proof {
        assert(coords@.subrange(n as int, n as int) =~= Seq::<(i64, i64)>::empty());
        assert(out@.add(Seq::empty()) =~= out@);
    }
    out
}

} // verus!
