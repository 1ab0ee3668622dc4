use vstd::prelude::*;

use crate::codec::{
    lemma_hex_u64_roundtrip, push_hex_u64, read_hex_u64, spec_hex_u64, spec_unhex_u64,
};
use crate::errors::RouteError;
use crate::graph::{AdjGraph, Edge, NodeTable};
use crate::table::{entries_strictly_sorted, strictly_sorted, SortedMap};

verus! {

/// The sixteen-digit hexadecimal text of a signed value, via its two's
/// complement bits.
pub open spec fn enc_i64(x: i64) -> Seq<u8> {
    spec_hex_u64(x as u64)
}

/// One node record: identifier, latitude, longitude, space-separated, one
/// line. Fifty-one bytes.
pub open spec fn spec_node_record(e: (i64, (i64, i64))) -> Seq<u8> {
    enc_i64(e.0).add(
        seq![32u8].add(
            enc_i64(e.1.0).add(seq![32u8].add(enc_i64(e.1.1).add(seq![10u8]))),
        ),
    )
}

/// The node-table artifact: one record per entry, in table order.
pub open spec fn spec_encode_nodes(entries: Seq<(i64, (i64, i64))>) -> Seq<u8>
    decreases entries.len(),
{
    if entries.len() == 0 {
        Seq::empty()
    } else {
        spec_node_record(entries[0]).add(
            spec_encode_nodes(entries.subrange(1, entries.len() as int)),
        )
    }
}

/// Read the node-table artifact back into entries; None on any malformation.
pub open spec fn spec_parse_nodes(s: Seq<u8>) -> Option<Seq<(i64, (i64, i64))>>
    decreases s.len(),
{
    if s.len() == 0 {
        Some(Seq::empty())
    } else if s.len() >= 51 && s[16] == 32 && s[33] == 32 && s[50] == 10 {
        match (
            spec_unhex_u64(s.subrange(0, 16)),
            spec_unhex_u64(s.subrange(17, 33)),
            spec_unhex_u64(s.subrange(34, 50)),
        ) {
            (Some(a), Some(b), Some(c)) => match spec_parse_nodes(s.subrange(51, s.len() as int)) {
                Some(rest) => Some(
                    seq![(a as i64, (b as i64, c as i64))].add(rest),
                ),
                None => None,
            },
            _ => None,
        }
    } else {
        None
    }
}

/// The node artifact reads back as exactly the entries it was written from.
pub proof fn lemma_nodes_roundtrip(entries: Seq<(i64, (i64, i64))>)
    ensures
        spec_parse_nodes(spec_encode_nodes(entries)) == Some(entries),
    decreases entries.len(),
{
    if entries.len() == 0 {
        assert(spec_encode_nodes(entries) =~= Seq::<u8>::empty());
        assert(Seq::<i64>::empty() =~= Seq::<i64>::empty());
    } else {
        let e = entries[0];
        let tail = entries.subrange(1, entries.len() as int);
        lemma_nodes_roundtrip(tail);
        lemma_hex_u64_roundtrip(e.0 as u64);
        lemma_hex_u64_roundtrip(e.1.0 as u64);
        lemma_hex_u64_roundtrip(e.1.1 as u64);
        let r = spec_node_record(e);
        let s = spec_encode_nodes(entries);
        assert(r.len() == 51);
        assert(s.len() >= 51);
        assert(s.subrange(0, 16) =~= enc_i64(e.0));
        assert(s[16] == 32);
        assert(s.subrange(17, 33) =~= enc_i64(e.1.0));
        assert(s[33] == 32);
        assert(s.subrange(34, 50) =~= enc_i64(e.1.1));
        assert(s[50] == 10);
        assert(s.subrange(51, s.len() as int) =~= spec_encode_nodes(tail));
        let id = e.0;
        let la = e.1.0;
        let lo = e.1.1;
        assert(((id as u64) as i64) == id) by (bit_vector);
        assert(((la as u64) as i64) == la) by (bit_vector);
        assert(((lo as u64) as i64) == lo) by (bit_vector);
        assert(seq![e].add(tail) =~= entries);
    }
}

/// Serialize the node table, in key order: deterministic for a given table.
pub fn encode_node_table(t: &NodeTable) -> (r: Vec<u8>)
    ensures
        r@ == spec_encode_nodes(t.entries@),
{
    let mut out: Vec<u8> = Vec::new();
    let n = t.entries.len();
    let mut i: usize = 0;
    proof {
        assert(t.entries@.subrange(0, n as int) =~= t.entries@);
        assert(Seq::<u8>::empty().add(spec_encode_nodes(t.entries@)) =~= spec_encode_nodes(
            t.entries@,
        ));
    }
    while i < n
        invariant
            n == t.entries@.len(),
            0 <= i <= n,
            spec_encode_nodes(t.entries@) == out@.add(
                spec_encode_nodes(t.entries@.subrange(i as int, n as int)),
            ),
        decreases n - i,
    {
        let e = t.entries[i];
        let ghost rest = t.entries@.subrange(i as int, n as int);
        let ghost out0 = out@;
        push_hex_u64(&mut out, e.0 as u64);
        out.push(32);
        push_hex_u64(&mut out, e.1.0 as u64);
        out.push(32);
        push_hex_u64(&mut out, e.1.1 as u64);
        out.push(10);
        proof {
            assert(rest[0] == t.entries@[i as int]);
            assert(rest.subrange(1, rest.len() as int) =~= t.entries@.subrange(
                i as int + 1,
                n as int,
            ));
            assert(out@ =~= out0.add(spec_node_record(e)));
            assert(out0.add(spec_node_record(e).add(
                spec_encode_nodes(t.entries@.subrange(i as int + 1, n as int)),
            )) =~= out0.add(spec_node_record(e)).add(
                spec_encode_nodes(t.entries@.subrange(i as int + 1, n as int)),
            ));
        }
        i = i + 1;
    }
    proof {
        assert(t.entries@.subrange(n as int, n as int) =~= Seq::<(i64, (i64, i64))>::empty());
        assert(out@.add(Seq::<u8>::empty()) =~= out@);
    }
    out
}

/// Parse a persisted node table; a malformed artifact or one whose keys are
/// not strictly sorted is corrupt.
pub fn parse_node_table(bytes: &Vec<u8>) -> (r: Result<NodeTable, RouteError>)
    ensures
        match r {
            Ok(t) => t.wf() && spec_parse_nodes(bytes@) == Some(t.entries@),
            Err(e) => {
                &&& e == RouteError::CacheCorruption
                &&& (spec_parse_nodes(bytes@) is None || !strictly_sorted(
                    spec_parse_nodes(bytes@)->Some_0,
                ))
            },
        },
{
    let total = bytes.len();
    let mut entries: Vec<(i64, (i64, i64))> = Vec::new();
    let mut pos: usize = 0;
    proof {
        assert(bytes@.subrange(0, total as int) =~= bytes@);
        assert forall|es: Seq<(i64, (i64, i64))>|
            #[trigger] Seq::<(i64, (i64, i64))>::empty().add(es) == es by {
            assert(Seq::<(i64, (i64, i64))>::empty().add(es) =~= es);
        }
    }
    while pos < total
        invariant
            total == bytes@.len(),
            0 <= pos <= total,
            spec_parse_nodes(bytes@) == match spec_parse_nodes(
                bytes@.subrange(pos as int, total as int),
            ) {
                None => None::<Seq<(i64, (i64, i64))>>,
                Some(rest) => Some(entries@.add(rest)),
            },
        decreases total - pos,
    {
        let ghost win = bytes@.subrange(pos as int, total as int);
        if total - pos < 51 {
            return Err(RouteError::CacheCorruption);
        }
        if !(bytes[pos + 16] == 32 && bytes[pos + 33] == 32 && bytes[pos + 50] == 10) {
            proof {
                assert(win[16] == bytes@[pos as int + 16]);
                assert(win[33] == bytes@[pos as int + 33]);
                assert(win[50] == bytes@[pos as int + 50]);
            }
            return Err(RouteError::CacheCorruption);
        }
        proof {
            assert(win[16] == 32 && win[33] == 32 && win[50] == 10);
            assert(win.subrange(0, 16) =~= bytes@.subrange(pos as int, pos as int + 16));
            assert(win.subrange(17, 33) =~= bytes@.subrange(pos as int + 17, pos as int + 33));
            assert(win.subrange(34, 50) =~= bytes@.subrange(pos as int + 34, pos as int + 50));
            assert(win.subrange(51, win.len() as int) =~= bytes@.subrange(
                pos as int + 51,
                total as int,
            ));
        }
        let a = match read_hex_u64(bytes, pos) {
            Some(v) => v,
            None => {
                return Err(RouteError::CacheCorruption);
            },
        };
        let b = match read_hex_u64(bytes, pos + 17) {
            Some(v) => v,
            None => {
                return Err(RouteError::CacheCorruption);
            },
        };
        let c = match read_hex_u64(bytes, pos + 34) {
            Some(v) => v,
            None => {
                return Err(RouteError::CacheCorruption);
            },
        };
        let ghost entries0 = entries@;
        entries.push((a as i64, (b as i64, c as i64)));
        proof {
            assert forall|rest: Seq<(i64, (i64, i64))>|
                spec_parse_nodes(bytes@.subrange(pos as int + 51, total as int)) == Some(
                    rest,
                ) implies entries0.add(
                seq![((a as i64), ((b as i64), (c as i64)))].add(rest),
            ) =~= entries@.add(rest) by {}
        }
        pos = pos + 51;
    }
    proof {
        assert(bytes@.subrange(total as int, total as int) =~= Seq::<u8>::empty());
        assert(entries@.add(Seq::<(i64, (i64, i64))>::empty()) =~= entries@);
    }
    if entries_strictly_sorted(&entries) {
        Ok(SortedMap { entries })
    } else {
        Err(RouteError::CacheCorruption)
    }
}

/// The adjacency rows as mathematical pairs of key and edge sequence.
pub open spec fn rows_view(entries: Seq<(i64, Vec<Edge>)>) -> Seq<(i64, Seq<Edge>)> {
    entries.map_values(|p: (i64, Vec<Edge>)| (p.0, p.1@))
}

/// One edge within a row: a space, the target, a space, the weight.
/// Thirty-four bytes.
pub open spec fn spec_edge_chunk(e: Edge) -> Seq<u8> {
    seq![32u8].add(enc_i64(e.to).add(seq![32u8].add(spec_hex_u64(e.weight_mm))))
}

pub open spec fn spec_enc_edges(es: Seq<Edge>) -> Seq<u8>
    decreases es.len(),
{
    if es.len() == 0 {
        Seq::empty()
    } else {
        spec_edge_chunk(es[0]).add(spec_enc_edges(es.subrange(1, es.len() as int)))
    }
}

proof fn lemma_enc_edges_len(es: Seq<Edge>)
    ensures
        spec_enc_edges(es).len() == 34 * es.len(),
    decreases es.len(),
{
    if es.len() > 0 {
        lemma_enc_edges_len(es.subrange(1, es.len() as int));
        lemma_hex_u64_roundtrip(es[0].to as u64);
        lemma_hex_u64_roundtrip(es[0].weight_mm);
    }
}

/// One adjacency row: the node, its edge count, that many edges, one line.
pub open spec fn spec_adj_record(row: (i64, Seq<Edge>)) -> Seq<u8> {
    enc_i64(row.0).add(
        seq![32u8].add(
            spec_hex_u64(row.1.len() as u64).add(spec_enc_edges(row.1).add(seq![10u8])),
        ),
    )
}

/// The adjacency artifact: one row per node, in table order.
pub open spec fn spec_encode_adj(rows: Seq<(i64, Seq<Edge>)>) -> Seq<u8>
    decreases rows.len(),
{
    if rows.len() == 0 {
        Seq::empty()
    } else {
        spec_adj_record(rows[0]).add(spec_encode_adj(rows.subrange(1, rows.len() as int)))
    }
}

/// Read back a row's edges; the text must hold exactly k of them.
pub open spec fn spec_parse_edges(s: Seq<u8>, k: nat) -> Option<Seq<Edge>>
    decreases k,
{
    if k == 0 {
        if s.len() == 0 {
            Some(Seq::empty())
        } else {
            None
        }
    } else if s.len() >= 34 && s[0] == 32 && s[17] == 32 {
        match (spec_unhex_u64(s.subrange(1, 17)), spec_unhex_u64(s.subrange(18, 34))) {
            (Some(t), Some(w)) => match spec_parse_edges(
                s.subrange(34, s.len() as int),
                (k - 1) as nat,
            ) {
                Some(es) => Some(seq![Edge { to: t as i64, weight_mm: w }].add(es)),
                None => None,
            },
            _ => None,
        }
    } else {
        None
    }
}

/// Read the adjacency artifact back into rows; None on any malformation.
pub open spec fn spec_parse_adj(s: Seq<u8>) -> Option<Seq<(i64, Seq<Edge>)>>
    decreases s.len(),
{
    if s.len() == 0 {
        Some(Seq::empty())
    } else if s.len() >= 34 && s[16] == 32 {
        match (spec_unhex_u64(s.subrange(0, 16)), spec_unhex_u64(s.subrange(17, 33))) {
            (Some(id), Some(k)) => {
                let rl = 34 + 34 * (k as int);
                if s.len() >= rl && s[rl - 1] == 10 {
                    match spec_parse_edges(s.subrange(33, rl - 1), k as nat) {
                        Some(es) => match spec_parse_adj(s.subrange(rl, s.len() as int)) {
                            Some(rest) => Some(seq![(id as i64, es)].add(rest)),
                            None => None,
                        },
                        None => None,
                    }
                } else {
                    None
                }
            },
            _ => None,
        }
    } else {
        None
    }
}

/// Serialize the adjacency graph, in key order, each row's edges in their
/// held order: deterministic for a given graph.
pub fn encode_adj_graph(g: &AdjGraph) -> (r: Vec<u8>)
    ensures
        r@ == spec_encode_adj(rows_view(g.entries@)),
{
    let mut out: Vec<u8> = Vec::new();
    let n = g.entries.len();
    let ghost rows = rows_view(g.entries@);
    let mut i: usize = 0;
    proof {
        assert(rows.subrange(0, n as int) =~= rows);
        assert(Seq::<u8>::empty().add(spec_encode_adj(rows)) =~= spec_encode_adj(rows));
    }
    while i < n
        invariant
            n == g.entries@.len(),
            rows == rows_view(g.entries@),
            rows.len() == n,
            0 <= i <= n,
            spec_encode_adj(rows) == out@.add(
                spec_encode_adj(rows.subrange(i as int, n as int)),
            ),
        decreases n - i,
    {
        let ghost rest = rows.subrange(i as int, n as int);
        let ghost out0 = out@;
        let key = g.entries[i].0;
        let m = g.entries[i].1.len();
        push_hex_u64(&mut out, key as u64);
        out.push(32);
        push_hex_u64(&mut out, m as u64);
        let ghost es = rows[i as int].1;
        let ghost head_done = out@;
        let mut j: usize = 0;
        proof {
            assert(es == g.entries@[i as int].1@);
            assert(es.subrange(0, m as int) =~= es);
            assert(head_done.add(spec_enc_edges(es)) =~= head_done.add(
                spec_enc_edges(es.subrange(0, m as int)),
            ));
        }
        while j < m
            invariant
                0 <= i < g.entries@.len(),
                m == g.entries@[i as int].1@.len(),
                es == g.entries@[i as int].1@,
                0 <= j <= m,
                head_done.add(spec_enc_edges(es)) == out@.add(
                    spec_enc_edges(es.subrange(j as int, m as int)),
                ),
            decreases m - j,
        {
            let e = g.entries[i].1[j];
            let ghost erest = es.subrange(j as int, m as int);
            let ghost out1 = out@;
            out.push(32);
            push_hex_u64(&mut out, e.to as u64);
            out.push(32);
            push_hex_u64(&mut out, e.weight_mm);
            proof {
                assert(erest[0] == es[j as int]);
                assert(erest.subrange(1, erest.len() as int) =~= es.subrange(
                    j as int + 1,
                    m as int,
                ));
                assert(out@ =~= out1.add(spec_edge_chunk(e)));
                assert(out1.add(spec_edge_chunk(e).add(
                    spec_enc_edges(es.subrange(j as int + 1, m as int)),
                )) =~= out1.add(spec_edge_chunk(e)).add(
                    spec_enc_edges(es.subrange(j as int + 1, m as int)),
                ));
            }
            j = j + 1;
        }
        proof {
            assert(es.subrange(m as int, m as int) =~= Seq::<Edge>::empty());
            assert(spec_enc_edges(Seq::<Edge>::empty()) =~= Seq::<u8>::empty());
            assert(out@.add(Seq::<u8>::empty()) =~= out@);
            assert(out@ == head_done.add(spec_enc_edges(es)));
        }
        out.push(10);
        proof {
            assert(rest[0] == rows[i as int]);
            assert(rest.subrange(1, rest.len() as int) =~= rows.subrange(i as int + 1, n as int));
            assert(out@ =~= out0.add(spec_adj_record(rows[i as int])));
            assert(out0.add(spec_adj_record(rows[i as int]).add(
                spec_encode_adj(rows.subrange(i as int + 1, n as int)),
            )) =~= out0.add(spec_adj_record(rows[i as int])).add(
                spec_encode_adj(rows.subrange(i as int + 1, n as int)),
            ));
        }
        i = i + 1;
    }
    proof {
        assert(rows.subrange(n as int, n as int) =~= Seq::<(i64, Seq<Edge>)>::empty());
        assert(out@.add(Seq::<u8>::empty()) =~= out@);
    }
    out
}

/// Parse a persisted adjacency graph; a malformed artifact or one whose keys
/// are not strictly sorted is corrupt.
pub fn parse_adj_graph(bytes: &Vec<u8>) -> (r: Result<AdjGraph, RouteError>)
    ensures
        match r {
            Ok(g) => g.wf() && spec_parse_adj(bytes@) == Some(rows_view(g.entries@)),
            Err(e) => {
                &&& e == RouteError::CacheCorruption
                &&& (spec_parse_adj(bytes@) is None || !strictly_sorted(
                    spec_parse_adj(bytes@)->Some_0,
                ))
            },
        },
{
    let total = bytes.len();
    let mut entries: Vec<(i64, Vec<Edge>)> = Vec::new();
    let mut pos: usize = 0;
    proof {
        assert(bytes@.subrange(0, total as int) =~= bytes@);
        assert(rows_view(entries@) =~= Seq::<(i64, Seq<Edge>)>::empty());
        assert forall|es: Seq<(i64, Seq<Edge>)>|
            #[trigger] Seq::<(i64, Seq<Edge>)>::empty().add(es) == es by {
            assert(Seq::<(i64, Seq<Edge>)>::empty().add(es) =~= es);
        }
    }
    while pos < total
        invariant
            total == bytes@.len(),
            0 <= pos <= total,
            spec_parse_adj(bytes@) == match spec_parse_adj(
                bytes@.subrange(pos as int, total as int),
            ) {
                None => None::<Seq<(i64, Seq<Edge>)>>,
                Some(rest) => Some(rows_view(entries@).add(rest)),
            },
        decreases total - pos,
    {
        let ghost win = bytes@.subrange(pos as int, total as int);
        if total - pos < 34 || bytes[pos + 16] != 32 {
            proof {
                if win.len() >= 34 {
                    assert(win[16] == bytes@[pos as int + 16]);
                }
            }
            return Err(RouteError::CacheCorruption);
        }
        proof {
            assert(win[16] == 32);
            assert(win.subrange(0, 16) =~= bytes@.subrange(pos as int, pos as int + 16));
            assert(win.subrange(17, 33) =~= bytes@.subrange(pos as int + 17, pos as int + 33));
        }
        let id = match read_hex_u64(bytes, pos) {
            Some(v) => v,
            None => {
                return Err(RouteError::CacheCorruption);
            },
        };
        let k = match read_hex_u64(bytes, pos + 17) {
            Some(v) => v,
            None => {
                return Err(RouteError::CacheCorruption);
            },
        };
        let remaining: u128 = (total - pos) as u128;
        let need: u128 = 34 + 34 * (k as u128);
        if remaining < need {
            proof {
                assert(win.len() < 34 + 34 * (k as int));
            }
            return Err(RouteError::CacheCorruption);
        }
        let ke = k as usize;
        proof {
            assert(34 * (k as int) <= total as int);
            assert(ke as int == k as int);
        }
        let rl = 34 + 34 * ke;
        let ghost rli = 34 + 34 * (k as int);
        proof {
            assert(rl as int == rli);
            assert(win.len() >= rli);
        }
        if bytes[pos + rl - 1] != 10 {
            proof {
                assert(win[rli - 1] == bytes@[pos as int + rli - 1]);
            }
            return Err(RouteError::CacheCorruption);
        }
        proof {
            assert(win[rli - 1] == 10);
        }
        let ghost wedges = win.subrange(33, rli - 1);
        proof {
            assert(wedges =~= bytes@.subrange(pos as int + 33, pos as int + rli - 1));
            assert(wedges.len() == 34 * (k as int));
            assert(wedges.subrange(0, wedges.len() as int) =~= wedges);
            assert forall|es: Seq<Edge>| #[trigger] Seq::<Edge>::empty().add(es) == es by {
                assert(Seq::<Edge>::empty().add(es) =~= es);
            }
        }
        let mut row: Vec<Edge> = Vec::new();
        let mut j: usize = 0;
        while j < ke
            invariant
                total == bytes@.len(),
                0 <= pos,
                pos as int + rli <= total as int,
                rli == 34 + 34 * (ke as int),
                ke as int == k as int,
                0 <= j <= ke,
                win == bytes@.subrange(pos as int, total as int),
                win.len() >= 34,
                win[16] == 32,
                spec_unhex_u64(win.subrange(0, 16)) == Some(id),
                spec_unhex_u64(win.subrange(17, 33)) == Some(k),
                win.len() >= rli,
                win[rli - 1] == 10,
                wedges == win.subrange(33, rli - 1),
                wedges == bytes@.subrange(pos as int + 33, pos as int + rli - 1),
                wedges.len() == 34 * (ke as int),
                spec_parse_adj(bytes@) == match spec_parse_adj(
                    bytes@.subrange(pos as int, total as int),
                ) {
                    None => None::<Seq<(i64, Seq<Edge>)>>,
                    Some(rest) => Some(rows_view(entries@).add(rest)),
                },
                spec_parse_edges(wedges, ke as nat) == match spec_parse_edges(
                    wedges.subrange(34 * j as int, wedges.len() as int),
                    (ke - j) as nat,
                ) {
                    None => None::<Seq<Edge>>,
                    Some(es) => Some(row@.add(es)),
                },
            decreases ke - j,
        {
            let base = pos + 33 + 34 * j;
            let ghost ewin = wedges.subrange(34 * j as int, wedges.len() as int);
            proof {
                assert(ewin.len() == 34 * (ke as int - j as int));
                assert(ewin[0] == bytes@[base as int]);
                assert(ewin[17] == bytes@[base as int + 17]);
            }
            if bytes[base] != 32 || bytes[base + 17] != 32 {
                proof {
                    assert(spec_parse_edges(
                        wedges.subrange(34 * j as int, wedges.len() as int),
                        (ke - j) as nat,
                    ) is None);
                    assert(spec_parse_edges(wedges, ke as nat) is None);
                    assert(spec_parse_adj(win) is None);
                }
                return Err(RouteError::CacheCorruption);
            }
            proof {
                assert(ewin.subrange(1, 17) =~= bytes@.subrange(
                    base as int + 1,
                    base as int + 17,
                ));
                assert(ewin.subrange(18, 34) =~= bytes@.subrange(
                    base as int + 18,
                    base as int + 34,
                ));
            }
            let t = match read_hex_u64(bytes, base + 1) {
                Some(v) => v,
                None => {
                    proof {
                        assert(spec_parse_edges(
                            wedges.subrange(34 * j as int, wedges.len() as int),
                            (ke - j) as nat,
                        ) is None);
                        assert(spec_parse_edges(wedges, ke as nat) is None);
                        assert(spec_parse_adj(win) is None);
                    }
                    return Err(RouteError::CacheCorruption);
                },
            };
            let w = match read_hex_u64(bytes, base + 18) {
                Some(v) => v,
                None => {
                    proof {
                        assert(spec_parse_edges(
                            wedges.subrange(34 * j as int, wedges.len() as int),
                            (ke - j) as nat,
                        ) is None);
                        assert(spec_parse_edges(wedges, ke as nat) is None);
                        assert(spec_parse_adj(win) is None);
                    }
                    return Err(RouteError::CacheCorruption);
                },
            };
            let ghost row0 = row@;
            row.push(Edge { to: t as i64, weight_mm: w });
            proof {
                assert(ewin.subrange(34, ewin.len() as int) =~= wedges.subrange(
                    34 * (j as int + 1),
                    wedges.len() as int,
                ));
                assert forall|es: Seq<Edge>|
                    spec_parse_edges(
                        wedges.subrange(34 * (j as int + 1), wedges.len() as int),
                        (ke - j - 1) as nat,
                    ) == Some(es) implies row0.add(
                    seq![Edge { to: t as i64, weight_mm: w }].add(es),
                ) =~= row@.add(es) by {}
            }
            j = j + 1;
        }
        let ghost entries0 = entries@;
        entries.push((id as i64, row));
        proof {
            assert(wedges.subrange(34 * (ke as int), wedges.len() as int) =~= Seq::<u8>::empty());
            assert(row@.add(Seq::<Edge>::empty()) =~= row@);
            assert(spec_parse_edges(wedges, ke as nat) == Some(row@));
            assert(win.subrange(rli, win.len() as int) =~= bytes@.subrange(
                pos as int + rli,
                total as int,
            ));
            assert(rows_view(entries@) =~= rows_view(entries0).push(
                ((id as u64) as i64, row@),
            ));
            assert forall|rest: Seq<(i64, Seq<Edge>)>|
                spec_parse_adj(bytes@.subrange(pos as int + rli, total as int)) == Some(
                    rest,
                ) implies rows_view(entries0).add(
                seq![((id as u64) as i64, row@)].add(rest),
            ) =~= rows_view(entries@).add(rest) by {}
        }
        pos = pos + rl;
    }
    proof {
        assert(bytes@.subrange(total as int, total as int) =~= Seq::<u8>::empty());
        assert(rows_view(entries@).add(Seq::<(i64, Seq<Edge>)>::empty()) =~= rows_view(entries@));
    }
    if entries_strictly_sorted(&entries) {
        proof {
            let ghost rv = rows_view(entries@);
            assert forall|a: int, b: int|
                #![trigger rv[a], rv[b]]
                0 <= a < b < rv.len() implies rv[a].0 < rv[b].0 by {
                assert(entries@[a].0 < entries@[b].0);
            }
        }
        Ok(SortedMap { entries })
    } else {
        proof {
            let rv = rows_view(entries@);
            let (a, b) = choose|a: int, b: int|
                0 <= a < b < entries@.len() && (#[trigger] entries@[a]).0 >= (
                #[trigger] entries@[b]).0;
            assert(rv[a].0 >= rv[b].0);
        }
        Err(RouteError::CacheCorruption)
    }
}

proof fn lemma_edges_roundtrip(es: Seq<Edge>)
    ensures
        spec_parse_edges(spec_enc_edges(es), es.len()) == Some(es),
    decreases es.len(),
{
    lemma_enc_edges_len(es);
    if es.len() == 0 {
    } else {
        let e = es[0];
        let tail = es.subrange(1, es.len() as int);
        lemma_edges_roundtrip(tail);
        lemma_hex_u64_roundtrip(e.to as u64);
        lemma_hex_u64_roundtrip(e.weight_mm);
        let s = spec_enc_edges(es);
        assert(s[0] == 32);
        assert(s[17] == 32);
        assert(s.subrange(1, 17) =~= enc_i64(e.to));
        assert(s.subrange(18, 34) =~= spec_hex_u64(e.weight_mm));
        assert(s.subrange(34, s.len() as int) =~= spec_enc_edges(tail));
        let t = e.to;
        assert(((t as u64) as i64) == t) by (bit_vector);
        assert(Edge { to: (t as u64) as i64, weight_mm: e.weight_mm } == e);
        assert(seq![e].add(tail) =~= es);
    }
}

/// The adjacency artifact reads back as exactly the rows it was written
/// from.
pub proof fn lemma_adj_roundtrip(rows: Seq<(i64, Seq<Edge>)>)
    requires
        forall|i: int| 0 <= i < rows.len() ==> (#[trigger] rows[i]).1.len() <= 0xffff_ffff,
    ensures
        spec_parse_adj(spec_encode_adj(rows)) == Some(rows),
    decreases rows.len(),
{
    if rows.len() == 0 {
        assert(spec_encode_adj(rows) =~= Seq::<u8>::empty());
    } else {
        let row = rows[0];
        let tail = rows.subrange(1, rows.len() as int);
        lemma_adj_roundtrip(tail);
        lemma_edges_roundtrip(row.1);
        lemma_enc_edges_len(row.1);
        lemma_hex_u64_roundtrip(row.0 as u64);
        lemma_hex_u64_roundtrip(row.1.len() as u64);
        let s = spec_encode_adj(rows);
        let rl = 34 + 34 * (row.1.len() as int);
        assert(s.subrange(0, 16) =~= enc_i64(row.0));
        assert(s[16] == 32);
        assert(s.subrange(17, 33) =~= spec_hex_u64(row.1.len() as u64));
        assert((row.1.len() as u64) as int == row.1.len() as int);
        assert(s.len() >= rl);
        assert(s[rl - 1] == 10);
        assert(s.subrange(33, rl - 1) =~= spec_enc_edges(row.1));
        assert(s.subrange(rl, s.len() as int) =~= spec_encode_adj(tail));
        let id = row.0;
        assert(((id as u64) as i64) == id) by (bit_vector);
        assert(seq![row].add(tail) =~= rows);
    }
}

} // verus!
