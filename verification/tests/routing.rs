use cycle_router::cache::{
    encode_adj_graph, encode_node_table, parse_adj_graph, parse_node_table,
};
use cycle_router::errors::RouteError;
use cycle_router::filter::{default_filter_config, is_cyclable_way, RawWay};
use cycle_router::geom::{distance_mm, GeoNode};
use cycle_router::graph::{build_graph, AdjGraph, Edge, NodeTable};
use cycle_router::route::{encode_polyline, reconstruct_route};
use geo::{Distance, Haversine, Point};
use cycle_router::search::search;
use cycle_router::table::SortedMap;

fn tag(k: &str, v: &str) -> (String, String) {
    (k.to_owned(), v.to_owned())
}

fn way(nodes: Vec<i64>, tags: Vec<(String, String)>) -> RawWay {
    RawWay { nodes, tags }
}

fn node(id: i64, lat_e7: i64, lon_e7: i64) -> GeoNode {
    GeoNode { id, lat_e7, lon_e7 }
}

#[test]
fn filter_rejects_way_without_highway_tag() {
    let cfg = default_filter_config();
    let w = way(vec![1, 2], vec![tag("surface", "asphalt"), tag("name", "alley")]);
    assert!(!is_cyclable_way(&w, &cfg));
}

#[test]
fn filter_rejects_dirt_surface() {
    let cfg = default_filter_config();
    let w = way(vec![1, 2], vec![tag("highway", "residential"), tag("surface", "dirt")]);
    assert!(!is_cyclable_way(&w, &cfg));
}

#[test]
fn filter_accepts_residential_without_surface_tag() {
    let cfg = default_filter_config();
    let w = way(vec![1, 2], vec![tag("highway", "residential")]);
    assert!(is_cyclable_way(&w, &cfg));
}

#[test]
fn filter_rejects_motorway_regardless_of_other_tags() {
    let cfg = default_filter_config();
    let w = way(
        vec![1, 2],
        vec![tag("highway", "motorway"), tag("surface", "asphalt"), tag("bicycle", "yes")],
    );
    assert!(!is_cyclable_way(&w, &cfg));
}

#[test]
fn filter_rejects_denied_access_values() {
    let cfg = default_filter_config();
    for v in ["agricultural", "delivery", "forestry", "use_sidepath"] {
        let w = way(vec![1, 2], vec![tag("highway", "residential"), tag("access", v)]);
        assert!(!is_cyclable_way(&w, &cfg), "access={v} should be rejected");
    }
}

#[test]
fn builder_two_node_way_is_bidirectional() {
    let cfg = default_filter_config();
    let nodes = vec![node(1, 0, 0), node(2, 0, 10_000_000)];
    let ways = vec![way(vec![1, 2], vec![tag("highway", "residential")])];
    let (nt, adj) = build_graph(&nodes, &ways, &cfg).unwrap();
    let fwd = adj.get(1).unwrap();
    let back = adj.get(2).unwrap();
    assert_eq!(fwd.len(), 1);
    assert_eq!(back.len(), 1);
    assert_eq!(fwd[0].to, 2);
    assert_eq!(back[0].to, 1);
    assert_eq!(fwd[0].weight_mm, back[0].weight_mm);
    assert!(fwd[0].weight_mm > 0);
    assert!(nt.get(1).is_some() && nt.get(2).is_some());
}

#[test]
fn builder_oneway_way_is_directed() {
    let cfg = default_filter_config();
    let nodes = vec![node(1, 0, 0), node(2, 0, 10_000_000)];
    let ways = vec![way(vec![1, 2], vec![tag("highway", "residential"), tag("oneway", "yes")])];
    let (_nt, adj) = build_graph(&nodes, &ways, &cfg).unwrap();
    assert_eq!(adj.get(1).unwrap().len(), 1);
    assert!(adj.get(2).is_none());
}

#[test]
fn builder_prunes_nodes_of_rejected_ways() {
    let cfg = default_filter_config();
    let nodes = vec![node(1, 0, 0), node(2, 0, 10_000_000), node(3, 5_000_000, 5_000_000)];
    let ways = vec![
        way(vec![1, 2], vec![tag("highway", "residential")]),
        way(vec![2, 3], vec![tag("highway", "motorway")]),
    ];
    let (nt, _adj) = build_graph(&nodes, &ways, &cfg).unwrap();
    assert!(nt.get(1).is_some());
    assert!(nt.get(2).is_some());
    assert!(nt.get(3).is_none(), "a node referenced only by a rejected way is pruned");
}

#[test]
fn builder_reports_missing_node_as_decode_failure() {
    let cfg = default_filter_config();
    let nodes = vec![node(1, 0, 0)];
    let ways = vec![way(vec![1, 99], vec![tag("highway", "residential")])];
    assert_eq!(build_graph(&nodes, &ways, &cfg).unwrap_err(), RouteError::DecodeFailure);
}

#[test]
fn distance_to_self_is_zero() {
    let a = node(7, 356_000_000, 1_397_000_000);
    assert_eq!(distance_mm(&a, &a), 0);
}

#[test]
fn distance_is_symmetric() {
    let a = node(1, 356_812_000, 1_397_671_000);
    let b = node(2, 349_850_000, 1_355_020_000);
    assert_eq!(distance_mm(&a, &b), distance_mm(&b, &a));
}

#[test]
fn meridian_degree_is_close_to_geodesic_estimate() {
    // One degree along the meridian from the equator: about 110.6 km.
    let a = node(1, 0, 0);
    let b = node(2, 10_000_000, 0);
    let d = distance_mm(&a, &b) as f64 / 1000.0;
    let geodesic = 110_574.0;
    assert!((d - geodesic).abs() / geodesic < 0.01, "got {d} m");
}

#[test]
fn distance_tracks_haversine_reference() {
    // Tokyo station to Osaka station, roughly.
    let a = node(1, 356_812_000, 1_397_671_000);
    let b = node(2, 347_024_000, 1_355_023_000);
    let ours = distance_mm(&a, &b) as f64 / 1000.0;
    let pa = Point::new(139.7671, 35.6812);
    let pb = Point::new(135.5023, 34.7024);
    let reference = Haversine.distance(pa, pb);
    assert!((ours - reference).abs() / reference < 0.01, "ours {ours}, reference {reference}");
}

fn small_graph() -> (NodeTable, AdjGraph) {
    let cfg = default_filter_config();
    let nodes = vec![
        node(1, 0, 0),
        node(2, 0, 10_000_000),
        node(3, 10_000_000, 10_000_000),
        node(4, 10_000_000, 0),
    ];
    let ways = vec![
        way(vec![1, 2, 3], vec![tag("highway", "residential")]),
        way(vec![1, 4], vec![tag("highway", "cycleway")]),
        way(vec![4, 3], vec![tag("highway", "residential"), tag("oneway", "yes")]),
    ];
    build_graph(&nodes, &ways, &cfg).unwrap()
}

#[test]
fn cache_round_trip_preserves_search_results() {
    let (nt, adj) = small_graph();
    let nt_bytes = encode_node_table(&nt);
    let adj_bytes = encode_adj_graph(&adj);
    let nt2 = parse_node_table(&nt_bytes).unwrap();
    let adj2 = parse_adj_graph(&adj_bytes).unwrap();

    let (pm1, d1) = search(&adj, 1, 3).unwrap();
    let (pm2, d2) = search(&adj2, 1, 3).unwrap();
    assert_eq!(d1, d2);
    let r1 = reconstruct_route(&pm1, 1, 3, &nt).unwrap();
    let r2 = reconstruct_route(&pm2, 1, 3, &nt2).unwrap();
    assert_eq!(r1, r2);
    assert_eq!(encode_polyline(&r1), encode_polyline(&r2));
    // And the artifacts themselves re-serialize identically.
    assert_eq!(encode_node_table(&nt2), nt_bytes);
    assert_eq!(encode_adj_graph(&adj2), adj_bytes);
}

#[test]
fn cache_rejects_garbage() {
    let garbage: Vec<u8> = b"not a cache artifact".to_vec();
    assert_eq!(parse_node_table(&garbage).unwrap_err(), RouteError::CacheCorruption);
    assert_eq!(parse_adj_graph(&garbage).unwrap_err(), RouteError::CacheCorruption);
}

#[test]
fn cache_rejects_unsorted_table() {
    let t1: NodeTable = SortedMap { entries: vec![(2, (0, 0)), (1, (0, 0))] };
    let bytes = encode_node_table(&t1);
    assert_eq!(parse_node_table(&bytes).unwrap_err(), RouteError::CacheCorruption);
}

#[test]
fn search_is_deterministic() {
    let (nt, adj) = small_graph();
    let (pm1, d1) = search(&adj, 1, 3).unwrap();
    let (pm2, d2) = search(&adj, 1, 3).unwrap();
    assert_eq!(d1, d2);
    assert_eq!(pm1.entries, pm2.entries);
    let e1 = encode_polyline(&reconstruct_route(&pm1, 1, 3, &nt).unwrap());
    let e2 = encode_polyline(&reconstruct_route(&pm2, 1, 3, &nt).unwrap());
    assert_eq!(e1, e2);
}

#[test]
fn disconnected_goal_is_no_route_found() {
    let adj: AdjGraph = SortedMap {
        entries: vec![
            (1, vec![Edge { to: 2, weight_mm: 5 }]),
            (2, vec![Edge { to: 1, weight_mm: 5 }]),
            (3, vec![Edge { to: 4, weight_mm: 5 }]),
        ],
    };
    assert_eq!(search(&adj, 1, 4).unwrap_err(), RouteError::NoRouteFound);
}

#[test]
fn unsettled_goal_cannot_be_reconstructed() {
    let pm: SortedMap<Option<i64>> = SortedMap { entries: vec![(1, None)] };
    let nt: NodeTable = SortedMap { entries: vec![(1, (0, 0))] };
    assert_eq!(reconstruct_route(&pm, 1, 9, &nt).unwrap_err(), RouteError::NoRouteFound);
}

#[test]
fn settled_node_without_coordinates_is_encoding_failure() {
    let pm: SortedMap<Option<i64>> = SortedMap { entries: vec![(1, None), (2, Some(1))] };
    let nt: NodeTable = SortedMap { entries: vec![] };
    assert_eq!(reconstruct_route(&pm, 1, 2, &nt).unwrap_err(), RouteError::EncodingFailure);
}

#[test]
fn error_descriptions_name_the_failure() {
    assert_eq!(RouteError::NoRouteFound.describe(), "no route found");
    assert!(!RouteError::FetchFailure.describe().is_empty());
    assert!(!RouteError::DecodeFailure.describe().is_empty());
    assert!(!RouteError::CacheCorruption.describe().is_empty());
    assert!(!RouteError::EncodingFailure.describe().is_empty());
}

#[test]
fn end_to_end_three_node_route() {
    // Nodes 1:(0,0), 2:(0,1), 3:(1,1) in degrees; edges 1->2 and 2->3 of
    // 1000 m each.
    let nt: NodeTable = SortedMap {
        entries: vec![(1, (0, 0)), (2, (0, 10_000_000)), (3, (10_000_000, 10_000_000))],
    };
    let adj: AdjGraph = SortedMap {
        entries: vec![
            (1, vec![Edge { to: 2, weight_mm: 1_000_000 }]),
            (2, vec![Edge { to: 3, weight_mm: 1_000_000 }]),
        ],
    };
    let (pm, dist) = search(&adj, 1, 3).unwrap();
    assert_eq!(dist, 2_000_000, "cumulative millimeters");
    let route = reconstruct_route(&pm, 1, 3, &nt).unwrap();
    assert_eq!(route, vec![(0, 0), (0, 10_000_000), (10_000_000, 10_000_000)]);
    let encoded = encode_polyline(&route);
    let text = String::from_utf8(encoded).unwrap();
    // The reference decoder reads back exactly the three coordinates.
    let line = polyline::decode_polyline(&text, 5).unwrap();
    let pts: Vec<(f64, f64)> = line.points().map(|p| (p.y(), p.x())).collect();
    assert_eq!(pts, vec![(0.0, 0.0), (0.0, 1.0), (1.0, 1.0)]);
}

#[test]
fn polyline_matches_reference_encoder() {
    // The classic three-point example, in fixed-point degrees.
    let coords: Vec<(i64, i64)> = vec![
        (385_000_000, -1_202_000_000),
        (407_000_000, -1_209_500_000),
        (432_520_000, -1_264_530_000),
    ];
    let ours = String::from_utf8(encode_polyline(&coords)).unwrap();
    assert_eq!(ours, "_p~iF~ps|U_ulLnnqC_mqNvxq`@");
}
