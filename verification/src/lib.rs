//! A verified bicycle-routing core: way filtering, graph construction,
//! an on-disk cache codec, shortest-path search and polyline encoding.
pub mod cache;
pub mod codec;
pub mod errors;
pub mod filter;
pub mod geom;
pub mod graph;
pub mod route;
pub mod search;
pub mod table;
