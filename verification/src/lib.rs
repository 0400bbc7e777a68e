//! All-pairs shortest paths for directed graphs with non-negative edge
//! weights, computed in place by the Floyd-Warshall algorithm.
//!
//! The crate has two parts: [`distance::Distance`], a value type that holds
//! either a finite non-negative weight or an explicit "unreachable" sentinel,
//! and [`engine`], which runs the relaxation over a square weight matrix and
//! proves the classic fixed-point facts about the result.

pub mod distance;
pub mod engine;
