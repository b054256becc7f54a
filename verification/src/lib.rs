//! Building blocks for shortest-path computation over weighted directed
//! graphs: an array-backed binary min-heap used as a priority queue, two
//! interchangeable graph representations (sparse adjacency list and dense
//! weight matrix), and two single-source shortest-path algorithms on top of
//! them (a heap-driven Dijkstra-style relaxation and an iterative
//! Bellman-Ford-style relaxation with negative-cycle detection).
//!
//! Edge weights are plain integers; a caller that thinks in fractional
//! weights scales them to a fixed denominator before building a graph.
//! Node identifiers are likewise fixed to `usize` and priorities to
//! `i64`, narrowing the broader "any equatable, hashable, orderable
//! identifier" design to the integer carriers whose ordering the
//! verifier can reason about.

pub mod graph;
pub mod paths;
pub mod priority_queue;
