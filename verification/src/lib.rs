//! Maze generation on a rectangular grid: a binary min-heap, a lazy Prim
//! spanning-tree builder over randomly weighted grid edges, the wall map that
//! the finished tree leaves standing, and its picture.

pub mod bheap;
pub mod costs;
pub mod draw;
pub mod graph;
pub mod heap_order;
pub mod lattice;
pub mod maze;
pub mod minimum;
pub mod mst;
pub mod prim;
