//! Incremental connectivity over a set of points in 3-D integer space.
//!
//! Edges between all pairs of points are weighted by squared Euclidean
//! distance and consumed in increasing weight order, merging clusters in a
//! disjoint-set forest.  Two queries are answered over this merge process:
//! the product of the three largest cluster sizes after a bounded number of
//! merge attempts, and the bottleneck edge whose merge first makes the whole
//! point set one cluster.

pub mod point;
pub mod edge;
pub mod dsf;
pub mod engine;
pub mod oracle;
pub mod equiv;
