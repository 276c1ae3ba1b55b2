//! An undirected similarity graph over per-individual survey records, with
//! verified structural and behavioral statistics: degree distribution,
//! distance-2 neighbor counts, and behavioral totals grouped by node degree.

pub mod record;
pub mod edges;
pub mod pgraph;
pub mod graph;
pub mod analysis;
