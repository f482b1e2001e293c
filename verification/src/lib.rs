//! Sweep-line union of sorted, non-overlapping BedGraph-style interval
//! tracks: at every position where any input's value changes, the merge
//! emits a single interval whose per-source values are aligned.

pub mod chrom_geo;
pub mod text;
pub mod bedgraph;
pub mod chrom_sizes;
pub mod union;
