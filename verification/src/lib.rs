pub mod aggregate;
pub mod bedgraph;
pub mod buckets;
pub mod counts;
pub mod error;
pub mod filter_candidates;
pub mod find_bases;
pub mod level;
pub mod reads;
pub mod report;
pub mod tally;
pub mod text;
pub mod utils;
