//! Anagram-class graphs: words grouped into anagram equivalence classes,
//! with directed edges between classes that differ by one inserted symbol,
//! plus reachability counts, growth-path enumeration and text serializers.

pub mod anagram;
pub mod analytics;
pub mod dot;
pub mod graph;
pub mod paths;
pub mod report;
pub mod text;
