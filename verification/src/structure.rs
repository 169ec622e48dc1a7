//! Logical structure of tagged PDF pages and the tables found in them.
pub mod grid;
pub mod line_clusters;
pub mod ruled_tables;
pub mod spatial_table_detector;
pub mod table_extractor;
pub mod types;
pub mod visual_merge;
