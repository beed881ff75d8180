//! What the operations of the library are for, in terms of what goes in and what comes out.

pub mod attributes;
pub mod chunk_indexes;
pub mod chunk_reads;
pub mod chunk_slices;
pub mod chunk_trees;
pub mod collections;
pub mod datatypes;
pub mod elements;
pub mod files;
pub mod filters;
pub mod fractal_heaps;
pub mod group_keys;
pub mod group_tables;
pub mod headers;
pub mod link_paths;
pub mod members;
pub mod messages;
pub mod numerals;
pub mod objects;
pub mod selections;
pub mod spelling;
pub mod structured;
pub mod tree_building;
pub mod trees;
pub mod virtual_datasets;
pub mod written_structures;
