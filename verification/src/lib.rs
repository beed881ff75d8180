//! A reader and writer for the HDF5 binary format whose behaviour is stated in
//! contracts and proved.

pub mod attr_view;
pub mod btree;
pub mod btree_v1_chunk;
pub mod btree_v2;
pub mod bytes;
pub mod chunk_laws;
pub mod chunk_record;
pub mod chunk_reader;
pub mod chunked;
pub mod chunked_hyperslab;
pub mod dataset;
pub mod dataset_reader;
pub mod datatype;
pub mod describe;
pub mod dims;
pub mod dtype;
pub mod ea_index;
pub mod error;
pub mod fa_index;
pub mod file;
pub mod filters;
pub mod float;
pub mod fractal_heap;
pub mod global_heap;
pub mod global_heap_writer;
pub mod group;
pub mod header;
pub mod heap;
pub mod hyperslab;
pub mod laws;
pub mod link_msg;
pub mod links;
pub mod message;
pub mod ndarrays;
pub mod object;
pub mod paths;
pub mod roundtrip;
pub mod snod;
pub mod superblock;
pub mod utf8;
pub mod values;
pub mod vds;
pub mod write;

pub use crate::attr_view::AttrView;
pub use crate::chunk_reader::ChunkIndexCache;
pub use crate::dataset::Dataset;
pub use crate::dtype::{ByteOrder, Charset, CompoundField, Dtype, RefType};
pub use crate::error::OxiH5Error;
pub use crate::file::{File, FileInfo, Group, GroupTarget, ObjectKind};
pub use crate::float::Float;
pub use crate::hyperslab::{DimSelection, Hyperslab};
pub use crate::object::{Attribute, Dataspace, FilterInfo, FilterPipeline, Link, PropertyList};
pub use crate::values::Value;
pub use crate::write::FileWriter;

use vstd::prelude::*;
use crate::chunk_record::RecordModel;
use crate::file::{dataset_at_path_read, selection_at_path_read};
use crate::filters::apply_pipeline;

verus! {

/// The version of this crate.
pub fn version() -> (r: &'static str)
    ensures
        r@ == "0.1.0"@,
{
    "0.1.0"
}

/// Read one dataset of a file that is held in memory.
pub fn read_dataset(data: &[u8], name: &str) -> (r: Result<Dataset, OxiH5Error>)
    ensures
        exists|after: Map<(u64, usize), Seq<RecordModel>>| #[trigger]
            dataset_at_path_read(data@, name@, apply_pipeline, Map::empty(), after, r),
{
    let mut file: File = File::open_from_bytes(data)?;
    file.dataset(name)
}

/// Read a strided selection of one dataset of a file that is held in memory.
pub fn read_dataset_hyperslab(data: &[u8], name: &str, selection: &[DimSelection]) -> (r: Result<
    Dataset,
    OxiH5Error,
>)
    ensures
        exists|after: Map<(u64, usize), Seq<RecordModel>>| #[trigger]
            selection_at_path_read(
                data@,
                name@,
                selection@,
                apply_pipeline,
                Map::empty(),
                after,
                r,
            ),
{
    let mut file: File = File::open_from_bytes(data)?;
    file.dataset_hyperslab(name, selection)
}

} // verus!
