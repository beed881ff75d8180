//! Plain descriptions of what a file holds besides elements.

use vstd::prelude::*;
use crate::dtype::{Dtype, DtypeModel};

verus! {

/// The extent of a dataset or an attribute.
#[derive(Debug, PartialEq)]
pub enum Dataspace {
    Simple { dims: Vec<u64>, max_dims: Option<Vec<u64>> },
    Null,
    Scalar,
}

/// A [`Dataspace`] as a mathematical value.
pub enum DataspaceModel {
    Simple { dims: Seq<u64>, max_dims: Option<Seq<u64>> },
    Null,
    Scalar,
}

/// The contents of an optional list.
pub open spec fn optional<T>(list: Option<Vec<T>>) -> Option<Seq<T>> {
    match list {
        Some(items) => Some(items@),
        None => None,
    }
}

/// An equal optional list.
pub fn copy_optional(list: &Option<Vec<u64>>) -> (r: Option<Vec<u64>>)
    ensures
        optional(r) == optional(*list),
{
    match list {
        Some(items) => Some(vstd::slice::slice_to_vec(items)),
        None => None,
    }
}

impl View for Dataspace {
    type V = DataspaceModel;

    open spec fn view(&self) -> DataspaceModel {
        match self {
            Dataspace::Simple { dims, max_dims } => DataspaceModel::Simple {
                dims: dims@,
                max_dims: optional(*max_dims),
            },
            Dataspace::Null => DataspaceModel::Null,
            Dataspace::Scalar => DataspaceModel::Scalar,
        }
    }
}

impl Clone for Dataspace {
    fn clone(&self) -> (r: Dataspace)
        ensures
            r@ == self@,
    {
        match self {
            Dataspace::Simple { dims, max_dims } => Dataspace::Simple {
                dims: vstd::slice::slice_to_vec(dims),
                max_dims: copy_optional(max_dims),
            },
            Dataspace::Null => Dataspace::Null,
            Dataspace::Scalar => Dataspace::Scalar,
        }
    }
}

/// A named value attached to a dataset or a group.
#[derive(Debug)]
pub struct Attribute {
    pub name: String,
    pub dtype: Dtype,
    pub dataspace: Dataspace,
    pub data: Vec<u8>,
}

/// An [`Attribute`] as a mathematical value.
pub struct AttributeModel {
    pub name: Seq<char>,
    pub dtype: DtypeModel,
    pub dataspace: DataspaceModel,
    pub data: Seq<u8>,
}

impl View for Attribute {
    type V = AttributeModel;

    open spec fn view(&self) -> AttributeModel {
        AttributeModel {
            name: self.name@,
            dtype: self.dtype@,
            dataspace: self.dataspace@,
            data: self.data@,
        }
    }
}

impl Clone for Attribute {
    fn clone(&self) -> (r: Attribute)
        ensures
            r@ == self@,
    {
        Attribute {
            name: self.name.clone(),
            dtype: self.dtype.clone(),
            dataspace: self.dataspace.clone(),
            data: vstd::slice::slice_to_vec(&self.data),
        }
    }
}

/// One filter that chunks pass through on their way to the file.
#[derive(Debug, Clone, PartialEq)]
pub struct FilterInfo {
    pub id: u16,
    pub name: Option<String>,
    pub flags: u16,
    pub client_data: Vec<u32>,
}

/// A [`FilterInfo`] as a mathematical value.
pub struct FilterModel {
    pub id: u16,
    pub name: Option<Seq<char>>,
    pub flags: u16,
    pub client_data: Seq<u32>,
}

impl View for FilterInfo {
    type V = FilterModel;

    open spec fn view(&self) -> FilterModel {
        FilterModel {
            id: self.id,
            name: match self.name {
                Some(name) => Some(name@),
                None => None,
            },
            flags: self.flags,
            client_data: self.client_data@,
        }
    }
}

/// The filters of a dataset, in the order in which they were applied.
#[derive(Debug, Clone, PartialEq)]
pub struct FilterPipeline {
    pub filters: Vec<FilterInfo>,
}

/// How a dataset is to be stored.
#[derive(Debug, Clone)]
pub struct PropertyList {
    pub chunk_dims: Option<Vec<u64>>,
    pub filters: Option<FilterPipeline>,
    pub fill_value: Option<Vec<u8>>,
}

/// What a name in a group stands for.
#[derive(Debug, Clone, PartialEq)]
pub enum Link {
    /// An object of the same file, by the address of its header.
    Hard { address: u64 },
    /// Whatever the path leads to.
    Soft { path: String },
    /// An object of another file.
    External { file: String, path: String },
}

/// A group with its members and attributes.
#[derive(Debug)]
pub struct Group {
    pub name: String,
    pub children: Vec<(String, Link)>,
    pub attributes: Vec<Attribute>,
}

/// Where and how the elements of a dataset are stored.
#[derive(Debug, PartialEq)]
pub enum LayoutInfo {
    /// One run of bytes in the file.
    Contiguous { data_address: u64, data_size: u64 },
    /// In the object header itself.
    Compact { data: Vec<u8> },
    /// In chunks, found through an index.
    Chunked { data_address: u64, dimensionality: u8, chunk_dims: Vec<u64>, index_type: u8 },
    /// Composed of other datasets, as an object of a global heap describes.
    VirtualDataset { heap_address: u64, heap_index: u32 },
}

/// A [`LayoutInfo`] as a mathematical value.
pub enum LayoutModel {
    Contiguous { data_address: u64, data_size: u64 },
    Compact { data: Seq<u8> },
    Chunked { data_address: u64, dimensionality: u8, chunk_dims: Seq<u64>, index_type: u8 },
    VirtualDataset { heap_address: u64, heap_index: u32 },
}

impl View for LayoutInfo {
    type V = LayoutModel;

    open spec fn view(&self) -> LayoutModel {
        match self {
            LayoutInfo::Contiguous { data_address, data_size } => LayoutModel::Contiguous {
                data_address: *data_address,
                data_size: *data_size,
            },
            LayoutInfo::Compact { data } => LayoutModel::Compact { data: data@ },
            LayoutInfo::Chunked { data_address, dimensionality, chunk_dims, index_type } => {
                LayoutModel::Chunked {
                    data_address: *data_address,
                    dimensionality: *dimensionality,
                    chunk_dims: chunk_dims@,
                    index_type: *index_type,
                }
            },
            LayoutInfo::VirtualDataset { heap_address, heap_index } => {
                LayoutModel::VirtualDataset {
                    heap_address: *heap_address,
                    heap_index: *heap_index,
                }
            },
        }
    }
}

} // verus!
