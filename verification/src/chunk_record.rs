//! Where one chunk of a dataset is stored.

use vstd::prelude::*;
use crate::bytes::{get_le, le_at};
use crate::error::{outcome, text, ErrorKind, OxiH5Error};

verus! {

/// One entry of a chunk index.
#[derive(Debug, Clone, PartialEq)]
pub struct ChunkRecord {
    /// File address of the stored bytes.
    pub address: u64,
    /// Number of stored bytes.
    pub size: u32,
    /// Filters that were not applied to this chunk, one bit each.
    pub filter_mask: u32,
    /// Position of the chunk's first element in the dataset.
    pub offsets: Vec<u64>,
}

/// A [`ChunkRecord`] as a mathematical value.
pub struct RecordModel {
    pub address: u64,
    pub size: u32,
    pub filter_mask: u32,
    pub offsets: Seq<u64>,
}

impl View for ChunkRecord {
    type V = RecordModel;

    open spec fn view(&self) -> RecordModel {
        RecordModel {
            address: self.address,
            size: self.size,
            filter_mask: self.filter_mask,
            offsets: self.offsets@,
        }
    }
}

/// The `ndims` integers of `width` bytes each that `data` starts with; none if
/// either number is 0.
pub open spec fn offsets_in(data: Seq<u8>, ndims: nat, width: nat) -> Result<Seq<u64>, ErrorKind> {
    if ndims == 0 || width == 0 {
        Ok(Seq::empty())
    } else if ndims * width > data.len() || !(width == 1 || width == 2 || width == 4 || width
        == 8) {
        Err(ErrorKind::Format)
    } else {
        Ok(Seq::new(ndims, |d: int| le_at(data, d * width, width) as u64))
    }
}

/// Parse `ndims` offsets from `data`, each `bytes_per_dim` bytes wide.
pub(crate) fn parse_offsets(data: &[u8], ndims: usize, bytes_per_dim: usize) -> (r: Result<
    Vec<u64>,
    OxiH5Error,
>)
    ensures
        outcome(r) == offsets_in(data@, ndims as nat, bytes_per_dim as nat),
{
    let mut offsets: Vec<u64> = Vec::new();
    assert(data.len() <= usize::MAX);
    if ndims == 0 || bytes_per_dim == 0 {
        return Ok(offsets);
    }
    match ndims.checked_mul(bytes_per_dim) {
        Some(needed) => {
            if needed > data.len() {
                return Err(OxiH5Error::Format("chunk offset field out of bounds".to_string()));
            }
        },
        None => {
            return Err(OxiH5Error::Format("chunk offset field out of bounds".to_string()));
        },
    }
    if bytes_per_dim != 1 && bytes_per_dim != 2 && bytes_per_dim != 4 && bytes_per_dim != 8 {
        return Err(
            OxiH5Error::Format(text(&["unsupported bytes_per_dim ", &bytes_per_dim.to_string()])),
        );
    }
    let ghost width = bytes_per_dim as nat;
    for d in 0..ndims
        invariant
            width == bytes_per_dim <= 8,
            ndims * bytes_per_dim <= data@.len() <= usize::MAX,
            offsets@ == Seq::new(d as nat, |k: int| le_at(data@, k * width, width) as u64),
    {
        proof {
            assert(d * bytes_per_dim + bytes_per_dim <= ndims * bytes_per_dim) by (nonlinear_arith)
                requires
                    d + 1 <= ndims,
            ;
        }
        offsets.push(get_le(data, d * bytes_per_dim, bytes_per_dim));
        proof {
            assert(offsets@ =~= Seq::new(
                (d + 1) as nat,
                |k: int| le_at(data@, k * width, width) as u64,
            ));
        }
    }
    Ok(offsets)
}

} // verus!
