//! Virtual datasets: elements that lie in other datasets.
//!
//! A global heap object says which: a version (1 byte, 0), the number of entries (as wide
//! as a length in the file), the entries, and a checksum. An entry is the name of a file,
//! `.` or nothing for the file itself, and the name of a dataset there, both ended by a
//! zero byte, then a selection of that dataset and a selection of the virtual one.
//!
//! A selection is its type (4 bytes), a version (4), and what these ask for:
//! - nothing (type 0) or everything (type 3): 8 bytes that are not used;
//! - strided (type 2), version 1: 8 bytes that are not used, the rank (4), the number of
//!   blocks (4), and for each block its first positions and its last ones (4 each);
//! - version 2: flags (1), 4 bytes that are not used, the rank (4), and for each dimension
//!   start, stride, count and block (8 each);
//! - version 3: flags (1), a width (1), the rank (4), and the same numbers, that wide.

use vstd::prelude::*;
use vstd::slice::slice_subrange;
use vstd::string::*;
use crate::bytes::{get_le, get_u32, le_at, push_zeros, put, put_bytes, zeros};
use crate::chunk_reader::ChunkIndexCache;
use crate::chunk_record::RecordModel;
use crate::chunked::content;
use crate::dataset::{Dataset, DatasetModel};
use crate::dataset_reader::{
    attributes_if_any, attributes_or_none, element_size, parse_parts, parts_at, read_stored,
    shape_from, shape_of, stored_read, DatasetParts,
};
use crate::dims::{exact_total64, ints, ints64, lemma_product_non_negative, product};
use crate::dtype::{size_of, views, Dtype, DtypeModel, ElemSize};
use crate::error::{outcome, outcomes, text, ErrorKind, OxiH5Error};
use crate::file::{dataset_target, File};
use crate::global_heap::{heap_at, object_in, GlobalHeap};
use crate::hyperslab::{
    element_places, selected_places, selected_shape, selects_within, DimSelection,
};
use crate::links::{SoftTarget, TargetModel};
use crate::object::{Attribute, AttributeModel, FilterPipeline, LayoutInfo, LayoutModel};
use crate::superblock::{superblock_of, Superblock};
use crate::utf8::{as_text, find_nul, nul_from, same_text, utf8_text};

verus! {

/// Some of a dataset's elements.
#[derive(Debug)]
pub enum VdsSelection {
    Nothing,
    Everything,
    Slab(Vec<DimSelection>),
}

/// A [`VdsSelection`] as a mathematical value.
pub enum SelectionModel {
    Nothing,
    Everything,
    Slab(Seq<DimSelection>),
}

impl View for VdsSelection {
    type V = SelectionModel;

    open spec fn view(&self) -> SelectionModel {
        match self {
            VdsSelection::Nothing => SelectionModel::Nothing,
            VdsSelection::Everything => SelectionModel::Everything,
            VdsSelection::Slab(dims) => SelectionModel::Slab(dims@),
        }
    }
}

/// A source of a virtual dataset, and which of its elements become which elements of the
/// virtual one.
#[derive(Debug)]
pub struct VdsEntry {
    pub source_file: String,
    pub source_dataset: String,
    pub source_selection: VdsSelection,
    pub virtual_selection: VdsSelection,
}

/// A [`VdsEntry`] as a mathematical value.
pub struct EntryModel {
    pub source_file: Seq<char>,
    pub source_dataset: Seq<char>,
    pub source_selection: SelectionModel,
    pub virtual_selection: SelectionModel,
}

impl View for VdsEntry {
    type V = EntryModel;

    open spec fn view(&self) -> EntryModel {
        EntryModel {
            source_file: self.source_file@,
            source_dataset: self.source_dataset@,
            source_selection: self.source_selection@,
            virtual_selection: self.virtual_selection@,
        }
    }
}

/// The places of the selected elements, in row-major order of the selection.
pub open spec fn offsets_of(selection: SelectionModel, dims: Seq<int>) -> Result<
    Seq<int>,
    ErrorKind,
> {
    match selection {
        SelectionModel::Nothing => Ok(Seq::empty()),
        SelectionModel::Everything => if product(dims) <= usize::MAX {
            Ok(Seq::new(product(dims) as nat, |i: int| i))
        } else {
            Err(ErrorKind::Format)
        },
        SelectionModel::Slab(slab) => if selects_within(slab, dims) && product(dims) <= usize::MAX
            && product(selected_shape(slab)) <= usize::MAX {
            Ok(selected_places(dims, slab))
        } else {
            Err(ErrorKind::Format)
        },
    }
}

/// The places of the selected elements of a dataset of those extents.
pub fn selection_element_offsets(selection: &VdsSelection, dims: &[u64]) -> (r: Result<
    Vec<usize>,
    OxiH5Error,
>)
    ensures
        match (r, offsets_of(selection@, ints64(dims@))) {
            (Ok(a), Ok(b)) => ints(a@) == b,
            (Err(e), Err(kind)) => e@ == kind,
            _ => false,
        },
{
    let mut places: Vec<usize> = Vec::new();
    match selection {
        VdsSelection::Nothing => {
            proof {
                assert(ints(places@) =~= Seq::<int>::empty());
            }
            Ok(places)
        },
        VdsSelection::Everything => {
            let total: usize = match exact_total64(dims) {
                Some(n) => n,
                None => {
                    return Err(
                        OxiH5Error::Format("virtual dataset: size overflow".to_string()),
                    );
                },
            };
            for i in 0..total
                invariant
                    places@.len() == i,
                    forall|k: int| 0 <= k < i ==> #[trigger] places@[k] == k,
            {
                places.push(i);
            }
            proof {
                assert(ints(places@) =~= Seq::new(total as nat, |i: int| i));
            }
            Ok(places)
        },
        VdsSelection::Slab(slab) => element_places(dims, slab),
    }
}

/// The numbers of a strided selection, `width` bytes each, from `at` on.
pub open spec fn slab_at(data: Seq<u8>, at: int, rank: nat, width: nat) -> Result<
    (SelectionModel, int),
    ErrorKind,
> {
    if !(width == 2 || width == 4 || width == 8) || at + rank * (4 * width) > data.len() {
        Err(ErrorKind::Format)
    } else {
        Ok(
            (
                SelectionModel::Slab(
                    Seq::new(rank, |d: int| dim_at(data, at + d * (4 * width), width)),
                ),
                at + rank * (4 * width),
            ),
        )
    }
}

/// The four numbers of one dimension.
pub open spec fn dim_at(data: Seq<u8>, at: int, width: nat) -> DimSelection {
    DimSelection {
        start: le_at(data, at, width) as u64,
        stride: le_at(data, at + width, width) as u64,
        count: le_at(data, at + 2 * width, width) as u64,
        block: le_at(data, at + 3 * width, width) as u64,
    }
}

/// A block by its first positions at `at` and its last ones behind them.
pub open spec fn block_at(data: Seq<u8>, at: int, rank: nat) -> Result<
    (SelectionModel, int),
    ErrorKind,
> {
    if at + rank * 8 > data.len() {
        Err(ErrorKind::Format)
    } else if exists|d: int|
        0 <= d < rank && #[trigger] le_at(data, at + rank * 4 + d * 4, 4) < le_at(
            data,
            at + d * 4,
            4,
        ) {
        Err(ErrorKind::Format)
    } else {
        Ok(
            (
                SelectionModel::Slab(
                    Seq::new(
                        rank,
                        |d: int|
                            DimSelection {
                                start: le_at(data, at + d * 4, 4) as u64,
                                stride: 1,
                                count: 1,
                                block: (le_at(data, at + rank * 4 + d * 4, 4) - le_at(
                                    data,
                                    at + d * 4,
                                    4,
                                ) + 1) as u64,
                            },
                    ),
                ),
                at + rank * 8,
            ),
        )
    }
}

/// The selection at `pos`, and where it ends. Selections of points, of several blocks,
/// and of blocks that are no regular pattern are not read.
pub open spec fn selection_at(data: Seq<u8>, pos: int) -> Result<(SelectionModel, int), ErrorKind> {
    if pos + 8 > data.len() {
        Err(ErrorKind::Format)
    } else {
        let kind = le_at(data, pos, 4);
        let version = le_at(data, pos + 4, 4);
        if kind == 0 || kind == 3 {
            if pos + 16 > data.len() {
                Err(ErrorKind::Format)
            } else if kind == 0 {
                Ok((SelectionModel::Nothing, pos + 16))
            } else {
                Ok((SelectionModel::Everything, pos + 16))
            }
        } else if kind != 2 {
            Err(ErrorKind::NotImplemented)
        } else if version == 1 {
            if pos + 24 > data.len() {
                Err(ErrorKind::Format)
            } else if le_at(data, pos + 20, 4) != 1 {
                Err(ErrorKind::NotImplemented)
            } else {
                block_at(data, pos + 24, le_at(data, pos + 16, 4))
            }
        } else if version == 2 {
            if pos + 17 > data.len() {
                Err(ErrorKind::Format)
            } else if data[pos + 8] % 2 != 1 {
                Err(ErrorKind::NotImplemented)
            } else {
                slab_at(data, pos + 17, le_at(data, pos + 13, 4), 8)
            }
        } else if version == 3 {
            if pos + 14 > data.len() {
                Err(ErrorKind::Format)
            } else if data[pos + 8] % 2 != 1 {
                Err(ErrorKind::NotImplemented)
            } else {
                slab_at(data, pos + 14, le_at(data, pos + 10, 4), data[pos + 9] as nat)
            }
        } else {
            Err(ErrorKind::NotImplemented)
        }
    }
}

/// The text from `pos` to a zero byte, and where what follows it starts.
pub open spec fn text_at(data: Seq<u8>, pos: int) -> Result<(Seq<char>, int), ErrorKind> {
    let end = nul_from(data, pos);
    if end >= data.len() {
        Err(ErrorKind::Format)
    } else {
        match utf8_text(data.subrange(pos, end)) {
            Some(chars) => Ok((chars, end + 1)),
            None => Err(ErrorKind::Format),
        }
    }
}

/// The entry at `pos`, and where it ends.
pub open spec fn entry_at(data: Seq<u8>, pos: int) -> Result<(EntryModel, int), ErrorKind> {
    match text_at(data, pos) {
        Err(kind) => Err(kind),
        Ok((source_file, a)) => match text_at(data, a) {
            Err(kind) => Err(kind),
            Ok((source_dataset, b)) => match selection_at(data, b) {
                Err(kind) => Err(kind),
                Ok((source_selection, c)) => match selection_at(data, c) {
                    Err(kind) => Err(kind),
                    Ok((virtual_selection, end)) => Ok(
                        (
                            EntryModel {
                                source_file,
                                source_dataset,
                                source_selection,
                                virtual_selection,
                            },
                            end,
                        ),
                    ),
                },
            },
        },
    }
}

/// The `n` entries from `pos` on, behind those in `found`.
pub open spec fn entries_from(data: Seq<u8>, pos: int, n: nat, found: Seq<EntryModel>) -> Result<
    Seq<EntryModel>,
    ErrorKind,
>
    decreases n,
{
    if n == 0 {
        Ok(found)
    } else {
        match entry_at(data, pos) {
            Err(kind) => Err(kind),
            Ok((entry, next)) => entries_from(data, next, (n - 1) as nat, found.push(entry)),
        }
    }
}

/// The entries that a global heap object holds, in a file with lengths of `width` bytes.
pub open spec fn mapping_in(data: Seq<u8>, width: u8) -> Result<Seq<EntryModel>, ErrorKind> {
    if width > 8 || 1 + width > data.len() || data[0] != 0 {
        Err(ErrorKind::Format)
    } else {
        entries_from(data, 1 + width as int, le_at(data, 1, width as nat), Seq::empty())
    }
}

/// The entries of the virtual dataset whose description is that object of a global heap.
pub open spec fn mapping_at(file: Seq<u8>, heap_address: u64, heap_index: u32, width: u8) -> Result<
    Seq<EntryModel>,
    ErrorKind,
> {
    match heap_at(file, heap_address as int) {
        Err(kind) => Err(kind),
        Ok(heap) => if heap_index > u16::MAX {
            Err(ErrorKind::Format)
        } else {
            match object_in(heap, heap_index as u16) {
                Err(kind) => Err(kind),
                Ok(data) => mapping_in(data, width),
            }
        },
    }
}

fn malformed(what: &str) -> (r: OxiH5Error)
    ensures
        r@ == ErrorKind::Format,
{
    OxiH5Error::Format(text(&["virtual dataset: ", what]))
}

fn unread(what: &str) -> (r: OxiH5Error)
    ensures
        r@ == ErrorKind::NotImplemented,
{
    OxiH5Error::NotImplemented(text(&["virtual dataset: ", what]))
}

/// Whether `rank` runs of `size` bytes fit from `at` on.
fn room_for(len: usize, at: usize, rank: u32, size: usize) -> (r: bool)
    requires
        at <= len,
        0 < size <= 32,
    ensures
        r == (at + rank * size <= len),
{
    let left: usize = len - at;
    let fits: usize = left / size;
    proof {
        vstd::arithmetic::div_mod::lemma_fundamental_div_mod(left as int, size as int);
        assert(rank <= fits ==> rank * size <= left) by (nonlinear_arith)
            requires
                left == size * fits + left % size,
                0 <= left % size,
                size > 0,
        ;
        assert(rank > fits ==> rank * size > left) by (nonlinear_arith)
            requires
                left == size * fits + left % size,
                left % size < size,
                size > 0,
        ;
    }
    rank as u64 <= fits as u64
}

/// Read the numbers of a strided selection.
fn parse_slab(data: &[u8], at: usize, rank: u32, width: usize) -> (r: Result<
    (VdsSelection, usize),
    OxiH5Error,
>)
    requires
        at <= data@.len(),
    ensures
        match (r, slab_at(data@, at as int, rank as nat, width as nat)) {
            (Ok((a, x)), Ok((b, y))) => a@ == b && x == y && x <= data@.len(),
            (Err(e), Err(kind)) => e@ == kind,
            _ => false,
        },
{
    if !(width == 2 || width == 4 || width == 8) {
        return Err(malformed("selection of an unknown width"));
    }
    if !room_for(data.len(), at, rank, 4 * width) {
        return Err(malformed("selection truncated"));
    }
    let n: usize = rank as usize;
    let size: usize = 4 * width;
    assert(data.len() <= usize::MAX);
    let mut dims: Vec<DimSelection> = Vec::new();
    for d in 0..n
        invariant
            n == rank,
            size == 4 * width,
            width == 2 || width == 4 || width == 8,
            at + n * size <= data@.len() <= usize::MAX,
            dims@.len() == d,
            forall|k: int|
                0 <= k < d ==> #[trigger] dims@[k] == dim_at(data@, at + k * size, width as nat),
    {
        proof {
            assert(d * size + size <= n * size) by (nonlinear_arith)
                requires
                    d + 1 <= n,
                    size >= 0,
            ;
            assert(0 <= d * size) by (nonlinear_arith)
                requires
                    d >= 0,
                    size >= 0,
            ;
        }
        let from: usize = at + d * size;
        dims.push(
            DimSelection {
                start: get_le(data, from, width),
                stride: get_le(data, from + width, width),
                count: get_le(data, from + 2 * width, width),
                block: get_le(data, from + 3 * width, width),
            },
        );
    }
    proof {
        assert(dims@ =~= Seq::new(
            rank as nat,
            |d: int| dim_at(data@, at + d * (4 * width as nat), width as nat),
        ));
    }
    Ok((VdsSelection::Slab(dims), at + n * size))
}

/// Read a block.
fn parse_block(data: &[u8], at: usize, rank: u32) -> (r: Result<(VdsSelection, usize), OxiH5Error>)
    requires
        at <= data@.len(),
    ensures
        match (r, block_at(data@, at as int, rank as nat)) {
            (Ok((a, x)), Ok((b, y))) => a@ == b && x == y && x <= data@.len(),
            (Err(e), Err(kind)) => e@ == kind,
            _ => false,
        },
{
    if !room_for(data.len(), at, rank, 8) {
        return Err(malformed("selection truncated"));
    }
    let n: usize = rank as usize;
    assert(data.len() <= usize::MAX);
    let ghost model = |d: int|
        DimSelection {
            start: le_at(data@, at + d * 4, 4) as u64,
            stride: 1,
            count: 1,
            block: (le_at(data@, at + rank * 4 + d * 4, 4) - le_at(data@, at + d * 4, 4) + 1) as u64,
        };
    let mut dims: Vec<DimSelection> = Vec::new();
    for d in 0..n
        invariant
            n == rank,
            at + n * 8 <= data@.len() <= usize::MAX,
            dims@.len() == d,
            model == (|d: int|
                DimSelection {
                    start: le_at(data@, at + d * 4, 4) as u64,
                    stride: 1,
                    count: 1,
                    block: (le_at(data@, at + rank * 4 + d * 4, 4) - le_at(data@, at + d * 4, 4)
                        + 1) as u64,
                }),
            forall|k: int|
                0 <= k < d ==> #[trigger] le_at(data@, at + rank * 4 + k * 4, 4) >= le_at(
                    data@,
                    at + k * 4,
                    4,
                ),
            forall|k: int| 0 <= k < d ==> #[trigger] dims@[k] == model(k),
    {
        let first: u32 = get_u32(data, at + d * 4);
        let last: u32 = get_u32(data, at + n * 4 + d * 4);
        if last < first {
            assert(le_at(data@, at + rank * 4 + d as int * 4, 4) < le_at(
                data@,
                at + d as int * 4,
                4,
            ));
            return Err(malformed("block ends before it starts"));
        }
        dims.push(
            DimSelection {
                start: first as u64,
                stride: 1,
                count: 1,
                block: (last - first) as u64 + 1,
            },
        );
    }
    proof {
        assert(dims@ =~= Seq::new(rank as nat, model));
        assert(Seq::new(rank as nat, model) =~= block_at(
            data@,
            at as int,
            rank as nat,
        )->Ok_0.0->Slab_0);
    }
    Ok((VdsSelection::Slab(dims), at + n * 8))
}

/// Read the selection at `pos`.
fn parse_selection(data: &[u8], pos: usize) -> (r: Result<(VdsSelection, usize), OxiH5Error>)
    requires
        pos <= data@.len(),
    ensures
        match (r, selection_at(data@, pos as int)) {
            (Ok((a, x)), Ok((b, y))) => a@ == b && x == y && x <= data@.len(),
            (Err(e), Err(kind)) => e@ == kind,
            _ => false,
        },
{
    assert(data.len() <= usize::MAX);
    let left: usize = data.len() - pos;
    if left < 8 {
        return Err(malformed("selection truncated"));
    }
    let kind: u32 = get_u32(data, pos);
    let version: u32 = get_u32(data, pos + 4);
    if kind == 0 || kind == 3 {
        if left < 16 {
            return Err(malformed("selection truncated"));
        }
        if kind == 0 {
            return Ok((VdsSelection::Nothing, pos + 16));
        }
        return Ok((VdsSelection::Everything, pos + 16));
    }
    if kind != 2 {
        return Err(unread("selection of points"));
    }
    if version == 1 {
        if left < 24 {
            return Err(malformed("selection truncated"));
        }
        if get_u32(data, pos + 20) != 1 {
            return Err(unread("selection of several blocks"));
        }
        parse_block(data, pos + 24, get_u32(data, pos + 16))
    } else if version == 2 {
        if left < 17 {
            return Err(malformed("selection truncated"));
        }
        if data[pos + 8] % 2 != 1 {
            return Err(unread("selection that is no regular pattern"));
        }
        parse_slab(data, pos + 17, get_u32(data, pos + 13), 8)
    } else if version == 3 {
        if left < 14 {
            return Err(malformed("selection truncated"));
        }
        if data[pos + 8] % 2 != 1 {
            return Err(unread("selection that is no regular pattern"));
        }
        parse_slab(data, pos + 14, get_u32(data, pos + 10), data[pos + 9] as usize)
    } else {
        Err(unread("selection of an unknown version"))
    }
}

/// Read the text at `pos`.
fn parse_text(data: &[u8], pos: usize) -> (r: Result<(String, usize), OxiH5Error>)
    requires
        pos <= data@.len(),
    ensures
        match (r, text_at(data@, pos as int)) {
            (Ok((a, x)), Ok((b, y))) => a@ == b && x == y && x <= data@.len(),
            (Err(e), Err(kind)) => e@ == kind,
            _ => false,
        },
{
    let end: usize = find_nul(data, pos);
    if end >= data.len() {
        return Err(malformed("name without an end"));
    }
    match as_text(slice_subrange(data, pos, end)) {
        Some(name) => Ok((name.to_string(), end + 1)),
        None => Err(malformed("name is not UTF-8")),
    }
}

/// Read the entry at `pos`.
fn parse_entry(data: &[u8], pos: usize) -> (r: Result<(VdsEntry, usize), OxiH5Error>)
    requires
        pos <= data@.len(),
    ensures
        match (r, entry_at(data@, pos as int)) {
            (Ok((a, x)), Ok((b, y))) => a@ == b && x == y && x <= data@.len(),
            (Err(e), Err(kind)) => e@ == kind,
            _ => false,
        },
{
    let (source_file, a): (String, usize) = parse_text(data, pos)?;
    let (source_dataset, b): (String, usize) = parse_text(data, a)?;
    let (source_selection, c): (VdsSelection, usize) = parse_selection(data, b)?;
    let (virtual_selection, end): (VdsSelection, usize) = parse_selection(data, c)?;
    Ok((VdsEntry { source_file, source_dataset, source_selection, virtual_selection }, end))
}

/// Read the entries that a global heap object holds.
pub fn parse_mapping_block(data: &[u8], size_of_lengths: u8) -> (r: Result<
    Vec<VdsEntry>,
    OxiH5Error,
>)
    ensures
        outcomes(r) == mapping_in(data@, size_of_lengths),
{
    let width: usize = size_of_lengths as usize;
    if width > 8 || data.len() < 1 + width {
        return Err(malformed("description truncated"));
    }
    if data[0] != 0 {
        return Err(malformed("description of an unknown version"));
    }
    let n: u64 = get_le(data, 1, width);
    let mut entries: Vec<VdsEntry> = Vec::new();
    let mut pos: usize = 1 + width;
    proof {
        assert(views(entries@) =~= Seq::empty());
    }
    for i in 0..n
        invariant
            pos <= data@.len(),
            mapping_in(data@, size_of_lengths) == entries_from(
                data@,
                pos as int,
                (n - i) as nat,
                views(entries@),
            ),
    {
        let ghost before = views(entries@);
        let (entry, next): (VdsEntry, usize) = parse_entry(data, pos)?;
        entries.push(entry);
        pos = next;
        proof {
            assert(views(entries@) =~= before.push(entry@));
        }
    }
    Ok(entries)
}

/// Read the entries of the virtual dataset whose description is that object of a global
/// heap.
pub fn parse_vds_mapping(
    file_data: &[u8],
    heap_address: u64,
    heap_index: u32,
    size_of_lengths: u8,
) -> (r: Result<Vec<VdsEntry>, OxiH5Error>)
    ensures
        outcomes(r) == mapping_at(file_data@, heap_address, heap_index, size_of_lengths),
{
    let heap: GlobalHeap = GlobalHeap::parse(file_data, heap_address)?;
    if heap_index > u16::MAX as u32 {
        return Err(malformed("object index too large"));
    }
    let data = heap.object(heap_index as u16)?;
    parse_mapping_block(data, size_of_lengths)
}

/// A dataset whose elements lie in others, as the file describes it.
#[derive(Debug)]
pub struct VirtualDataset {
    pub dims: Vec<u64>,
    pub dtype: Dtype,
    pub attributes: Vec<Attribute>,
    pub entries: Vec<VdsEntry>,
}

/// A [`VirtualDataset`] as a mathematical value.
pub struct VirtualModel {
    pub dims: Seq<u64>,
    pub dtype: DtypeModel,
    pub attributes: Seq<AttributeModel>,
    pub entries: Seq<EntryModel>,
}

impl View for VirtualDataset {
    type V = VirtualModel;

    open spec fn view(&self) -> VirtualModel {
        VirtualModel {
            dims: self.dims@,
            dtype: self.dtype@,
            attributes: views(self.attributes@),
            entries: views(self.entries@),
        }
    }
}

/// The virtual dataset whose object header is at `addr`, if the dataset there is one.
pub open spec fn virtual_at(file: Seq<u8>, addr: u64) -> Result<Option<VirtualModel>, ErrorKind> {
    match parts_at(file, addr) {
        Err(kind) => Err(kind),
        Ok(parts) => match parts.layout {
            LayoutModel::VirtualDataset { heap_address, heap_index } => match element_size(
                parts.dtype,
            ) {
                Err(kind) => Err(kind),
                Ok(_) => match superblock_of(file) {
                    Err(kind) => Err(kind),
                    Ok(sb) => match mapping_at(
                        file,
                        heap_address,
                        heap_index,
                        sb.size_of_lengths,
                    ) {
                        Err(kind) => Err(kind),
                        Ok(entries) => Ok(
                            Some(
                                VirtualModel {
                                    dims: parts.extent.dims,
                                    dtype: parts.dtype,
                                    attributes: attributes_or_none(file, addr),
                                    entries,
                                },
                            ),
                        ),
                    },
                },
            },
            _ => Ok(None),
        },
    }
}

/// The size of an element, where all have one.
fn known_size(dtype: &Dtype) -> (r: Result<usize, OxiH5Error>)
    ensures
        match (r, element_size(dtype@)) {
            (Ok(a), Ok(b)) => a == b,
            (Err(e), Err(kind)) => e@ == kind,
            _ => false,
        },
{
    match dtype.exact_size() {
        ElemSize::Fixed(n) => Ok(n),
        ElemSize::Variable => Err(unread("elements of variable length")),
        ElemSize::TooLarge => Err(malformed("size overflow")),
    }
}

/// Read the description of the virtual dataset whose object header is at `header_addr`,
/// if the dataset there is one.
pub fn parse_virtual_dataset(file_data: &[u8], header_addr: u64, name: &str) -> (r: Result<
    Option<VirtualDataset>,
    OxiH5Error,
>)
    ensures
        match (r, virtual_at(file_data@, header_addr)) {
            (Ok(None), Ok(None)) => true,
            (Ok(Some(a)), Ok(Some(b))) => a@ == b,
            (Err(e), Err(kind)) => e@ == kind,
            _ => false,
        },
{
    let parts: DatasetParts = parse_parts(file_data, header_addr, name)?;
    let (heap_address, heap_index): (u64, u32) = match &parts.layout {
        LayoutInfo::VirtualDataset { heap_address, heap_index } => (*heap_address, *heap_index),
        _ => {
            return Ok(None);
        },
    };
    let _: usize = known_size(&parts.dtype)?;
    let sb: Superblock = crate::superblock::parse(file_data)?;
    let entries: Vec<VdsEntry> = parse_vds_mapping(
        file_data,
        heap_address,
        heap_index,
        sb.size_of_lengths,
    )?;
    let attributes: Vec<Attribute> = attributes_if_any(file_data, header_addr);
    Ok(
        Some(
            VirtualDataset {
                dims: parts.space.dims,
                dtype: parts.dtype,
                attributes,
                entries,
            },
        ),
    )
}

/// `out` with the first `k` of the elements `from` of `data` copied to the places `to`.
/// Each must be within its dataset.
pub open spec fn copied(
    out: Seq<u8>,
    data: Seq<u8>,
    from: Seq<int>,
    to: Seq<int>,
    es: nat,
    k: nat,
) -> Result<Seq<u8>, ErrorKind>
    decreases k,
{
    if k == 0 {
        Ok(out)
    } else {
        match copied(out, data, from, to, es, (k - 1) as nat) {
            Err(kind) => Err(kind),
            Ok(front) => {
                let a = from[k - 1] * es;
                let b = to[k - 1] * es;
                if a + es <= data.len() && b + es <= out.len() {
                    Ok(put(front, b, data.subrange(a, a + es)))
                } else {
                    Err(ErrorKind::Format)
                }
            },
        }
    }
}

/// `out`, of a virtual dataset of those extents, with the elements of one source copied
/// into it: its elements must have the size `es`, and as many must be taken as are
/// placed.
pub open spec fn with_source(
    out: Seq<u8>,
    dims: Seq<int>,
    entry: EntryModel,
    source: DatasetModel,
    es: nat,
) -> Result<Seq<u8>, ErrorKind> {
    if size_of(source.dtype) != Some(es) {
        Err(ErrorKind::Format)
    } else {
        match offsets_of(entry.source_selection, source.shape) {
            Err(kind) => Err(kind),
            Ok(from) => match offsets_of(entry.virtual_selection, dims) {
                Err(kind) => Err(kind),
                Ok(to) => if from.len() != to.len() {
                    Err(ErrorKind::Format)
                } else {
                    copied(out, source.data, from, to, es, from.len())
                },
            },
        }
    }
}

/// `out` with the elements of the first `k` sources copied into it.
pub open spec fn with_sources(
    out: Seq<u8>,
    dims: Seq<int>,
    entries: Seq<EntryModel>,
    sources: Seq<DatasetModel>,
    es: nat,
    k: nat,
) -> Result<Seq<u8>, ErrorKind>
    decreases k,
{
    if k == 0 {
        Ok(out)
    } else {
        match with_sources(out, dims, entries, sources, es, (k - 1) as nat) {
            Err(kind) => Err(kind),
            Ok(front) => with_source(front, dims, entries[k - 1], sources[k - 1], es),
        }
    }
}

/// The elements of a virtual dataset: those of its sources, one for each entry, later
/// ones over earlier ones, and zeros where there is none.
pub open spec fn virtual_data(
    dims: Seq<int>,
    dtype: DtypeModel,
    entries: Seq<EntryModel>,
    sources: Seq<DatasetModel>,
) -> Result<Seq<u8>, ErrorKind> {
    match element_size(dtype) {
        Err(kind) => Err(kind),
        Ok(es) => if product(dims) > usize::MAX || product(dims) * es > usize::MAX
            || entries.len() != sources.len() {
            Err(ErrorKind::Format)
        } else {
            with_sources(
                zeros((product(dims) * es) as nat),
                dims,
                entries,
                sources,
                es as nat,
                entries.len(),
            )
        },
    }
}

pub proof fn lemma_copied(
    out: Seq<u8>,
    data: Seq<u8>,
    from: Seq<int>,
    to: Seq<int>,
    es: nat,
    k: nat,
    n: nat,
)
    requires
        k <= n,
    ensures
        copied(out, data, from, to, es, k) is Ok ==> copied(out, data, from, to, es, k)->Ok_0.len()
            == out.len(),
        copied(out, data, from, to, es, k) is Err ==> copied(out, data, from, to, es, n) == copied(
            out,
            data,
            from,
            to,
            es,
            k,
        ),
    decreases n,
{
    if k < n {
        lemma_copied(out, data, from, to, es, k, (n - 1) as nat);
    } else if k > 0 {
        lemma_copied(out, data, from, to, es, (k - 1) as nat, (k - 1) as nat);
    }
}

proof fn lemma_with_sources(
    out: Seq<u8>,
    dims: Seq<int>,
    entries: Seq<EntryModel>,
    sources: Seq<DatasetModel>,
    es: nat,
    k: nat,
    n: nat,
)
    requires
        k <= n,
    ensures
        with_sources(out, dims, entries, sources, es, k) is Err ==> with_sources(
            out,
            dims,
            entries,
            sources,
            es,
            n,
        ) == with_sources(out, dims, entries, sources, es, k),
    decreases n,
{
    if k < n {
        lemma_with_sources(out, dims, entries, sources, es, k, (n - 1) as nat);
    }
}

fn refused(what: &str, name: &str) -> (r: OxiH5Error)
    ensures
        r@ == ErrorKind::Format,
{
    OxiH5Error::Format(text(&["virtual dataset: ", what, " for '", name, "'"]))
}

/// Where element `i` starts, if all of it lies within `len` bytes.
fn element_start(i: usize, es: usize, len: usize) -> (r: Option<usize>)
    ensures
        match r {
            Some(at) => at == i * es && at + es <= len,
            None => i * es + es > len,
        },
{
    proof {
        assert(0 <= i * es) by (nonlinear_arith)
            requires
                i >= 0,
                es >= 0,
        ;
    }
    match i.checked_mul(es) {
        None => None,
        Some(at) => if at <= len && es <= len - at {
            Some(at)
        } else {
            None
        },
    }
}

/// The extents of a dataset, as wide as a file has them.
fn wide_extents(shape: &[usize]) -> (r: Vec<u64>)
    ensures
        ints64(r@) == ints(shape@),
{
    let mut dims: Vec<u64> = Vec::new();
    for d in 0..shape.len()
        invariant
            dims@.len() == d,
            forall|k: int| 0 <= k < d ==> #[trigger] dims@[k] == shape@[k],
    {
        dims.push(shape[d] as u64);
    }
    proof {
        assert(ints64(dims@) =~= ints(shape@));
    }
    dims
}

/// Copy the elements of a source to their places.
fn copy_source(out: &mut Vec<u8>, dims: &[u64], entry: &VdsEntry, source: &Dataset, es: usize) -> (r:
    Result<(), OxiH5Error>)
    ensures
        match with_source(old(out)@, ints64(dims@), entry@, source@, es as nat) {
            Ok(new) => r is Ok && final(out)@ == new,
            Err(kind) => r is Err && r->Err_0@ == kind,
        },
{
    let ghost before = out@;
    let name = entry.source_dataset.as_str();
    let same: bool = match source.dtype.exact_size() {
        ElemSize::Fixed(n) => n == es,
        ElemSize::Variable => false,
        ElemSize::TooLarge => false,
    };
    if !same {
        return Err(refused("element size mismatch", name));
    }
    let extents: Vec<u64> = wide_extents(&source.shape);
    let from: Vec<usize> = selection_element_offsets(&entry.source_selection, &extents)?;
    let to: Vec<usize> = selection_element_offsets(&entry.virtual_selection, dims)?;
    let ghost a = ints(from@);
    let ghost b = ints(to@);
    let n: usize = from.len();
    if n != to.len() {
        return Err(refused("source/virtual selection element count mismatch", name));
    }
    for i in 0..n
        invariant
            before == old(out)@,
            n == from@.len() == to@.len(),
            a == ints(from@),
            b == ints(to@),
            with_source(before, ints64(dims@), entry@, source@, es as nat) == copied(
                before,
                source.data@,
                a,
                b,
                es as nat,
                n as nat,
            ),
            out@.len() == before.len(),
            copied(before, source.data@, a, b, es as nat, i as nat) == Ok::<Seq<u8>, ErrorKind>(
                out@,
            ),
    {
        proof {
            lemma_copied(before, source.data@, a, b, es as nat, (i + 1) as nat, n as nat);
            assert(a[i as int] == from@[i as int] && b[i as int] == to@[i as int]);
        }
        let start: usize = match element_start(from[i], es, source.data.len()) {
            Some(at) => at,
            None => {
                return Err(refused("source read out of bounds", name));
            },
        };
        let place: usize = match element_start(to[i], es, out.len()) {
            Some(at) => at,
            None => {
                return Err(refused("virtual write out of bounds", name));
            },
        };
        put_bytes(out, place, slice_subrange(&source.data, start, start + es));
    }
    Ok(())
}

/// Put the elements of a virtual dataset together out of its sources, one for each entry.
pub fn read_virtual_dataset(
    dims: &[u64],
    dtype: &Dtype,
    entries: &[VdsEntry],
    sources: &[Dataset],
) -> (r: Result<Vec<u8>, OxiH5Error>)
    ensures
        outcome(r) == virtual_data(ints64(dims@), dtype@, views(entries@), views(sources@)),
{
    let elem_size: usize = known_size(dtype)?;
    let ghost extents = ints64(dims@);
    proof {
        lemma_product_non_negative(extents);
    }
    let total: usize = match exact_total64(dims) {
        None => {
            return Err(malformed("size overflow"));
        },
        Some(n) => match n.checked_mul(elem_size) {
            None => {
                return Err(malformed("size overflow"));
            },
            Some(total) => total,
        },
    };
    let n: usize = entries.len();
    if sources.len() != n {
        return Err(malformed("another number of sources than entries"));
    }
    let ghost all = views(entries@);
    let ghost held = views(sources@);
    let mut out: Vec<u8> = Vec::new();
    push_zeros(&mut out, total);
    let ghost start = out@;
    proof {
        assert(out@ =~= zeros(total as nat));
    }
    for i in 0..n
        invariant
            n == entries@.len() == sources@.len(),
            all == views(entries@),
            held == views(sources@),
            extents == ints64(dims@),
            virtual_data(extents, dtype@, all, held) == with_sources(
                start,
                extents,
                all,
                held,
                elem_size as nat,
                n as nat,
            ),
            with_sources(start, extents, all, held, elem_size as nat, i as nat) == Ok::<
                Seq<u8>,
                ErrorKind,
            >(out@),
    {
        proof {
            assert(all[i as int] == entries@[i as int]@);
            assert(held[i as int] == sources@[i as int]@);
            lemma_with_sources(
                start,
                extents,
                all,
                held,
                elem_size as nat,
                (i + 1) as nat,
                n as nat,
            );
        }
        match copy_source(&mut out, dims, &entries[i], &sources[i], elem_size) {
            Err(e) => {
                return Err(e);
            },
            Ok(()) => {},
        }
    }
    Ok(out)
}

/// Whether the name of a source's file stands for the file that names it.
pub open spec fn names_itself(file_name: Seq<char>) -> bool {
    file_name.len() == 0 || file_name == "."@
}

/// Whether `r` is what reading a source gives, with `after` as the cache then. A source
/// in another file is not followed, nor one that is virtual itself.
#[verifier::opaque]
pub open spec fn source_read<
    P: Fn(&[u8], &FilterPipeline, u32, usize) -> Result<Vec<u8>, OxiH5Error>,
>(
    file: Seq<u8>,
    entry: EntryModel,
    apply_pipeline: P,
    before: Map<(u64, usize), Seq<RecordModel>>,
    after: Map<(u64, usize), Seq<RecordModel>>,
    r: Result<Dataset, OxiH5Error>,
) -> bool {
    if !names_itself(entry.source_file) {
        r is Err && r->Err_0@ == ErrorKind::NotImplemented && after == before
    } else {
        match dataset_target(file, entry.source_dataset) {
            Err(kind) => r is Err && r->Err_0@ == kind && after == before,
            Ok(TargetModel::Local(addr)) => stored_read(
                file,
                addr,
                apply_pipeline,
                before,
                after,
                r,
            ),
            Ok(TargetModel::External { .. }) => r is Err && r->Err_0@ == ErrorKind::NotImplemented
                && after == before,
        }
    }
}

/// The cache and the elements after each of the sources of a virtual dataset.
pub struct Progress {
    pub caches: Seq<Map<(u64, usize), Seq<RecordModel>>>,
    pub elements: Seq<Result<Seq<u8>, OxiH5Error>>,
}

/// Whether source `i` leads from one point to the next: an error stays, and the elements of
/// the source are added.
pub open spec fn piece_read<
    P: Fn(&[u8], &FilterPipeline, u32, usize) -> Result<Vec<u8>, OxiH5Error>,
>(
    file: Seq<u8>,
    v: VirtualModel,
    es: nat,
    apply_pipeline: P,
    progress: Progress,
    i: int,
) -> bool {
    match progress.elements[i] {
        Err(_) => {
            &&& progress.elements[i + 1] == progress.elements[i]
            &&& progress.caches[i + 1] == progress.caches[i]
        },
        Ok(out) => piece_added(
            file,
            v,
            es,
            i,
            out,
            apply_pipeline,
            progress.caches[i],
            progress.caches[i + 1],
            progress.elements[i + 1],
        ),
    }
}

/// Whether the first `k` sources of a virtual dataset, with elements of `es` bytes, are read
/// and copied to their places one after the other, from zeros on.
pub open spec fn pieces_read<
    P: Fn(&[u8], &FilterPipeline, u32, usize) -> Result<Vec<u8>, OxiH5Error>,
>(
    file: Seq<u8>,
    v: VirtualModel,
    es: nat,
    apply_pipeline: P,
    progress: Progress,
    k: nat,
) -> bool {
    &&& progress.caches.len() == k + 1
    &&& progress.elements.len() == k + 1
    &&& progress.elements[0] == Ok::<Seq<u8>, OxiH5Error>(
        zeros((product(ints64(v.dims)) * es) as nat),
    )
    &&& forall|i: int|
        0 <= i < k ==> #[trigger] piece_read(file, v, es, apply_pipeline, progress, i)
}

/// Whether `r` is what reading source `i` and copying it into `out` gives.
#[verifier::opaque]
pub open spec fn piece_added<
    P: Fn(&[u8], &FilterPipeline, u32, usize) -> Result<Vec<u8>, OxiH5Error>,
>(
    file: Seq<u8>,
    v: VirtualModel,
    es: nat,
    i: int,
    out: Seq<u8>,
    apply_pipeline: P,
    before: Map<(u64, usize), Seq<RecordModel>>,
    after: Map<(u64, usize), Seq<RecordModel>>,
    r: Result<Seq<u8>, OxiH5Error>,
) -> bool {
    exists|source: Result<Dataset, OxiH5Error>|
        {
            &&& #[trigger] source_read(
                file,
                v.entries[i],
                apply_pipeline,
                before,
                after,
                source,
            )
            &&& match source {
                Err(e) => r == Err::<Seq<u8>, OxiH5Error>(e),
                Ok(ds) => match with_source(out, ints64(v.dims), v.entries[i], ds@, es) {
                    Ok(new) => r == Ok::<Seq<u8>, OxiH5Error>(new),
                    Err(kind) => r is Err && r->Err_0@ == kind,
                },
            }
        }
}

/// Whether `r` is what reading the sources of a virtual dataset and copying each to its
/// place gives, with `after` as the cache then.
pub open spec fn elements_read<
    P: Fn(&[u8], &FilterPipeline, u32, usize) -> Result<Vec<u8>, OxiH5Error>,
>(
    file: Seq<u8>,
    v: VirtualModel,
    es: nat,
    apply_pipeline: P,
    before: Map<(u64, usize), Seq<RecordModel>>,
    after: Map<(u64, usize), Seq<RecordModel>>,
    r: Result<Seq<u8>, OxiH5Error>,
) -> bool {
    exists|progress: Progress|
        {
            &&& #[trigger] pieces_read(
                file,
                v,
                es,
                apply_pipeline,
                progress,
                v.entries.len(),
            )
            &&& progress.caches[0] == before
            &&& progress.caches.last() == after
            &&& progress.elements.last() == r
        }
}

/// Whether `r` is what reading a virtual dataset gives, with `after` as the cache then:
/// the elements of its sources, later ones over earlier ones, and zeros where there is
/// none.
pub open spec fn virtual_read<
    P: Fn(&[u8], &FilterPipeline, u32, usize) -> Result<Vec<u8>, OxiH5Error>,
>(
    file: Seq<u8>,
    v: VirtualModel,
    apply_pipeline: P,
    before: Map<(u64, usize), Seq<RecordModel>>,
    after: Map<(u64, usize), Seq<RecordModel>>,
    r: Result<Dataset, OxiH5Error>,
) -> bool {
    match element_size(v.dtype) {
        Err(kind) => r is Err && r->Err_0@ == kind && after == before,
        Ok(es) => if product(ints64(v.dims)) > usize::MAX || product(ints64(v.dims)) * es
            > usize::MAX {
            r is Err && r->Err_0@ == ErrorKind::Format && after == before
        } else {
            exists|elements: Result<Seq<u8>, OxiH5Error>|
                {
                    &&& #[trigger] elements_read(
                        file,
                        v,
                        es as nat,
                        apply_pipeline,
                        before,
                        after,
                        elements,
                    )
                    &&& match elements {
                        Err(e) => r == Err::<Dataset, OxiH5Error>(e),
                        Ok(data) => r is Ok && r->Ok_0@ == filled_with(v, data),
                    }
                }
        },
    }
}

/// A virtual dataset with these elements.
pub open spec fn filled_with(v: VirtualModel, data: Seq<u8>) -> DatasetModel {
    DatasetModel {
        data,
        shape: shape_of(v.dims),
        dtype: v.dtype,
        attributes: v.attributes,
    }
}

/// Read a source of a virtual dataset of the same file.
fn read_source<P: Fn(&[u8], &FilterPipeline, u32, usize) -> Result<Vec<u8>, OxiH5Error>>(
    file_data: &[u8],
    entry: &VdsEntry,
    cache: &mut ChunkIndexCache,
    apply_pipeline: &P,
) -> (r: Result<Dataset, OxiH5Error>)
    requires
        forall|raw: &[u8], pipeline: &FilterPipeline, mask: u32, es: usize|
            apply_pipeline.requires((raw, pipeline, mask, es)),
    ensures
        source_read(file_data@, entry@, *apply_pipeline, old(cache)@, final(cache)@, r),
{
    proof {
        reveal(source_read);
    }
    let name = entry.source_dataset.as_str();
    if entry.source_file.as_str().unicode_len() != 0 && !same_text(
        entry.source_file.as_str(),
        ".",
    ) {
        return Err(unread("source in another file"));
    }
    let file: File = File::open_from_bytes(file_data)?;
    match file.locate_dataset(name)? {
        SoftTarget::Local(address) => read_stored(
            file_data,
            address,
            name,
            cache,
            apply_pipeline,
        ),
        SoftTarget::External { .. } => Err(unread("source in another file")),
    }
}

/// One more source.
proof fn lemma_pieces_step<
    P: Fn(&[u8], &FilterPipeline, u32, usize) -> Result<Vec<u8>, OxiH5Error>,
>(
    file: Seq<u8>,
    v: VirtualModel,
    es: nat,
    apply_pipeline: P,
    progress: Progress,
    k: nat,
    cache: Map<(u64, usize), Seq<RecordModel>>,
    elements: Result<Seq<u8>, OxiH5Error>,
) -> (more: Progress)
    requires
        pieces_read(file, v, es, apply_pipeline, progress, k),
        match progress.elements[k as int] {
            Err(_) => elements == progress.elements[k as int] && cache == progress.caches[k as int],
            Ok(out) => piece_added(
                file,
                v,
                es,
                k as int,
                out,
                apply_pipeline,
                progress.caches[k as int],
                cache,
                elements,
            ),
        },
    ensures
        pieces_read(file, v, es, apply_pipeline, more, k + 1),
        more.caches[0] == progress.caches[0],
        more.caches[(k + 1) as int] == cache,
        more.elements[(k + 1) as int] == elements,
{
    let more = Progress {
        caches: progress.caches.push(cache),
        elements: progress.elements.push(elements),
    };
    assert forall|i: int| 0 <= i < k + 1 implies #[trigger] piece_read(
        file,
        v,
        es,
        apply_pipeline,
        more,
        i,
    ) by {
        if i < k {
            assert(piece_read(file, v, es, apply_pipeline, progress, i));
        }
    }
    more
}

/// The first error stays.
proof fn lemma_pieces_fail<
    P: Fn(&[u8], &FilterPipeline, u32, usize) -> Result<Vec<u8>, OxiH5Error>,
>(
    file: Seq<u8>,
    v: VirtualModel,
    es: nat,
    apply_pipeline: P,
    progress: Progress,
    k: nat,
    n: nat,
) -> (more: Progress)
    requires
        k <= n,
        pieces_read(file, v, es, apply_pipeline, progress, k),
        progress.elements[k as int] is Err,
    ensures
        pieces_read(file, v, es, apply_pipeline, more, n),
        more.caches[0] == progress.caches[0],
        more.caches[n as int] == progress.caches[k as int],
        more.elements[n as int] == progress.elements[k as int],
    decreases n,
{
    if k == n {
        progress
    } else {
        let front = lemma_pieces_fail(file, v, es, apply_pipeline, progress, k, (n - 1) as nat);
        lemma_pieces_step(
            file,
            v,
            es,
            apply_pipeline,
            front,
            (n - 1) as nat,
            front.caches[n - 1],
            front.elements[n - 1],
        )
    }
}

/// Read the sources of a virtual dataset, and copy each to its place.
fn read_pieces<P: Fn(&[u8], &FilterPipeline, u32, usize) -> Result<Vec<u8>, OxiH5Error>>(
    file_data: &[u8],
    described: &VirtualDataset,
    elem_size: usize,
    total: usize,
    cache: &mut ChunkIndexCache,
    apply_pipeline: &P,
) -> (r: Result<Vec<u8>, OxiH5Error>)
    requires
        forall|raw: &[u8], pipeline: &FilterPipeline, mask: u32, es: usize|
            apply_pipeline.requires((raw, pipeline, mask, es)),
        total == product(ints64(described.dims@)) * elem_size,
    ensures
        elements_read(
            file_data@,
            described@,
            elem_size as nat,
            *apply_pipeline,
            old(cache)@,
            final(cache)@,
            content(r),
        ),
{
    let ghost v = described@;
    let ghost es = elem_size as nat;
    let mut out: Vec<u8> = Vec::new();
    push_zeros(&mut out, total);
    proof {
        assert(out@ =~= zeros(total as nat));
    }
    let ghost mut progress = Progress { caches: seq![cache@], elements: seq![Ok(out@)] };
    let n: usize = described.entries.len();
    for i in 0..n
        invariant
            forall|raw: &[u8], pipeline: &FilterPipeline, mask: u32, es: usize|
                apply_pipeline.requires((raw, pipeline, mask, es)),
            v == described@,
            es == elem_size,
            n == described.entries@.len(),
            pieces_read(file_data@, v, es, *apply_pipeline, progress, i as nat),
            progress.caches[0] == old(cache)@,
            progress.caches[i as int] == cache@,
            progress.elements[i as int] == Ok::<Seq<u8>, OxiH5Error>(out@),
    {
        let ghost between = cache@;
        let ghost front = out@;
        assert(v.entries[i as int] == described.entries@[i as int]@);
        let read: Result<Dataset, OxiH5Error> = read_source(
            file_data,
            &described.entries[i],
            cache,
            apply_pipeline,
        );
        let copied: Result<(), OxiH5Error> = match &read {
            Err(_) => Ok(()),
            Ok(source) => copy_source(
                &mut out,
                &described.dims,
                &described.entries[i],
                source,
                elem_size,
            ),
        };
        let ghost now: Result<Seq<u8>, OxiH5Error> = if read is Err {
            Err(read->Err_0)
        } else if copied is Err {
            Err(copied->Err_0)
        } else {
            Ok(out@)
        };
        proof {
            assert(piece_added(
                file_data@,
                v,
                es,
                i as int,
                front,
                *apply_pipeline,
                between,
                cache@,
                now,
            )) by {
                reveal(piece_added);
                assert(source_read(
                    file_data@,
                    v.entries[i as int],
                    *apply_pipeline,
                    between,
                    cache@,
                    read,
                ));
            }
            progress = lemma_pieces_step(
                file_data@,
                v,
                es,
                *apply_pipeline,
                progress,
                i as nat,
                cache@,
                now,
            );
            if now is Err {
                let all = lemma_pieces_fail(
                    file_data@,
                    v,
                    es,
                    *apply_pipeline,
                    progress,
                    (i + 1) as nat,
                    n as nat,
                );
                assert(v.entries.len() == n);
                assert(pieces_read(file_data@, v, es, *apply_pipeline, all, v.entries.len()));
            }
        }
        if let Err(e) = read {
            return Err(e);
        }
        if let Err(e) = copied {
            return Err(e);
        }
    }
    assert(pieces_read(file_data@, v, es, *apply_pipeline, progress, v.entries.len()));
    Ok(out)
}

/// Read a virtual dataset whose sources are in the same file.
pub(crate) fn read_virtual<
    P: Fn(&[u8], &FilterPipeline, u32, usize) -> Result<Vec<u8>, OxiH5Error>,
>(
    file_data: &[u8],
    described: VirtualDataset,
    cache: &mut ChunkIndexCache,
    apply_pipeline: &P,
) -> (r: Result<Dataset, OxiH5Error>)
    requires
        forall|raw: &[u8], pipeline: &FilterPipeline, mask: u32, es: usize|
            apply_pipeline.requires((raw, pipeline, mask, es)),
    ensures
        virtual_read(
            file_data@,
            described@,
            *apply_pipeline,
            old(cache)@,
            final(cache)@,
            r,
        ),
{
    let elem_size: usize = known_size(&described.dtype)?;
    proof {
        lemma_product_non_negative(ints64(described.dims@));
    }
    let total: usize = match exact_total64(&described.dims) {
        None => {
            return Err(malformed("size overflow"));
        },
        Some(n) => match n.checked_mul(elem_size) {
            None => {
                return Err(malformed("size overflow"));
            },
            Some(total) => total,
        },
    };
    let ghost before = cache@;
    let elements: Result<Vec<u8>, OxiH5Error> = read_pieces(
        file_data,
        &described,
        elem_size,
        total,
        cache,
        apply_pipeline,
    );
    proof {
        assert(elements_read(
            file_data@,
            described@,
            elem_size as nat,
            *apply_pipeline,
            before,
            cache@,
            content(elements),
        ));
    }
    match elements {
        Err(e) => Err(e),
        Ok(data) => {
            let shape: Vec<usize> = shape_from(&described.dims);
            Ok(
                Dataset {
                    data,
                    shape,
                    dtype: described.dtype,
                    attributes: described.attributes,
                },
            )
        },
    }
}

/// What a virtual dataset reads as, given its sources.
pub open spec fn put_together(m: VirtualModel, sources: Seq<DatasetModel>) -> Result<
    DatasetModel,
    ErrorKind,
> {
    match virtual_data(ints64(m.dims), m.dtype, m.entries, sources) {
        Err(kind) => Err(kind),
        Ok(data) => Ok(filled_with(m, data)),
    }
}

impl VirtualDataset {
    /// The dataset that the sources give, one for each entry.
    pub fn assemble(self, sources: &[Dataset]) -> (r: Result<Dataset, OxiH5Error>)
        ensures
            outcome(r) == put_together(self@, views(sources@)),
    {
        let data: Vec<u8> = read_virtual_dataset(&self.dims, &self.dtype, &self.entries, sources)?;
        let shape: Vec<usize> = shape_from(&self.dims);
        Ok(Dataset { data, shape, dtype: self.dtype, attributes: self.attributes })
    }
}

/// The first `k` elements copied to their own places.
proof fn lemma_copied_in_place(out: Seq<u8>, data: Seq<u8>, n: nat, es: nat, k: nat)
    requires
        k <= n,
        es > 0,
        data.len() == n * es,
        out.len() == data.len(),
    ensures
        ({
            let places = Seq::new(n, |i: int| i);
            copied(out, data, places, places, es, k) == Ok::<Seq<u8>, ErrorKind>(
                data.take((k * es) as int) + out.skip((k * es) as int),
            )
        }),
    decreases k,
{
    let places = Seq::new(n, |i: int| i);
    assert(k * es <= n * es) by (nonlinear_arith)
        requires
            k <= n,
            es > 0,
    ;
    if k == 0 {
        assert(0 * es == 0);
        assert(data.take(0) + out.skip(0) =~= out);
    } else {
        lemma_copied_in_place(out, data, n, es, (k - 1) as nat);
        let a = (k - 1) * es;
        assert(a + es == k * es && 0 <= a) by (nonlinear_arith)
            requires
                a == (k - 1) * es,
                k >= 1,
                es > 0,
        ;
        assert(places[k - 1] * es == a);
        let front = data.take(a) + out.skip(a);
        assert(put(front, a, data.subrange(a, a + es)) =~= data.take(a + es) + out.skip(a + es));
    }
}

/// A virtual dataset that is all of one source holds what the source holds.
pub proof fn law_virtual_copy_is_source(
    dims: Seq<int>,
    dtype: DtypeModel,
    entry: EntryModel,
    source: DatasetModel,
    es: usize,
)
    requires
        es > 0,
        element_size(dtype) == Ok::<usize, ErrorKind>(es),
        entry.source_selection is Everything,
        entry.virtual_selection is Everything,
        size_of(source.dtype) == Some(es as nat),
        0 <= product(dims) <= usize::MAX,
        product(source.shape) == product(dims),
        source.data.len() == product(dims) * es,
        source.data.len() <= usize::MAX,
    ensures
        virtual_data(dims, dtype, seq![entry], seq![source]) == Ok::<Seq<u8>, ErrorKind>(
            source.data,
        ),
{
    let n = product(dims) as nat;
    let out = zeros((n * es) as nat);
    let entries = seq![entry];
    let sources = seq![source];
    assert(entries[0] == entry && sources[0] == source);
    lemma_copied_in_place(out, source.data, n, es as nat, n);
    assert(source.data.take((n * es) as int) + out.skip((n * es) as int) =~= source.data);
    reveal_with_fuel(with_sources, 2);
}

} // verus!
