//! Reading datasets from their object headers.

use vstd::prelude::*;
use crate::bytes::copy_range;
use crate::chunk_reader::{
    can_read, can_read_slice, filtering_through, is_readable, is_slice_readable, ranges_fit,
    read_chunked, read_chunked_slice_filled, slice_read, whole_read, ChunkIndexCache,
    ChunkSliceParams,
};
use crate::chunk_record::RecordModel;
use crate::chunked_hyperslab::{bounds_of, read_chunked_hyperslab, selection_read};
use crate::dataset::{
    can_cut, cut, range_lengths, range_within, ranges_within, Dataset, DatasetModel,
};
use crate::datatype::datatype_in;
use crate::dims::{exact_total, ints, ints64};
use crate::dtype::{size_of, views, Dtype, DtypeModel, ElemSize};
use crate::error::{outcome, outcomes, text, ErrorKind, OxiH5Error};
use crate::header::{messages_at, parse_messages, Message, MessageModel};
use crate::hyperslab::{
    can_gather, gather_hyperslab_contiguous, gathered, saturated, selected_len,
    DimSelection, Hyperslab,
};
use crate::message::{
    attribute_in, dataspace_in, fill_value_in, layout_in, parse_attribute, parse_dataspace,
    parse_datatype, parse_fill_value, parse_filter_pipeline, parse_layout, pipeline_in,
    DataspaceInfo, DatatypeInfo, ExtentModel,
};
use crate::object::{
    Attribute, AttributeModel, FilterInfo, FilterModel, FilterPipeline, LayoutInfo, LayoutModel,
};
use crate::vds::{parse_virtual_dataset, read_virtual, virtual_at, virtual_read};

verus! {

/// The type of a dataspace message.
pub const MSG_DATASPACE: u16 = 0x0001;

/// The type of a datatype message.
pub const MSG_DATATYPE: u16 = 0x0003;

/// The type of a fill value message.
pub const MSG_FILL_VALUE: u16 = 0x0005;

/// The type of a layout message.
pub const MSG_LAYOUT: u16 = 0x0008;

/// The type of a filter pipeline message.
pub const MSG_PIPELINE: u16 = 0x000B;

/// The type of an attribute message.
pub const MSG_ATTRIBUTE: u16 = 0x000C;

/// What the messages of an object header said of a dataset so far.
pub struct Said {
    pub extent: Option<ExtentModel>,
    pub dtype: Option<DtypeModel>,
    pub layout: Option<LayoutModel>,
    pub filters: Option<Seq<FilterModel>>,
    /// The fill value; empty where none is given.
    pub fill: Seq<u8>,
}

/// What one message adds to what was said.
pub open spec fn said_more(said: Said, message: MessageModel) -> Result<Said, ErrorKind> {
    if message.msg_type == MSG_DATASPACE {
        match dataspace_in(message.data) {
            Err(kind) => Err(kind),
            Ok(extent) => Ok(Said { extent: Some(extent), ..said }),
        }
    } else if message.msg_type == MSG_DATATYPE {
        match datatype_in(message.data) {
            Err(kind) => Err(kind),
            Ok(dtype) => Ok(Said { dtype: Some(dtype), ..said }),
        }
    } else if message.msg_type == MSG_LAYOUT {
        match layout_in(message.data) {
            Err(kind) => Err(kind),
            Ok(layout) => Ok(Said { layout: Some(layout), ..said }),
        }
    } else if message.msg_type == MSG_PIPELINE {
        match pipeline_in(message.data) {
            Err(kind) => Err(kind),
            Ok(filters) => Ok(Said { filters: Some(filters), ..said }),
        }
    } else if message.msg_type == MSG_FILL_VALUE {
        match fill_value_in(message.data) {
            Err(_) => Ok(said),
            Ok(fill) => Ok(Said { fill, ..said }),
        }
    } else {
        Ok(said)
    }
}

/// What the first `k` messages say.
pub open spec fn said_in(messages: Seq<MessageModel>, k: nat) -> Result<Said, ErrorKind>
    decreases k,
{
    if k == 0 {
        Ok(Said { extent: None, dtype: None, layout: None, filters: None, fill: Seq::empty() })
    } else {
        match said_in(messages, (k - 1) as nat) {
            Err(kind) => Err(kind),
            Ok(said) => said_more(said, messages[k - 1]),
        }
    }
}

/// A dataset as its messages describe it.
pub struct PartsModel {
    pub extent: ExtentModel,
    pub dtype: DtypeModel,
    pub layout: LayoutModel,
    pub filters: Seq<FilterModel>,
    pub fill: Seq<u8>,
}

/// The dataset that the messages describe: they must give its extent, its type and
/// its layout.
pub open spec fn parts_in(messages: Seq<MessageModel>) -> Result<PartsModel, ErrorKind> {
    match said_in(messages, messages.len()) {
        Err(kind) => Err(kind),
        Ok(said) => match (said.extent, said.dtype, said.layout) {
            (Some(extent), Some(dtype), Some(layout)) => Ok(
                PartsModel {
                    extent,
                    dtype,
                    layout,
                    filters: match said.filters {
                        Some(filters) => filters,
                        None => Seq::empty(),
                    },
                    fill: said.fill,
                },
            ),
            _ => Err(ErrorKind::Format),
        },
    }
}

/// The dataset that the object header at `addr` describes.
pub open spec fn parts_at(file: Seq<u8>, addr: u64) -> Result<PartsModel, ErrorKind> {
    match messages_at(file, addr as int) {
        Err(kind) => Err(kind),
        Ok(messages) => parts_in(messages),
    }
}

/// A dataset as its messages describe it.
#[derive(Debug)]
pub struct DatasetParts {
    pub space: DataspaceInfo,
    pub dtype: Dtype,
    pub layout: LayoutInfo,
    pub pipeline: FilterPipeline,
    /// The fill value; empty where none is given.
    pub fill_value: Vec<u8>,
}

impl View for DatasetParts {
    type V = PartsModel;

    open spec fn view(&self) -> PartsModel {
        PartsModel {
            extent: self.space@,
            dtype: self.dtype@,
            layout: self.layout@,
            filters: views(self.pipeline.filters@),
            fill: self.fill_value@,
        }
    }
}

proof fn lemma_said_fails(messages: Seq<MessageModel>, i: nat, k: nat)
    requires
        i <= k,
        said_in(messages, i) is Err,
    ensures
        said_in(messages, k) == said_in(messages, i),
    decreases k,
{
    if i < k {
        lemma_said_fails(messages, i, (k - 1) as nat);
    }
}

fn missing(what: &str, name: &str) -> (r: OxiH5Error)
    ensures
        r@ == ErrorKind::Format,
{
    OxiH5Error::Format(text(&["no ", what, " message in dataset '", name, "'"]))
}

/// Read what the object header at `header_addr` says of a dataset.
pub fn parse_parts(file_data: &[u8], header_addr: u64, name: &str) -> (r: Result<
    DatasetParts,
    OxiH5Error,
>)
    ensures
        outcome(r) == parts_at(file_data@, header_addr),
{
    let messages: Vec<Message> = parse_messages(file_data, header_addr)?;
    let ghost all = views(messages@);
    let mut space: Option<DataspaceInfo> = None;
    let mut dtype: Option<Dtype> = None;
    let mut layout: Option<LayoutInfo> = None;
    let mut pipeline: Option<FilterPipeline> = None;
    let mut fill_value: Vec<u8> = Vec::new();
    proof {
        assert(fill_value@ =~= Seq::empty());
    }
    let n: usize = messages.len();
    for i in 0..n
        invariant
            n == messages@.len(),
            all == views(messages@),
            messages_at(file_data@, header_addr as int) == Ok::<Seq<MessageModel>, ErrorKind>(all),
            said_in(all, i as nat) == Ok::<Said, ErrorKind>(
                Said {
                    extent: match space {
                        Some(space) => Some(space@),
                        None => None,
                    },
                    dtype: match dtype {
                        Some(dtype) => Some(dtype@),
                        None => None,
                    },
                    layout: match layout {
                        Some(layout) => Some(layout@),
                        None => None,
                    },
                    filters: match pipeline {
                        Some(pipeline) => Some(views(pipeline.filters@)),
                        None => None,
                    },
                    fill: fill_value@,
                },
            ),
    {
        let message = &messages[i];
        proof {
            assert(all[i as int] == message@);
            if said_in(all, (i + 1) as nat) is Err {
                lemma_said_fails(all, (i + 1) as nat, n as nat);
            }
        }
        if message.msg_type == MSG_DATASPACE {
            space = Some(parse_dataspace(&message.data)?);
        } else if message.msg_type == MSG_DATATYPE {
            let info: DatatypeInfo = parse_datatype(&message.data)?;
            dtype = Some(info.dtype);
        } else if message.msg_type == MSG_LAYOUT {
            layout = Some(parse_layout(&message.data)?);
        } else if message.msg_type == MSG_PIPELINE {
            pipeline = Some(parse_filter_pipeline(&message.data)?);
        } else if message.msg_type == MSG_FILL_VALUE {
            if let Ok(given) = parse_fill_value(&message.data) {
                fill_value = given;
            }
        }
    }
    let space: DataspaceInfo = match space {
        Some(space) => space,
        None => {
            return Err(missing("dataspace", name));
        },
    };
    let dtype: Dtype = match dtype {
        Some(dtype) => dtype,
        None => {
            return Err(missing("datatype", name));
        },
    };
    let layout: LayoutInfo = match layout {
        Some(layout) => layout,
        None => {
            return Err(missing("layout", name));
        },
    };
    let pipeline: FilterPipeline = match pipeline {
        Some(pipeline) => pipeline,
        None => {
            let filters: Vec<FilterInfo> = Vec::new();
            proof {
                assert(views(filters@) =~= Seq::empty());
            }
            FilterPipeline { filters }
        },
    };
    Ok(DatasetParts { space, dtype, layout, pipeline, fill_value })
}

/// The attributes in the first `k` messages, those left out that cannot be read.
pub open spec fn attributes_in(messages: Seq<MessageModel>, k: nat) -> Seq<AttributeModel>
    decreases k,
{
    if k == 0 {
        Seq::empty()
    } else {
        let front = attributes_in(messages, (k - 1) as nat);
        let message = messages[k - 1];
        match attribute_in(message.data) {
            Ok(attribute) => if message.msg_type == MSG_ATTRIBUTE {
                front.push(attribute)
            } else {
                front
            },
            Err(_) => front,
        }
    }
}

/// The attributes of the object whose header is at `addr`.
pub open spec fn attributes_at(file: Seq<u8>, addr: u64) -> Result<
    Seq<AttributeModel>,
    ErrorKind,
> {
    match messages_at(file, addr as int) {
        Err(kind) => Err(kind),
        Ok(messages) => Ok(attributes_in(messages, messages.len())),
    }
}

/// Read the attributes of the object whose header is at `header_address`; those that
/// cannot be read are left out.
pub fn read_attributes_from_header(file_data: &[u8], header_address: u64) -> (r: Result<
    Vec<Attribute>,
    OxiH5Error,
>)
    ensures
        outcomes(r) == attributes_at(file_data@, header_address),
{
    let messages: Vec<Message> = parse_messages(file_data, header_address)?;
    let ghost all = views(messages@);
    let mut attributes: Vec<Attribute> = Vec::new();
    let n: usize = messages.len();
    proof {
        assert(views(attributes@) =~= Seq::empty());
    }
    for i in 0..n
        invariant
            n == messages@.len(),
            all == views(messages@),
            views(attributes@) == attributes_in(all, i as nat),
    {
        let ghost before = views(attributes@);
        let message = &messages[i];
        proof {
            assert(all[i as int] == message@);
        }
        if message.msg_type == MSG_ATTRIBUTE {
            match parse_attribute(&message.data) {
                Ok(attribute) => {
                    attributes.push(attribute);
                    proof {
                        assert(views(attributes@) =~= before.push(attribute@));
                    }
                },
                Err(_) => {},
            }
        }
    }
    Ok(attributes)
}

/// The attributes of an object, or none where its header cannot be read.
pub open spec fn attributes_or_none(file: Seq<u8>, addr: u64) -> Seq<AttributeModel> {
    match attributes_at(file, addr) {
        Ok(attributes) => attributes,
        Err(_) => Seq::empty(),
    }
}

pub(crate) fn attributes_if_any(file_data: &[u8], header_addr: u64) -> (r: Vec<Attribute>)
    ensures
        views(r@) == attributes_or_none(file_data@, header_addr),
{
    match read_attributes_from_header(file_data, header_addr) {
        Ok(attributes) => attributes,
        Err(_) => {
            let none: Vec<Attribute> = Vec::new();
            proof {
                assert(views(none@) =~= Seq::empty());
            }
            none
        },
    }
}

/// The extents as machine numbers.
pub open spec fn shape_of(dims: Seq<u64>) -> Seq<int> {
    Seq::new(dims.len(), |i: int| dims[i] as usize as int)
}

pub(crate) fn shape_from(dims: &[u64]) -> (r: Vec<usize>)
    ensures
        ints(r@) == shape_of(dims@),
{
    let mut shape: Vec<usize> = Vec::new();
    for i in 0..dims.len()
        invariant
            shape@.len() == i,
            forall|k: int| 0 <= k < i ==> #[trigger] shape@[k] == dims@[k] as usize,
    {
        #[verifier::truncate]
        let extent: usize = dims[i] as usize;
        shape.push(extent);
    }
    proof {
        assert(ints(shape@) =~= shape_of(dims@));
    }
    shape
}

/// The dataset at `addr` with these elements.
pub open spec fn dataset_with(file: Seq<u8>, addr: u64, parts: PartsModel, data: Seq<u8>) -> DatasetModel {
    DatasetModel {
        data,
        shape: shape_of(parts.extent.dims),
        dtype: parts.dtype,
        attributes: attributes_or_none(file, addr),
    }
}

/// The size of an element whose bytes stand in the dataset itself.
pub open spec fn element_size(m: DtypeModel) -> Result<usize, ErrorKind> {
    match size_of(m) {
        None => Err(ErrorKind::NotImplemented),
        Some(n) => if n <= usize::MAX {
            Ok(n as usize)
        } else {
            Err(ErrorKind::Format)
        },
    }
}

fn fixed_size(dtype: &Dtype, name: &str) -> (r: Result<usize, OxiH5Error>)
    ensures
        match (r, element_size(dtype@)) {
            (Ok(a), Ok(b)) => a == b,
            (Err(e), Err(kind)) => e@ == kind,
            _ => false,
        },
{
    match dtype.exact_size() {
        ElemSize::Fixed(n) => Ok(n),
        ElemSize::Variable => Err(
            OxiH5Error::NotImplemented(
                text(&["dataset '", name, "': variable-length element size not supported"]),
            ),
        ),
        ElemSize::TooLarge => Err(
            OxiH5Error::Format(text(&["dataset '", name, "': an element is too large"])),
        ),
    }
}

/// The size of an element in a chunk. One of variable length is a reference of 16 bytes
/// into a global heap.
pub open spec fn chunk_element_size(m: DtypeModel) -> Result<usize, ErrorKind> {
    match m {
        DtypeModel::VarLen { .. } => Ok(16),
        DtypeModel::String { fixed_len: None, .. } => Ok(16),
        _ => element_size(m),
    }
}

fn stored_size(dtype: &Dtype, name: &str) -> (r: Result<usize, OxiH5Error>)
    ensures
        match (r, chunk_element_size(dtype@)) {
            (Ok(a), Ok(b)) => a == b,
            (Err(e), Err(kind)) => e@ == kind,
            _ => false,
        },
{
    match dtype {
        Dtype::VarLen { .. } => Ok(16),
        Dtype::String { fixed_len: None, .. } => Ok(16),
        _ => fixed_size(dtype, name),
    }
}

fn too_large(name: &str) -> (r: OxiH5Error)
    ensures
        r@ == ErrorKind::Format,
{
    OxiH5Error::Format(text(&["dataset '", name, "' is too large"]))
}

/// Whether `pipeline` holds those filters.
pub open spec fn holds_filters(pipeline: FilterPipeline, filters: Seq<FilterModel>) -> bool {
    views(pipeline.filters@) == filters
}

/// Whether a dataset is what reading gave, given what reading its elements gave.
pub open spec fn carried(
    r: Result<Dataset, OxiH5Error>,
    elements: Result<Vec<u8>, OxiH5Error>,
    whole: spec_fn(Seq<u8>) -> DatasetModel,
) -> bool {
    match elements {
        Err(e) => r == Err::<Dataset, OxiH5Error>(e),
        Ok(data) => r is Ok && r->Ok_0@ == whole(data@),
    }
}

/// Whether `r` is what reading the chunks of a whole dataset gives, whatever the
/// filters give; with `after` as the cache then.
pub open spec fn chunks_read<
    P: Fn(&[u8], &FilterPipeline, u32, usize) -> Result<Vec<u8>, OxiH5Error>,
>(
    file: Seq<u8>,
    addr: u64,
    parts: PartsModel,
    es: usize,
    apply_pipeline: P,
    before: Map<(u64, usize), Seq<RecordModel>>,
    after: Map<(u64, usize), Seq<RecordModel>>,
    r: Result<Dataset, OxiH5Error>,
) -> bool {
    exists|pipeline: FilterPipeline, elements: Result<Vec<u8>, OxiH5Error>|
        {
            &&& holds_filters(pipeline, parts.filters)
            &&& #[trigger] whole_read(
                file,
                parts.layout,
                parts.extent.dims,
                es,
                filtering_through(apply_pipeline, pipeline, es),
                before,
                after,
                elements,
            )
            &&& carried(r, elements, |data: Seq<u8>| dataset_with(file, addr, parts, data))
        }
}

/// Whether `r` is what reading the elements that are stored with the dataset at `addr`
/// gives, with `after` as the cache then.
///
/// Contiguous and compact elements are taken as they are. A virtual layout is not
/// followed. Chunks are read through the index.
pub open spec fn stored_read<
    P: Fn(&[u8], &FilterPipeline, u32, usize) -> Result<Vec<u8>, OxiH5Error>,
>(
    file: Seq<u8>,
    addr: u64,
    apply_pipeline: P,
    before: Map<(u64, usize), Seq<RecordModel>>,
    after: Map<(u64, usize), Seq<RecordModel>>,
    r: Result<Dataset, OxiH5Error>,
) -> bool {
    match parts_at(file, addr) {
        Err(kind) => r is Err && r->Err_0@ == kind && after == before,
        Ok(parts) => match parts.layout {
            LayoutModel::Chunked { .. } => match chunk_element_size(parts.dtype) {
                Err(kind) => r is Err && r->Err_0@ == kind && after == before,
                Ok(es) => if can_read(parts.layout, parts.extent.dims, es) {
                    chunks_read(file, addr, parts, es, apply_pipeline, before, after, r)
                } else {
                    r is Err && r->Err_0@ == ErrorKind::Format && after == before
                },
            },
            _ => outcome(r) == plain_read(file, addr, parts) && after == before,
        },
    }
}

/// Whether `r` is what reading the dataset at `addr` gives, with `after` as the cache
/// then: the elements that are stored with it, or for a virtual dataset those of its
/// sources in the same file.
pub open spec fn dataset_read<
    P: Fn(&[u8], &FilterPipeline, u32, usize) -> Result<Vec<u8>, OxiH5Error>,
>(
    file: Seq<u8>,
    addr: u64,
    apply_pipeline: P,
    before: Map<(u64, usize), Seq<RecordModel>>,
    after: Map<(u64, usize), Seq<RecordModel>>,
    r: Result<Dataset, OxiH5Error>,
) -> bool {
    match virtual_at(file, addr) {
        Err(kind) => r is Err && r->Err_0@ == kind && after == before,
        Ok(Some(v)) => virtual_read(file, v, apply_pipeline, before, after, r),
        Ok(None) => stored_read(file, addr, apply_pipeline, before, after, r),
    }
}

/// What reading a dataset without chunks gives.
pub open spec fn plain_read(file: Seq<u8>, addr: u64, parts: PartsModel) -> Result<
    DatasetModel,
    ErrorKind,
> {
    match parts.layout {
        LayoutModel::Contiguous { data_address, data_size } => if data_address + data_size
            > file.len() {
            Err(ErrorKind::Format)
        } else {
            Ok(
                dataset_with(
                    file,
                    addr,
                    parts,
                    file.subrange(data_address as int, data_address + data_size),
                ),
            )
        },
        LayoutModel::Compact { data } => Ok(dataset_with(file, addr, parts, data)),
        LayoutModel::VirtualDataset { .. } => Err(ErrorKind::NotImplemented),
        LayoutModel::Chunked { .. } => Err(ErrorKind::Format),
    }
}

/// Read the dataset whose object header is at `header_addr`.
///
/// `apply_pipeline` undoes the filters of a pipeline on the stored bytes of a chunk.
pub fn read_dataset_from_object_header<
    P: Fn(&[u8], &FilterPipeline, u32, usize) -> Result<Vec<u8>, OxiH5Error>,
>(
    file_data: &[u8],
    header_addr: u64,
    name: &str,
    cache: &mut ChunkIndexCache,
    apply_pipeline: &P,
) -> (r: Result<Dataset, OxiH5Error>)
    requires
        forall|raw: &[u8], pipeline: &FilterPipeline, mask: u32, es: usize|
            apply_pipeline.requires((raw, pipeline, mask, es)),
    ensures
        dataset_read(
            file_data@,
            header_addr,
            *apply_pipeline,
            old(cache)@,
            final(cache)@,
            r,
        ),
{
    match parse_virtual_dataset(file_data, header_addr, name)? {
        Some(described) => read_virtual(file_data, described, cache, apply_pipeline),
        None => read_stored(file_data, header_addr, name, cache, apply_pipeline),
    }
}

/// Read the elements that are stored with the dataset at `header_addr`.
pub(crate) fn read_stored<
    P: Fn(&[u8], &FilterPipeline, u32, usize) -> Result<Vec<u8>, OxiH5Error>,
>(
    file_data: &[u8],
    header_addr: u64,
    name: &str,
    cache: &mut ChunkIndexCache,
    apply_pipeline: &P,
) -> (r: Result<Dataset, OxiH5Error>)
    requires
        forall|raw: &[u8], pipeline: &FilterPipeline, mask: u32, es: usize|
            apply_pipeline.requires((raw, pipeline, mask, es)),
    ensures
        stored_read(
            file_data@,
            header_addr,
            *apply_pipeline,
            old(cache)@,
            final(cache)@,
            r,
        ),
{
    let parts: DatasetParts = parse_parts(file_data, header_addr, name)?;
    let ghost before = cache@;
    let data: Vec<u8> = match &parts.layout {
        LayoutInfo::Contiguous { data_address, data_size } => {
            let len: usize = file_data.len();
            if *data_address > len as u64 || *data_size > len as u64 - *data_address {
                return Err(
                    OxiH5Error::Format(
                        text(
                            &[
                                "dataset '",
                                name,
                                "': data at ",
                                &data_address.to_string(),
                                "+",
                                &data_size.to_string(),
                                " exceeds file size ",
                                &len.to_string(),
                            ],
                        ),
                    ),
                );
            }
            copy_range(
                file_data,
                *data_address as usize,
                (*data_address + *data_size) as usize,
            )
        },
        LayoutInfo::Compact { data } => vstd::slice::slice_to_vec(data),
        LayoutInfo::Chunked { .. } => {
            let elem_size: usize = stored_size(&parts.dtype, name)?;
            if !is_readable(&parts.layout, &parts.space.dims, elem_size) {
                return Err(too_large(name));
            }
            let elements: Result<Vec<u8>, OxiH5Error> = read_chunked(
                file_data,
                &parts.layout,
                &parts.pipeline,
                &parts.space.dims,
                elem_size,
                cache,
                apply_pipeline,
            );
            proof {
                assert(holds_filters(parts.pipeline, parts@.filters));
                assert(whole_read(
                    file_data@,
                    parts@.layout,
                    parts@.extent.dims,
                    elem_size,
                    filtering_through(*apply_pipeline, parts.pipeline, elem_size),
                    before,
                    cache@,
                    elements,
                ));
            }
            match elements {
                Err(e) => {
                    return Err(e);
                },
                Ok(data) => data,
            }
        },
        LayoutInfo::VirtualDataset { .. } => {
            return Err(
                OxiH5Error::NotImplemented(
                    text(&["the elements of the virtual dataset '", name, "' are elsewhere"]),
                ),
            );
        },
    };
    Ok(
        Dataset {
            data,
            shape: shape_from(&parts.space.dims),
            dtype: parts.dtype.clone(),
            attributes: attributes_if_any(file_data, header_addr),
        },
    )
}

/// The ranges with 64 bits.
pub open spec fn wide_ranges(ranges: Seq<std::ops::Range<usize>>) -> Seq<std::ops::Range<u64>> {
    Seq::new(
        ranges.len(),
        |d: int|
            (std::ops::Range::<u64> { start: ranges[d].start as u64, end: ranges[d].end as u64 }),
    )
}

/// Whether ranges of a chunked dataset are read chunk by chunk: there is one for each
/// dimension, and none ends beyond the extent.
pub open spec fn read_by_chunks(parts: PartsModel, ranges: Seq<std::ops::Range<u64>>) -> bool {
    &&& parts.layout is Chunked
    &&& parts.extent.dims.len() >= 1
    &&& ranges.len() == parts.extent.dims.len()
    &&& forall|d: int|
        0 <= d < ranges.len() ==> (#[trigger] ranges[d]).end <= parts.extent.dims[d]
}

/// The dataset of that shape with these elements, with what else the header at `addr`
/// says.
pub open spec fn part_with(
    file: Seq<u8>,
    addr: u64,
    parts: PartsModel,
    shape: Seq<int>,
    data: Seq<u8>,
) -> DatasetModel {
    DatasetModel { data, shape, dtype: parts.dtype, attributes: attributes_or_none(file, addr) }
}

/// What the ranges of a dataset that was read whole give.
pub open spec fn cut_of(ds: DatasetModel, ranges: Seq<std::ops::Range<usize>>) -> Result<
    DatasetModel,
    ErrorKind,
> {
    if can_cut(ds, ranges) {
        cut(ds, ranges)
    } else {
        Err(ErrorKind::Format)
    }
}

/// Whether `r` is what reading ranges chunk by chunk gives.
pub open spec fn slice_chunks_read<
    P: Fn(&[u8], &FilterPipeline, u32, usize) -> Result<Vec<u8>, OxiH5Error>,
>(
    file: Seq<u8>,
    addr: u64,
    parts: PartsModel,
    es: usize,
    ranges: Seq<std::ops::Range<usize>>,
    apply_pipeline: P,
    before: Map<(u64, usize), Seq<RecordModel>>,
    after: Map<(u64, usize), Seq<RecordModel>>,
    r: Result<Dataset, OxiH5Error>,
) -> bool {
    exists|pipeline: FilterPipeline, elements: Result<Vec<u8>, OxiH5Error>|
        {
            &&& holds_filters(pipeline, parts.filters)
            &&& #[trigger] slice_read(
                file,
                parts.layout,
                parts.extent.dims,
                es,
                wide_ranges(ranges),
                parts.fill,
                filtering_through(apply_pipeline, pipeline, es),
                before,
                after,
                elements,
            )
            &&& carried(
                r,
                elements,
                |data: Seq<u8>| part_with(file, addr, parts, range_lengths(ranges), data),
            )
        }
}

/// Whether `r` is what reading ranges of the dataset at `addr` gives, with `after` as
/// the cache then: only the chunks that the ranges touch are decoded; any other
/// dataset is read whole and cut.
pub open spec fn dataset_slice_read<
    P: Fn(&[u8], &FilterPipeline, u32, usize) -> Result<Vec<u8>, OxiH5Error>,
>(
    file: Seq<u8>,
    addr: u64,
    ranges: Seq<std::ops::Range<usize>>,
    apply_pipeline: P,
    before: Map<(u64, usize), Seq<RecordModel>>,
    after: Map<(u64, usize), Seq<RecordModel>>,
    r: Result<Dataset, OxiH5Error>,
) -> bool {
    match parts_at(file, addr) {
        Err(kind) => r is Err && r->Err_0@ == kind && after == before,
        Ok(parts) => if read_by_chunks(parts, wide_ranges(ranges)) {
            match chunk_element_size(parts.dtype) {
                Err(kind) => r is Err && r->Err_0@ == kind && after == before,
                Ok(es) => if can_read_slice(
                    parts.layout,
                    parts.extent.dims,
                    wide_ranges(ranges),
                    es,
                ) {
                    slice_chunks_read(
                        file,
                        addr,
                        parts,
                        es,
                        ranges,
                        apply_pipeline,
                        before,
                        after,
                        r,
                    )
                } else {
                    r is Err && r->Err_0@ == ErrorKind::Format && after == before
                },
            }
        } else {
            exists|whole: Result<Dataset, OxiH5Error>|
                {
                    &&& #[trigger] dataset_read(file, addr, apply_pipeline, before, after, whole)
                    &&& match whole {
                        Err(e) => r == Err::<Dataset, OxiH5Error>(e),
                        Ok(ds) => outcome(r) == cut_of(ds@, ranges),
                    }
                }
        },
    }
}

fn widened(ranges: &[std::ops::Range<usize>]) -> (r: Vec<std::ops::Range<u64>>)
    ensures
        r@ == wide_ranges(ranges@),
{
    let mut wide: Vec<std::ops::Range<u64>> = Vec::new();
    for i in 0..ranges.len()
        invariant
            wide@.len() == i,
            forall|k: int| 0 <= k < i ==> #[trigger] wide@[k] == wide_ranges(ranges@)[k],
    {
        wide.push(std::ops::Range { start: ranges[i].start as u64, end: ranges[i].end as u64 });
    }
    proof {
        assert(wide@ =~= wide_ranges(ranges@));
    }
    wide
}

fn goes_by_chunks(parts: &DatasetParts, ranges: &[std::ops::Range<u64>]) -> (r: bool)
    ensures
        r == read_by_chunks(parts@, ranges@),
{
    if let LayoutInfo::Chunked { .. } = &parts.layout {
    } else {
        return false;
    }
    let n: usize = parts.space.dims.len();
    if n < 1 || ranges.len() != n {
        return false;
    }
    for d in 0..n
        invariant
            n == parts.space.dims@.len() == ranges@.len(),
            forall|k: int| 0 <= k < d ==> (#[trigger] ranges@[k]).end <= parts.space.dims@[k],
    {
        if ranges[d].end > parts.space.dims[d] {
            assert(ranges@[d as int].end > parts@.extent.dims[d as int]);
            return false;
        }
    }
    true
}

/// Whether a dataset can be cut: its size is a machine number.
fn is_cuttable(ds: &Dataset, ranges: &[std::ops::Range<usize>]) -> (r: bool)
    ensures
        r == can_cut(ds@, ranges@),
{
    let n: usize = ds.shape.len();
    if ranges.len() != n {
        return true;
    }
    for d in 0..n
        invariant
            n == ds.shape@.len() == ranges@.len(),
            forall|k: int| 0 <= k < d ==> #[trigger] range_within(ranges@[k], ds@.shape[k]),
    {
        if ranges[d].start > ranges[d].end || ranges[d].end > ds.shape[d] {
            assert(!range_within(ranges@[d as int], ds@.shape[d as int]));
            return true;
        }
    }
    proof {
        assert(ranges_within(ranges@, ds@.shape));
    }
    match ds.dtype_size() {
        Err(_) => true,
        Ok(es) => match exact_total(&ds.shape) {
            None => false,
            Some(total) => total.checked_mul(es).is_some(),
        },
    }
}

/// Read the part of the dataset at `header_addr` that lies in `ranges`.
///
/// For a chunked dataset only the chunks that the ranges touch are decoded.
pub fn slice_dataset_at_header<
    P: Fn(&[u8], &FilterPipeline, u32, usize) -> Result<Vec<u8>, OxiH5Error>,
>(
    file_data: &[u8],
    header_addr: u64,
    name: &str,
    ranges: &[std::ops::Range<usize>],
    cache: &mut ChunkIndexCache,
    apply_pipeline: &P,
) -> (r: Result<Dataset, OxiH5Error>)
    requires
        forall|raw: &[u8], pipeline: &FilterPipeline, mask: u32, es: usize|
            apply_pipeline.requires((raw, pipeline, mask, es)),
    ensures
        dataset_slice_read(
            file_data@,
            header_addr,
            ranges@,
            *apply_pipeline,
            old(cache)@,
            final(cache)@,
            r,
        ),
{
    let ghost before = cache@;
    let parts: DatasetParts = parse_parts(file_data, header_addr, name)?;
    let wide: Vec<std::ops::Range<u64>> = widened(ranges);
    if goes_by_chunks(&parts, &wide) {
        let elem_size: usize = stored_size(&parts.dtype, name)?;
        if !is_slice_readable(&parts.layout, &parts.space.dims, &wide, elem_size) {
            return Err(too_large(name));
        }
        let elements: Result<Vec<u8>, OxiH5Error> = read_chunked_slice_filled(
            file_data,
            &parts.layout,
            &parts.pipeline,
            &parts.space.dims,
            ChunkSliceParams { elem_size, fill_value: &parts.fill_value },
            &wide,
            cache,
            apply_pipeline,
        );
        proof {
            assert(holds_filters(parts.pipeline, parts@.filters));
            assert(slice_read(
                file_data@,
                parts@.layout,
                parts@.extent.dims,
                elem_size,
                wide_ranges(ranges@),
                parts@.fill,
                filtering_through(*apply_pipeline, parts.pipeline, elem_size),
                before,
                cache@,
                elements,
            ));
        }
        let data: Vec<u8> = match elements {
            Err(e) => {
                return Err(e);
            },
            Ok(data) => data,
        };
        let mut shape: Vec<usize> = Vec::new();
        let n: usize = ranges.len();
        for d in 0..n
            invariant
                n == ranges@.len() == parts.space.dims@.len(),
                ranges_fit(wide_ranges(ranges@), parts.space.dims@),
                shape@.len() == d,
                forall|k: int| 0 <= k < d ==> #[trigger] shape@[k] == range_lengths(ranges@)[k],
        {
            proof {
                assert(wide_ranges(ranges@)[d as int].start <= wide_ranges(
                    ranges@,
                )[d as int].end);
            }
            shape.push(ranges[d].end - ranges[d].start);
        }
        proof {
            assert(ints(shape@) =~= range_lengths(ranges@));
        }
        return Ok(
            Dataset {
                data,
                shape,
                dtype: parts.dtype.clone(),
                attributes: attributes_if_any(file_data, header_addr),
            },
        );
    }
    let whole: Result<Dataset, OxiH5Error> = read_dataset_from_object_header(
        file_data,
        header_addr,
        name,
        cache,
        apply_pipeline,
    );
    proof {
        assert(dataset_read(
            file_data@,
            header_addr,
            *apply_pipeline,
            before,
            cache@,
            whole,
        ));
    }
    match whole {
        Err(e) => Err(e),
        Ok(ds) => {
            if !is_cuttable(&ds, ranges) {
                return Err(too_large(name));
            }
            ds.slice(ranges)
        },
    }
}

/// How many positions are selected along each dimension, as machine numbers.
pub open spec fn selection_shape(selection: Seq<DimSelection>) -> Seq<int> {
    Seq::new(
        selection.len(),
        |d: int| saturated(selected_len(selection[d])) as usize as int,
    )
}

/// Whether `r` is what reading a selection chunk by chunk gives.
pub open spec fn selection_chunks_read<
    P: Fn(&[u8], &FilterPipeline, u32, usize) -> Result<Vec<u8>, OxiH5Error>,
>(
    file: Seq<u8>,
    addr: u64,
    parts: PartsModel,
    es: usize,
    selection: Seq<DimSelection>,
    apply_pipeline: P,
    before: Map<(u64, usize), Seq<RecordModel>>,
    after: Map<(u64, usize), Seq<RecordModel>>,
    r: Result<Dataset, OxiH5Error>,
) -> bool {
    exists|pipeline: FilterPipeline, elements: Result<Vec<u8>, OxiH5Error>|
        {
            &&& holds_filters(pipeline, parts.filters)
            &&& #[trigger] selection_read(
                file,
                parts.layout,
                parts.extent.dims,
                es,
                selection,
                parts.fill,
                filtering_through(apply_pipeline, pipeline, es),
                before,
                after,
                elements,
            )
            &&& carried(
                r,
                elements,
                |data: Seq<u8>| part_with(file, addr, parts, selection_shape(selection), data),
            )
        }
}

/// What a selection of a dataset that was read whole gives.
pub open spec fn selection_of(ds: DatasetModel, selection: Seq<DimSelection>) -> Result<
    DatasetModel,
    ErrorKind,
> {
    match element_size(ds.dtype) {
        Err(kind) => Err(kind),
        Ok(es) => if can_gather(ds.data, ds.shape, selection, es as nat) {
            Ok(
                DatasetModel {
                    data: gathered(ds.data, ds.shape, selection, es as nat),
                    shape: selection_shape(selection),
                    ..ds
                },
            )
        } else {
            Err(ErrorKind::Format)
        },
    }
}

/// Whether `r` is what reading a selection of the dataset at `addr` gives, with
/// `after` as the cache then: of a chunked dataset only the chunks that the box around
/// the selection touches are decoded; any other dataset is read whole.
pub open spec fn dataset_selection_read<
    P: Fn(&[u8], &FilterPipeline, u32, usize) -> Result<Vec<u8>, OxiH5Error>,
>(
    file: Seq<u8>,
    addr: u64,
    selection: Seq<DimSelection>,
    apply_pipeline: P,
    before: Map<(u64, usize), Seq<RecordModel>>,
    after: Map<(u64, usize), Seq<RecordModel>>,
    r: Result<Dataset, OxiH5Error>,
) -> bool {
    match parts_at(file, addr) {
        Err(kind) => r is Err && r->Err_0@ == kind && after == before,
        Ok(parts) => if read_by_chunks(parts, bounds_of(selection)) {
            match chunk_element_size(parts.dtype) {
                Err(kind) => r is Err && r->Err_0@ == kind && after == before,
                Ok(es) => if can_read_slice(
                    parts.layout,
                    parts.extent.dims,
                    bounds_of(selection),
                    es,
                ) {
                    selection_chunks_read(
                        file,
                        addr,
                        parts,
                        es,
                        selection,
                        apply_pipeline,
                        before,
                        after,
                        r,
                    )
                } else {
                    r is Err && r->Err_0@ == ErrorKind::Format && after == before
                },
            }
        } else {
            exists|whole: Result<Dataset, OxiH5Error>|
                {
                    &&& #[trigger] dataset_read(file, addr, apply_pipeline, before, after, whole)
                    &&& match whole {
                        Err(e) => r == Err::<Dataset, OxiH5Error>(e),
                        Ok(ds) => outcome(r) == selection_of(ds@, selection),
                    }
                }
        },
    }
}

fn selection_extents(selection: &Hyperslab) -> (r: Vec<usize>)
    ensures
        ints(r@) == selection_shape(selection.dims@),
{
    let wide: Vec<u64> = selection.output_shape();
    let shape: Vec<usize> = shape_from(&wide);
    proof {
        assert(shape_of(wide@) =~= selection_shape(selection.dims@));
    }
    shape
}

/// Read a strided selection of the dataset at `header_addr`.
///
/// For a chunked dataset only the chunks that the box around the selection touches
/// are decoded.
pub fn hyperslab_dataset_at_header<
    P: Fn(&[u8], &FilterPipeline, u32, usize) -> Result<Vec<u8>, OxiH5Error>,
>(
    file_data: &[u8],
    header_addr: u64,
    name: &str,
    selection: &Hyperslab,
    cache: &mut ChunkIndexCache,
    apply_pipeline: &P,
) -> (r: Result<Dataset, OxiH5Error>)
    requires
        forall|raw: &[u8], pipeline: &FilterPipeline, mask: u32, es: usize|
            apply_pipeline.requires((raw, pipeline, mask, es)),
    ensures
        dataset_selection_read(
            file_data@,
            header_addr,
            selection.dims@,
            *apply_pipeline,
            old(cache)@,
            final(cache)@,
            r,
        ),
{
    let ghost before = cache@;
    let parts: DatasetParts = parse_parts(file_data, header_addr, name)?;
    let bounds: Vec<std::ops::Range<u64>> = selection.bounding_ranges();
    proof {
        assert(bounds@ =~= bounds_of(selection.dims@));
    }
    if goes_by_chunks(&parts, &bounds) {
        let elem_size: usize = stored_size(&parts.dtype, name)?;
        if !is_slice_readable(&parts.layout, &parts.space.dims, &bounds, elem_size) {
            return Err(too_large(name));
        }
        let elements: Result<Vec<u8>, OxiH5Error> = read_chunked_hyperslab(
            file_data,
            &parts.layout,
            &parts.pipeline,
            &parts.space.dims,
            ChunkSliceParams { elem_size, fill_value: &parts.fill_value },
            selection,
            cache,
            apply_pipeline,
        );
        proof {
            assert(holds_filters(parts.pipeline, parts@.filters));
            assert(selection_read(
                file_data@,
                parts@.layout,
                parts@.extent.dims,
                elem_size,
                selection.dims@,
                parts@.fill,
                filtering_through(*apply_pipeline, parts.pipeline, elem_size),
                before,
                cache@,
                elements,
            ));
        }
        let data: Vec<u8> = match elements {
            Err(e) => {
                return Err(e);
            },
            Ok(data) => data,
        };
        return Ok(
            Dataset {
                data,
                shape: selection_extents(selection),
                dtype: parts.dtype.clone(),
                attributes: attributes_if_any(file_data, header_addr),
            },
        );
    }
    let whole: Result<Dataset, OxiH5Error> = read_dataset_from_object_header(
        file_data,
        header_addr,
        name,
        cache,
        apply_pipeline,
    );
    proof {
        assert(dataset_read(
            file_data@,
            header_addr,
            *apply_pipeline,
            before,
            cache@,
            whole,
        ));
    }
    match whole {
        Err(e) => Err(e),
        Ok(ds) => select_from(ds, selection, name),
    }
}

/// Take a selection out of a whole dataset.
fn select_from(ds: Dataset, selection: &Hyperslab, name: &str) -> (r: Result<
    Dataset,
    OxiH5Error,
>)
    ensures
        outcome(r) == selection_of(ds@, selection.dims@),
{
    let elem_size: usize = fixed_size(&ds.dtype, name)?;
    let mut wide: Vec<u64> = Vec::new();
    for d in 0..ds.shape.len()
        invariant
            wide@.len() == d,
            forall|k: int| 0 <= k < d ==> #[trigger] wide@[k] == ds.shape@[k],
    {
        wide.push(ds.shape[d] as u64);
    }
    proof {
        assert(ints64(wide@) =~= ds@.shape);
    }
    let data: Vec<u8> = gather_hyperslab_contiguous(&ds.data, &wide, selection, elem_size)?;
    Ok(
        Dataset {
            data,
            shape: selection_extents(selection),
            dtype: ds.dtype,
            attributes: ds.attributes,
        },
    )
}

} // verus!
