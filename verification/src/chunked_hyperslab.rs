//! Strided selections of chunked datasets.

use vstd::prelude::*;
use crate::chunk_reader::{
    can_read_slice, filtering_through, read_chunked_slice_filled, slice_read, ChunkIndexCache,
    ChunkSliceParams,
};
use crate::chunk_record::RecordModel;
use crate::chunked::Filtering;
use crate::dims::ints64;
use crate::error::{outcome, ErrorKind, OxiH5Error};
use crate::hyperslab::{
    can_gather, gather_hyperslab_contiguous, gathered, saturated, selected_end, DimSelection,
    Hyperslab,
};
use crate::object::{FilterPipeline, LayoutInfo, LayoutModel};

verus! {

/// The ranges that bound the selection.
pub open spec fn bounds_of(dims: Seq<DimSelection>) -> Seq<std::ops::Range<u64>> {
    Seq::new(
        dims.len(),
        |d: int|
            (std::ops::Range::<u64> {
                start: dims[d].start,
                end: saturated(selected_end(dims[d])),
            }),
    )
}

/// The selection as seen from its own start.
pub open spec fn from_start(dims: Seq<DimSelection>) -> Seq<DimSelection> {
    Seq::new(dims.len(), |d: int| DimSelection { start: 0, ..dims[d] })
}

/// The extents of the box around the selection.
pub open spec fn box_of(dims: Seq<DimSelection>) -> Seq<int> {
    Seq::new(dims.len(), |d: int| saturated(selected_end(dims[d])) - dims[d].start)
}

/// Whether `r` is what reading a selection of a chunked dataset gives, with `after` as
/// the cache then: the box around the selection is read, and the selected elements
/// are taken out of it.
pub open spec fn selection_read(
    file: Seq<u8>,
    layout: LayoutModel,
    dims: Seq<u64>,
    elem_size: usize,
    selection: Seq<DimSelection>,
    fill: Seq<u8>,
    filter: Filtering,
    before: Map<(u64, usize), Seq<RecordModel>>,
    after: Map<(u64, usize), Seq<RecordModel>>,
    r: Result<Vec<u8>, OxiH5Error>,
) -> bool {
    exists|part: Result<Vec<u8>, OxiH5Error>|
        {
            &&& #[trigger] slice_read(
                file,
                layout,
                dims,
                elem_size,
                bounds_of(selection),
                fill,
                filter,
                before,
                after,
                part,
            )
            &&& match part {
                Err(e) => r == Err::<Vec<u8>, OxiH5Error>(e),
                Ok(part) => outcome(r) == taken(part@, selection, elem_size as nat),
            }
        }
}

/// The selected elements out of the box around them.
pub open spec fn taken(part: Seq<u8>, selection: Seq<DimSelection>, es: nat) -> Result<
    Seq<u8>,
    ErrorKind,
> {
    if can_gather(part, box_of(selection), from_start(selection), es) {
        Ok(gathered(part, box_of(selection), from_start(selection), es))
    } else {
        Err(ErrorKind::Format)
    }
}

/// Read a selection of a chunked dataset: only the chunks that the box around it
/// touches are decoded.
pub fn read_chunked_hyperslab<
    P: Fn(&[u8], &FilterPipeline, u32, usize) -> Result<Vec<u8>, OxiH5Error>,
>(
    file_data: &[u8],
    layout: &LayoutInfo,
    pipeline: &FilterPipeline,
    dataset_dims: &[u64],
    params: ChunkSliceParams,
    selection: &Hyperslab,
    cache: &mut ChunkIndexCache,
    apply_pipeline: &P,
) -> (r: Result<Vec<u8>, OxiH5Error>)
    requires
        forall|raw: &[u8], mask: u32|
            apply_pipeline.requires((raw, pipeline, mask, params.elem_size)),
        can_read_slice(layout@, dataset_dims@, bounds_of(selection.dims@), params.elem_size),
    ensures
        selection_read(
            file_data@,
            layout@,
            dataset_dims@,
            params.elem_size,
            selection.dims@,
            params.fill_value@,
            filtering_through(*apply_pipeline, *pipeline, params.elem_size),
            old(cache)@,
            final(cache)@,
            r,
        ),
{
    let elem_size: usize = params.elem_size;
    let ranges: Vec<std::ops::Range<u64>> = selection.bounding_ranges();
    let ghost before = cache@;
    proof {
        assert(ranges@ =~= bounds_of(selection.dims@));
    }
    let part: Result<Vec<u8>, OxiH5Error> = read_chunked_slice_filled(
        file_data,
        layout,
        pipeline,
        dataset_dims,
        params,
        &ranges,
        cache,
        apply_pipeline,
    );
    proof {
        assert(slice_read(
            file_data@,
            layout@,
            dataset_dims@,
            elem_size,
            bounds_of(selection.dims@),
            params.fill_value@,
            filtering_through(*apply_pipeline, *pipeline, elem_size),
            before,
            cache@,
            part,
        ));
    }
    match part {
        Err(e) => Err(e),
        Ok(data) => {
            let mut wide: Vec<u64> = Vec::new();
            let mut inner: Vec<DimSelection> = Vec::new();
            let n: usize = ranges.len();
            for d in 0..n
                invariant
                    n == ranges@.len() == selection.dims@.len(),
                    ranges@ == bounds_of(selection.dims@),
                    wide@.len() == d,
                    inner@.len() == d,
                    forall|k: int| 0 <= k < d ==> #[trigger] wide@[k] == box_of(selection.dims@)[k],
                    forall|k: int|
                        0 <= k < d ==> #[trigger] inner@[k] == from_start(selection.dims@)[k],
            {
                let s: DimSelection = selection.dims[d];
                proof {
                    lemma_forward(s);
                }
                wide.push(ranges[d].end - ranges[d].start);
                inner.push(
                    DimSelection { start: 0, stride: s.stride, count: s.count, block: s.block },
                );
            }
            let inner = Hyperslab { dims: inner };
            proof {
                assert(ints64(wide@) =~= box_of(selection.dims@));
                assert(inner.dims@ =~= from_start(selection.dims@));
            }
            gather_hyperslab_contiguous(&data, &wide, &inner, elem_size)
        },
    }
}

/// A selection ends no earlier than it starts.
proof fn lemma_forward(s: DimSelection)
    ensures
        s.start <= saturated(selected_end(s)),
{
    if s.count > 0 && s.block > 0 {
        let n = s.count - 1;
        assert(0 <= n * s.stride) by (nonlinear_arith)
            requires
                n >= 0,
                s.stride >= 0,
        ;
    }
}

} // verus!
