//! Parts of datasets: which elements a slice and a selection give.

use vstd::prelude::*;
use crate::chunked::{lemma_byte_of, plus};
use crate::dataset::{
    can_cut, cut_bytes, range_lengths, range_starts, range_within, ranges_within, Dataset,
    DatasetModel,
};
use crate::dims::{
    in_box, ints, ints64, law_rank_then_unrank, product, product_fits, rank, strides_fit,
};
use crate::dtype::{size_of, DtypeModel};
use crate::error::{outcome, ErrorKind, OxiH5Error};
use crate::file::File;
use crate::filters::apply_pipeline;
use crate::hyperslab::{
    can_gather, element_places, gather_hyperslab_contiguous, gathered, law_block_positions,
    law_elements_stay_in_order, law_gathered_elements, lemma_position_bounds, selected_end,
    selected_place, selected_shape, selected_source, selects_within, DimSelection, Hyperslab,
};
use crate::roundtrip::datasets::{law_own_decoder_undoes_filters, leads_to_dataset};
use crate::roundtrip::file::readable;
use crate::roundtrip::parts::{
    law_chunked_selection_reads_back, law_chunked_slice_reads_back,
    law_contiguous_selection_reads_back, law_contiguous_slice_reads_back,
};
use crate::write::elem::{byte_size_of, dtype_of};
use crate::write::emit::build_bytes;
use crate::write::tree::{GroupModel, GroupNode};

verus! {

/// Whether the elements of a type are single values of a fixed width.
pub open spec fn is_plain(m: DtypeModel) -> bool {
    m is Int || m is Float || m is Bitfield || m is Opaque || m is String && m->fixed_len is Some
}

/// The element of cut out bytes at a position.
proof fn lemma_cut_element(
    data: Seq<u8>,
    shape: Seq<int>,
    ranges: Seq<std::ops::Range<usize>>,
    es: nat,
    o: Seq<int>,
    b: int,
)
    requires
        ranges_within(ranges, shape),
        product(shape) * es <= data.len(),
        in_box(range_lengths(ranges), o),
        0 <= b < es,
    ensures
        cut_bytes(data, shape, ranges, es).len() == product(range_lengths(ranges)) * es,
        cut_bytes(data, shape, ranges, es)[rank(range_lengths(ranges), o) * es + b] == data[rank(
            shape,
            Seq::new(o.len(), |d: int| o[d] + ranges[d].start),
        ) * es + b],
{
    let want = range_lengths(ranges);
    let c = Seq::new(o.len(), |d: int| o[d] + ranges[d].start);
    assert(plus(o, range_starts(ranges)) =~= c);
    assert forall|d: int| 0 <= d < shape.len() implies 0 <= #[trigger] c[d] < shape[d] by {
        assert(range_within(ranges[d], shape[d]));
        assert(0 <= o[d] < want[d]);
    }
    law_rank_then_unrank(want, o);
    law_rank_then_unrank(shape, c);
    let e = rank(want, o);
    let p = rank(shape, c);
    assert(0 <= e * es && (e + 1) * es <= product(want) * es && (e + 1) * es == e * es + es && (p
        + 1) * es <= product(shape) * es) by (nonlinear_arith)
        requires
            0 <= e < product(want),
            0 <= p < product(shape),
            es >= 0,
    ;
    lemma_byte_of(e * es + b, e, es as int);
}

/// A slice has the lengths of the ranges as its shape, the type and the attributes of the
/// dataset, and at each position the element of the dataset that lies as far behind the
/// starts of the ranges. Ranges that run backward or reach beyond the dataset are refused,
/// and so is another number of ranges than there are dimensions.
pub proof fn law_slice_elements(
    ds: &Dataset,
    ranges: &[std::ops::Range<usize>],
    r: Result<Dataset, OxiH5Error>,
    es: nat,
    o: Seq<int>,
    b: int,
)
    requires
        can_cut(ds@, ranges@),
        is_plain(ds@.dtype),
        size_of(ds@.dtype) == Some(es),
        ds@.data.len() == product(ds@.shape) * es,
        call_ensures(Dataset::slice, (ds, ranges), r),
        0 <= b < es,
    ensures
        ranges@.len() != ds@.shape.len() ==> outcome(r) == Err::<DatasetModel, ErrorKind>(
            ErrorKind::Format,
        ),
        forall|d: int|
            0 <= d < ranges@.len() && d < ds@.shape.len() && ((#[trigger] ranges@[d]).start
                > ranges@[d].end || ranges@[d].end > ds@.shape[d]) ==> outcome(r) == Err::<
                DatasetModel,
                ErrorKind,
            >(ErrorKind::Format),
        ranges@.len() == ds@.shape.len() && (forall|d: int|
            0 <= d < ranges@.len() ==> (#[trigger] ranges@[d]).start <= ranges@[d].end
                <= ds@.shape[d]) ==> {
            let lengths = Seq::new(
                ranges@.len(),
                |d: int| ranges@[d].end - ranges@[d].start,
            );
            &&& r is Ok
            &&& r->Ok_0@.shape == lengths
            &&& r->Ok_0@.dtype == ds@.dtype
            &&& r->Ok_0@.attributes == ds@.attributes
            &&& in_box(lengths, o) ==> {
                &&& r->Ok_0@.data.len() == product(lengths) * es
                &&& r->Ok_0@.data[rank(lengths, o) * es + b] == ds@.data[rank(
                    ds@.shape,
                    Seq::new(o.len(), |d: int| o[d] + ranges@[d].start),
                ) * es + b]
            }
        },
{
    let lengths = Seq::new(ranges@.len(), |d: int| ranges@[d].end - ranges@[d].start);
    assert(range_lengths(ranges@) =~= lengths);
    assert forall|d: int|
        0 <= d < ranges@.len() && d < ds@.shape.len() && ((#[trigger] ranges@[d]).start
            > ranges@[d].end || ranges@[d].end > ds@.shape[d]) implies outcome(r) == Err::<
        DatasetModel,
        ErrorKind,
    >(ErrorKind::Format) by {
        assert(!range_within(ranges@[d], ds@.shape[d]));
    }
    if ranges@.len() == ds@.shape.len() && (forall|d: int|
        0 <= d < ranges@.len() ==> (#[trigger] ranges@[d]).start <= ranges@[d].end
            <= ds@.shape[d]) {
        assert forall|d: int| 0 <= d < ds@.shape.len() implies #[trigger] range_within(
            ranges@[d],
            ds@.shape[d],
        ) by {
            assert(ranges@[d].start <= ranges@[d].end <= ds@.shape[d]);
        }
        if in_box(lengths, o) {
            lemma_cut_element(ds@.data, ds@.shape, ranges@, es, o, b);
        }
    }
}

/// Reshaping keeps the elements, the type and the attributes, and gives the new shape; a
/// shape of another number of elements is refused.
pub proof fn law_reshape(ds: &Dataset, shape: &[usize], r: Result<Dataset, OxiH5Error>)
    requires
        product_fits(ds@.shape),
        product_fits(ints(shape@)),
        call_ensures(Dataset::reshape, (ds, shape), r),
    ensures
        product(ds@.shape) != product(ints(shape@)) ==> outcome(r) == Err::<
            DatasetModel,
            ErrorKind,
        >(ErrorKind::Format),
        product(ds@.shape) == product(ints(shape@)) ==> {
            &&& r is Ok
            &&& r->Ok_0@.data == ds@.data
            &&& r->Ok_0@.shape == ints(shape@)
            &&& r->Ok_0@.dtype == ds@.dtype
            &&& r->Ok_0@.attributes == ds@.attributes
        },
{
}

/// The ranges around a selection hold every selected position, and start and end with one;
/// the shape of what is selected is the number of blocks times their length.
pub proof fn law_selection_bounds(
    selection: &Hyperslab,
    ranges: Vec<std::ops::Range<u64>>,
    shape: Vec<u64>,
    d: int,
    k: int,
    j: int,
)
    requires
        call_ensures(Hyperslab::bounding_ranges, (selection,), ranges),
        call_ensures(Hyperslab::output_shape, (selection,), shape),
        0 <= d < selection.dims@.len(),
        0 <= k < selection.dims@[d].count,
        0 <= j < selection.dims@[d].block,
        selected_end(selection.dims@[d]) <= u64::MAX,
        selection.dims@[d].count * selection.dims@[d].block <= u64::MAX,
    ensures
        ranges@.len() == selection.dims@.len(),
        shape@.len() == selection.dims@.len(),
        shape@[d] == selection.dims@[d].count * selection.dims@[d].block,
        ranges@[d].start == selection.dims@[d].start,
        ranges@[d].end == selection.dims@[d].start + (selection.dims@[d].count - 1)
            * selection.dims@[d].stride + selection.dims@[d].block,
        ranges@[d].start <= selection.dims@[d].start + k * selection.dims@[d].stride + j
            < ranges@[d].end,
{
    let s = selection.dims@[d];
    law_block_positions(s, k, j);
    lemma_position_bounds(s, k * s.block + j);
}

/// What a selection takes out of data: the `j`-th element of the `k`-th block along each
/// dimension is the element of the data that lies `k` strides and `j` behind the start.
pub proof fn law_selected_elements(
    data: &[u8],
    dims: &[u64],
    selection: &Hyperslab,
    es: usize,
    r: Result<Vec<u8>, OxiH5Error>,
    k: Seq<int>,
    j: Seq<int>,
    b: int,
)
    requires
        call_ensures(gather_hyperslab_contiguous, (data, dims, selection, es), r),
        selects_within(selection.dims@, ints64(dims@)),
        data@.len() == product(ints64(dims@)) * es,
        product(ints64(dims@)) <= usize::MAX,
        product(selected_shape(selection.dims@)) * es <= usize::MAX,
        product(selected_shape(selection.dims@)) <= usize::MAX,
        k.len() == dims@.len(),
        j.len() == dims@.len(),
        forall|d: int|
            0 <= d < dims@.len() ==> {
                &&& 0 <= #[trigger] k[d] < selection.dims@[d].count
                &&& 0 <= j[d] < selection.dims@[d].block
            },
        0 <= b < es,
    ensures
        ({
            let shape = Seq::new(
                dims@.len(),
                |d: int| selection.dims@[d].count * selection.dims@[d].block,
            );
            let o = Seq::new(dims@.len(), |d: int| k[d] * selection.dims@[d].block + j[d]);
            let c = Seq::new(
                dims@.len(),
                |d: int| selection.dims@[d].start + k[d] * selection.dims@[d].stride + j[d],
            );
            &&& r is Ok
            &&& r->Ok_0@.len() == product(shape) * es
            &&& r->Ok_0@[rank(shape, o) * es + b] == data@[rank(ints64(dims@), c) * es + b]
        }),
{
    let sel = selection.dims@;
    lemma_selected_element(data@, ints64(dims@), sel, es as nat, k, j, b);
}

proof fn lemma_selected_element(
    data: Seq<u8>,
    extents: Seq<int>,
    sel: Seq<DimSelection>,
    es: nat,
    k: Seq<int>,
    j: Seq<int>,
    b: int,
)
    requires
        can_gather(data, extents, sel, es),
        k.len() == extents.len(),
        j.len() == extents.len(),
        forall|d: int|
            0 <= d < extents.len() ==> {
                &&& 0 <= #[trigger] k[d] < sel[d].count
                &&& 0 <= j[d] < sel[d].block
            },
        0 <= b < es,
    ensures
        ({
            let shape = Seq::new(extents.len(), |d: int| sel[d].count * sel[d].block);
            let o = Seq::new(extents.len(), |d: int| k[d] * sel[d].block + j[d]);
            let c = Seq::new(
                extents.len(),
                |d: int| sel[d].start + k[d] * sel[d].stride + j[d],
            );
            &&& selected_shape(sel) == shape
            &&& gathered(data, extents, sel, es).len() == product(shape) * es
            &&& gathered(data, extents, sel, es)[rank(shape, o) * es + b] == data[rank(extents, c)
                * es + b]
        }),
{
    let shape = Seq::new(extents.len(), |d: int| sel[d].count * sel[d].block);
    let o = Seq::new(extents.len(), |d: int| k[d] * sel[d].block + j[d]);
    let c = Seq::new(extents.len(), |d: int| sel[d].start + k[d] * sel[d].stride + j[d]);
    assert(selected_shape(sel) =~= shape);
    assert forall|d: int| 0 <= d < extents.len() implies 0 <= #[trigger] o[d] < shape[d] by {
        assert(0 <= k[d]);
        law_block_positions(sel[d], k[d], j[d]);
    }
    assert(selected_source(sel, o) =~= c) by {
        assert forall|d: int| 0 <= d < sel.len() implies #[trigger] selected_source(sel, o)[d]
            == c[d] by {
            assert(0 <= k[d]);
            law_block_positions(sel[d], k[d], j[d]);
        }
    }
    law_gathered_elements(data, extents, sel, es, o, b);
}

/// The places of the selected elements ascend, where no block reaches into the next: what
/// is selected stays in the order of the dataset.
pub proof fn law_places_ascend(
    dims: &[u64],
    selection: &[DimSelection],
    r: Result<Vec<usize>, OxiH5Error>,
    e: int,
    f: int,
)
    requires
        call_ensures(element_places, (dims, selection), r),
        r is Ok,
        forall|d: int|
            0 <= d < selection@.len() ==> (#[trigger] selection@[d]).block <= selection@[d].stride,
        0 <= e < f < r->Ok_0@.len(),
    ensures
        r->Ok_0@[e] < r->Ok_0@[f] < product(ints64(dims@)),
{
    let extents = ints64(dims@);
    let places = ints(r->Ok_0@);
    let shape = selected_shape(selection@);
    assert forall|d: int| 0 <= d < shape.len() implies 0 <= #[trigger] shape[d] by {
        assert(selection@[d].count * selection@[d].block >= 0) by (nonlinear_arith);
    }
    crate::dims::lemma_product_non_negative(shape);
    assert(places.len() == r->Ok_0@.len());
    assert(places == crate::hyperslab::selected_places(extents, selection@));
    law_elements_stay_in_order(extents, selection@, e, f);
    assert(places[e] == r->Ok_0@[e] && places[f] == r->Ok_0@[f]);
    assert(places[e] == selected_place(extents, selection@, e));
    assert(places[f] == selected_place(extents, selection@, f));
}

/// A slice of a written dataset has at each position the element that was written as far
/// behind the starts of the ranges.
pub proof fn law_slice_of_written_dataset(
    root: &GroupNode,
    built: Result<Vec<u8>, OxiH5Error>,
    bytes: &[u8],
    opened: Result<File, OxiH5Error>,
    file: &mut File,
    path: &str,
    ranges: &[std::ops::Range<usize>],
    m: GroupModel,
    at: nat,
    i: int,
    read: Result<Dataset, OxiH5Error>,
    o: Seq<int>,
    b: int,
)
    requires
        readable(root@),
        call_ensures(build_bytes, (root,), built),
        built is Ok,
        bytes@ == built->Ok_0@,
        call_ensures(File::open_from_bytes, (bytes,), opened),
        opened is Ok,
        *old(file) == opened->Ok_0,
        leads_to_dataset(root@, path@, m, at, i),
        m.datasets[i].vlen_strings is None,
        m.datasets[i].raw@.len() == product(ints(m.datasets[i].shape@)) * byte_size_of(
            m.datasets[i].elem_type,
        ),
        is_plain(dtype_of(m.datasets[i].elem_type)),
        m.datasets[i].storage is Chunked ==> strides_fit(ints(m.datasets[i].shape@)),
        product(ints(m.datasets[i].shape@)) <= usize::MAX,
        ranges_within(ranges@, ints(m.datasets[i].shape@)),
        call_ensures(File::dataset_slice, (file, path, ranges), read),
        in_box(Seq::new(ranges@.len(), |d: int| ranges@[d].end - ranges@[d].start), o),
        0 <= b < byte_size_of(m.datasets[i].elem_type),
    ensures
        ({
            let es = byte_size_of(m.datasets[i].elem_type);
            let lengths = Seq::new(ranges@.len(), |d: int| ranges@[d].end - ranges@[d].start);
            &&& read is Ok
            &&& read->Ok_0@.shape == lengths
            &&& read->Ok_0@.data[rank(lengths, o) * es + b] == m.datasets[i].raw@[rank(
                ints(m.datasets[i].shape@),
                Seq::new(o.len(), |d: int| o[d] + ranges@[d].start),
            ) * es + b]
        }),
{
    let ds = m.datasets[i];
    let es = byte_size_of(ds.elem_type);
    let lengths = Seq::new(ranges@.len(), |d: int| ranges@[d].end - ranges@[d].start);
    assert(bytes.len() <= usize::MAX);
    assert(range_lengths(ranges@) =~= lengths);
    let before = old(file).chunk_cache@;
    let after = final(file).chunk_cache@;
    assert(ds.raw.len() <= usize::MAX);
    if ds.storage is Chunked {
        law_own_decoder_undoes_filters();
        law_chunked_slice_reads_back(
            root@,
            bytes@,
            path@,
            m,
            at,
            i,
            ranges@,
            apply_pipeline,
            before,
            after,
            read,
        );
    } else {
        law_contiguous_slice_reads_back(
            root@,
            bytes@,
            path@,
            m,
            at,
            i,
            ranges@,
            apply_pipeline,
            before,
            after,
            read,
        );
    }
    lemma_cut_element(ds.raw@, ints(ds.shape@), ranges@, es, o, b);
}

/// A selection of a written dataset has, for the `j`-th element of the `k`-th block along
/// each dimension, the element that was written `k` strides and `j` behind the start.
pub proof fn law_selection_of_written_dataset(
    root: &GroupNode,
    built: Result<Vec<u8>, OxiH5Error>,
    bytes: &[u8],
    opened: Result<File, OxiH5Error>,
    file: &mut File,
    path: &str,
    selection: &[DimSelection],
    m: GroupModel,
    at: nat,
    i: int,
    read: Result<Dataset, OxiH5Error>,
    k: Seq<int>,
    j: Seq<int>,
    b: int,
)
    requires
        readable(root@),
        call_ensures(build_bytes, (root,), built),
        built is Ok,
        bytes@ == built->Ok_0@,
        call_ensures(File::open_from_bytes, (bytes,), opened),
        opened is Ok,
        *old(file) == opened->Ok_0,
        leads_to_dataset(root@, path@, m, at, i),
        m.datasets[i].vlen_strings is None,
        is_plain(dtype_of(m.datasets[i].elem_type)),
        m.datasets[i].storage is Chunked ==> strides_fit(ints(m.datasets[i].shape@)),
        can_gather(
            m.datasets[i].raw@,
            ints(m.datasets[i].shape@),
            selection@,
            byte_size_of(m.datasets[i].elem_type),
        ),
        call_ensures(File::dataset_hyperslab, (file, path, selection), read),
        k.len() == selection@.len(),
        j.len() == selection@.len(),
        forall|d: int|
            0 <= d < selection@.len() ==> {
                &&& 0 <= #[trigger] k[d] < selection@[d].count
                &&& 0 <= j[d] < selection@[d].block
            },
        0 <= b < byte_size_of(m.datasets[i].elem_type),
    ensures
        ({
            let es = byte_size_of(m.datasets[i].elem_type);
            let shape = Seq::new(
                selection@.len(),
                |d: int| selection@[d].count * selection@[d].block,
            );
            let o = Seq::new(selection@.len(), |d: int| k[d] * selection@[d].block + j[d]);
            let c = Seq::new(
                selection@.len(),
                |d: int| selection@[d].start + k[d] * selection@[d].stride + j[d],
            );
            &&& read is Ok
            &&& read->Ok_0@.data.len() == product(shape) * es
            &&& read->Ok_0@.data[rank(shape, o) * es + b] == m.datasets[i].raw@[rank(
                ints(m.datasets[i].shape@),
                c,
            ) * es + b]
        }),
{
    let ds = m.datasets[i];
    let es = byte_size_of(ds.elem_type);
    assert(bytes.len() <= usize::MAX);
    let before = old(file).chunk_cache@;
    let after = final(file).chunk_cache@;
    if ds.storage is Chunked {
        law_own_decoder_undoes_filters();
        law_chunked_selection_reads_back(
            root@,
            bytes@,
            path@,
            m,
            at,
            i,
            selection@,
            apply_pipeline,
            before,
            after,
            read,
        );
    } else {
        law_contiguous_selection_reads_back(
            root@,
            bytes@,
            path@,
            m,
            at,
            i,
            selection@,
            apply_pipeline,
            before,
            after,
            read,
        );
    }
    lemma_selected_element(ds.raw@, ints(ds.shape@), selection@, es, k, j, b);
}

} // verus!
