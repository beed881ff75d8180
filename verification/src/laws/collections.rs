//! Collections of the global heap, and the attributes whose values lie in them.

use vstd::prelude::*;
use crate::attr_view::AttrView;
use crate::bytes::{le_at, le_bytes, lemma_le_bytes_len, lemma_pow256_values, zeros};
use crate::dtype::{CompoundField, Dtype};
use crate::error::{outcomes, OxiH5Error};
use crate::global_heap::{align8, objects_from, GlobalHeap};
use crate::global_heap_writer::{
    collection_size, holds_collection, law_collection_reads_back, law_size_field_is_length,
    numbered, GlobalHeapWriter,
};
use crate::laws::attributes::lemma_listed;
use crate::laws::spelling::listed;
use crate::roundtrip::held::{held, lemma_held_bytes, lemma_held_number, lemma_held_parts};
use crate::values::{decode_compound, decode_vlen_sequences, Value};

verus! {

/// An object that was stored is read back by the index that storing it gave, once the
/// collection lies in a file, whatever was stored after it.
pub proof fn law_stored_object_is_read(
    writer: &mut GlobalHeapWriter,
    data: &[u8],
    index: u32,
    done: GlobalHeapWriter,
    built: Vec<u8>,
    file: &[u8],
    address: u64,
    heap: Result<GlobalHeap, OxiH5Error>,
    r: Result<&[u8], OxiH5Error>,
)
    requires
        call_ensures(GlobalHeapWriter::write_bytes, (writer, data), index),
        final(writer)@.is_prefix_of(done@),
        done@.len() <= 65535,
        collection_size(done@) <= usize::MAX,
        call_ensures(GlobalHeapWriter::build, (done,), built),
        address % 8 == 0,
        address + built@.len() <= file@.len(),
        file@.subrange(address as int, address + built@.len()) == built@,
        call_ensures(GlobalHeap::parse, (file, address), heap),
        heap is Ok ==> call_ensures(GlobalHeap::object, (&heap->Ok_0, index as u16), r),
    ensures
        heap is Ok,
        r is Ok,
        r->Ok_0@ == data@,
{
    let all = done@;
    let n = final(writer)@.len();
    assert(file.len() <= usize::MAX);
    law_size_field_is_length(all);
    assert(holds_collection(file@, address as int, all));
    law_collection_reads_back(file@, address as int, all);
    assert(final(writer)@ == old(writer)@.push(data@));
    assert(final(writer)@ == all.subrange(0, n as int));
    assert(all[n - 1] == all.subrange(0, n as int)[n - 1]);
    assert(final(writer)@[n - 1] == data@);
    assert(index == n);
    assert(heap->Ok_0@ == numbered(all));
    assert(numbered(all).contains_key(index as u16));
}

/// An object of a collection: its index, how often it is referred to, four bytes that are
/// not used, and its bytes.
pub struct Stored {
    pub index: u16,
    pub count: u16,
    pub unused: Seq<u8>,
    pub data: Seq<u8>,
}

/// The bytes of an object, with zeros up to a multiple of eight.
pub open spec fn object_image(o: Stored) -> Seq<u8> {
    le_bytes(o.index as nat, 2) + le_bytes(o.count as nat, 2) + o.unused + le_bytes(
        o.data.len(),
        8,
    ) + o.data + zeros((align8(o.data.len() as int) - o.data.len()) as nat)
}

/// The bytes of objects, one after the other.
pub open spec fn objects_image(objects: Seq<Stored>) -> Seq<u8>
    decreases objects.len(),
{
    if objects.len() == 0 {
        Seq::empty()
    } else {
        object_image(objects[0]) + objects_image(objects.drop_first())
    }
}

/// Whether objects can be told apart, and none has the index that ends a collection.
pub open spec fn told_apart(objects: Seq<Stored>) -> bool {
    &&& forall|i: int|
        0 <= i < objects.len() ==> {
            &&& (#[trigger] objects[i]).index != 0
            &&& objects[i].unused.len() == 4
        }
    &&& forall|i: int, j: int|
        0 <= i < j < objects.len() ==> (#[trigger] objects[i]).index != (
        #[trigger] objects[j]).index
}

proof fn lemma_object(f: Seq<u8>, pos: int, o: Stored)
    requires
        held(f, pos, object_image(o)),
        o.unused.len() == 4,
        f.len() <= usize::MAX,
        pos % 8 == 0,
    ensures
        le_at(f, pos, 2) == o.index,
        le_at(f, pos + 8, 8) == o.data.len(),
        pos + 16 + o.data.len() <= f.len(),
        f.subrange(pos + 16, pos + 16 + o.data.len()) == o.data,
        align8(pos + 16 + o.data.len()) == pos + object_image(o).len(),
        (pos + object_image(o).len()) % 8 == 0,
        object_image(o).len() >= 16,
{
    let a = le_bytes(o.index as nat, 2);
    let b = le_bytes(o.count as nat, 2);
    let c = le_bytes(o.data.len(), 8);
    let d = zeros((align8(o.data.len() as int) - o.data.len()) as nat);
    lemma_pow256_values();
    lemma_le_bytes_len(o.index as nat, 2);
    lemma_le_bytes_len(o.count as nat, 2);
    lemma_le_bytes_len(o.data.len(), 8);
    lemma_held_parts(f, pos, a + b + o.unused + c + o.data, d);
    lemma_held_parts(f, pos, a + b + o.unused + c, o.data);
    lemma_held_parts(f, pos, a + b + o.unused, c);
    lemma_held_parts(f, pos, a + b, o.unused);
    lemma_held_parts(f, pos, a, b);
    lemma_held_number(f, pos, o.index as nat, 2);
    lemma_held_number(f, pos + 8, o.data.len(), 8);
}

/// The first of some objects, and the others.
proof fn lemma_first_object(
    f: Seq<u8>,
    pos: int,
    end: int,
    objects: Seq<Stored>,
    found: Map<u16, Seq<u8>>,
)
    requires
        held(f, pos, objects_image(objects)),
        told_apart(objects),
        f.len() <= usize::MAX,
        pos % 8 == 0,
        pos + objects_image(objects).len() <= end <= f.len(),
        ({
            let behind = pos + objects_image(objects).len();
            behind + 16 > end || le_at(f, behind, 2) == 0
        }),
        objects.len() > 0,
    ensures
        held(f, pos + object_image(objects[0]).len(), objects_image(objects.drop_first())),
        told_apart(objects.drop_first()),
        (pos + object_image(objects[0]).len()) % 8 == 0,
        objects_image(objects).len() == object_image(objects[0]).len() + objects_image(
            objects.drop_first(),
        ).len(),
        objects_from(f, pos, end, found) == objects_from(
            f,
            pos + object_image(objects[0]).len(),
            end,
            found.insert(objects[0].index, objects[0].data),
        ),
{
    let o = objects[0];
    let rest = objects.drop_first();
    lemma_held_parts(f, pos, object_image(o), objects_image(rest));
    lemma_object(f, pos, o);
    assert forall|a: int| 0 <= a < rest.len() implies (#[trigger] rest[a]).index != 0
        && rest[a].unused.len() == 4 by {
        assert(rest[a] == objects[a + 1]);
    }
    assert forall|a: int, b: int| 0 <= a < b < rest.len() implies (#[trigger] rest[a]).index != (
    #[trigger] rest[b]).index by {
        assert(rest[a] == objects[a + 1] && rest[b] == objects[b + 1]);
    }
}

/// What was found under another index stays.
proof fn lemma_others_kept(
    f: Seq<u8>,
    pos: int,
    end: int,
    objects: Seq<Stored>,
    found: Map<u16, Seq<u8>>,
    k: u16,
)
    requires
        held(f, pos, objects_image(objects)),
        told_apart(objects),
        f.len() <= usize::MAX,
        pos % 8 == 0,
        pos + objects_image(objects).len() <= end <= f.len(),
        ({
            let behind = pos + objects_image(objects).len();
            behind + 16 > end || le_at(f, behind, 2) == 0
        }),
        forall|j: int| 0 <= j < objects.len() ==> (#[trigger] objects[j]).index != k,
    ensures
        ({
            let all = objects_from(f, pos, end, found);
            &&& all is Ok
            &&& all->Ok_0.contains_key(k) == found.contains_key(k)
            &&& found.contains_key(k) ==> all->Ok_0[k] == found[k]
        }),
    decreases objects.len(),
{
    if objects.len() > 0 {
        let o = objects[0];
        let rest = objects.drop_first();
        lemma_first_object(f, pos, end, objects, found);
        assert forall|j: int| 0 <= j < rest.len() implies (#[trigger] rest[j]).index != k by {
            assert(rest[j] == objects[j + 1]);
        }
        lemma_others_kept(
            f,
            pos + object_image(o).len(),
            end,
            rest,
            found.insert(o.index, o.data),
            k,
        );
    }
}

proof fn lemma_object_found(
    f: Seq<u8>,
    pos: int,
    end: int,
    objects: Seq<Stored>,
    found: Map<u16, Seq<u8>>,
    i: int,
)
    requires
        held(f, pos, objects_image(objects)),
        told_apart(objects),
        f.len() <= usize::MAX,
        pos % 8 == 0,
        pos + objects_image(objects).len() <= end <= f.len(),
        ({
            let behind = pos + objects_image(objects).len();
            behind + 16 > end || le_at(f, behind, 2) == 0
        }),
        0 <= i < objects.len(),
    ensures
        ({
            let all = objects_from(f, pos, end, found);
            &&& all is Ok
            &&& all->Ok_0.contains_key(objects[i].index)
            &&& all->Ok_0[objects[i].index] == objects[i].data
        }),
    decreases objects.len(),
{
    let o = objects[0];
    let rest = objects.drop_first();
    let next = found.insert(o.index, o.data);
    let at = pos + object_image(o).len();
    lemma_first_object(f, pos, end, objects, found);
    if i > 0 {
        assert(rest[i - 1] == objects[i]);
        lemma_object_found(f, at, end, rest, next, i - 1);
    } else {
        assert forall|j: int| 0 <= j < rest.len() implies (#[trigger] rest[j]).index
            != o.index by {
            assert(rest[j] == objects[j + 1]);
        }
        lemma_others_kept(f, at, end, rest, next, o.index);
    }
}

/// A collection is read as its objects, each under its index, in whatever order the indexes
/// are and however often an object is referred to; it ends at index zero or where no more
/// fits.
pub proof fn law_objects_of_collection(
    file: &[u8],
    address: u64,
    unused: Seq<u8>,
    objects: Seq<Stored>,
    size: nat,
    heap: Result<GlobalHeap, OxiH5Error>,
    i: int,
    r: Result<&[u8], OxiH5Error>,
    k: u16,
    other: Result<&[u8], OxiH5Error>,
)
    requires
        address % 8 == 0,
        unused.len() == 3,
        told_apart(objects),
        held(
            file@,
            address as int,
            seq!['G' as u8, 'C' as u8, 'O' as u8, 'L' as u8, 1u8] + unused + le_bytes(size, 8)
                + objects_image(objects),
        ),
        16 + objects_image(objects).len() <= size,
        address + size <= file@.len(),
        ({
            let used = 16 + objects_image(objects).len();
            used + 16 > size || le_at(file@, address + used as int, 2) == 0
        }),
        call_ensures(GlobalHeap::parse, (file, address), heap),
        0 <= i < objects.len(),
        heap is Ok ==> call_ensures(GlobalHeap::object, (&heap->Ok_0, objects[i].index), r),
        forall|j: int| 0 <= j < objects.len() ==> (#[trigger] objects[j]).index != k,
        heap is Ok ==> call_ensures(GlobalHeap::object, (&heap->Ok_0, k), other),
    ensures
        heap is Ok,
        r is Ok,
        r->Ok_0@ == objects[i].data,
        other is Err,
{
    let f = file@;
    let p = address as int;
    let a = seq!['G' as u8, 'C' as u8, 'O' as u8, 'L' as u8, 1u8];
    let b = le_bytes(size, 8);
    let c = objects_image(objects);
    assert(file.len() <= usize::MAX);
    lemma_pow256_values();
    lemma_le_bytes_len(size, 8);
    lemma_held_parts(f, p, a + unused + b, c);
    lemma_held_parts(f, p, a + unused, b);
    lemma_held_parts(f, p, a, unused);
    lemma_held_bytes(f, p, a);
    assert(a[0] == f[p + 0] && a[1] == f[p + 1] && a[2] == f[p + 2] && a[3] == f[p + 3] && a[4]
        == f[p + 4]);
    lemma_held_number(f, p + 8, size, 8);
    lemma_object_found(f, p + 16, p + size, objects, Map::empty(), i);
    lemma_others_kept(f, p + 16, p + size, objects, Map::empty(), k);
    assert(heap is Ok);
    assert(!heap->Ok_0@.contains_key(k));
}

/// The compound values of an attribute are those that its bytes hold.
pub proof fn law_compound_attribute(
    view: &AttrView,
    data: &[u8],
    fields: &[CompoundField],
    n: usize,
    r: Result<Vec<Value>, OxiH5Error>,
    s: Result<Vec<Value>, OxiH5Error>,
)
    requires
        data@ == view.attr.data@,
        view.attr.dtype is Compound,
        view.attr.dtype->Compound_fields@ == fields@,
        listed(view.attr@.dataspace, n as nat),
        call_ensures(AttrView::as_compound, (view,), r),
        call_ensures(decode_compound, (view.file_data, data, fields, n, 0usize), s),
    ensures
        outcomes(r) == outcomes(s),
{
    lemma_listed(view.attr@.dataspace, n as nat);
    crate::dtype::lemma_compound_model(view.attr.dtype->Compound_fields);
}

/// The sequences of an attribute are those that its bytes refer to.
pub proof fn law_sequence_attribute(
    view: &AttrView,
    data: &[u8],
    base: &Dtype,
    n: usize,
    r: Result<Vec<Value>, OxiH5Error>,
    s: Result<Vec<Value>, OxiH5Error>,
)
    requires
        data@ == view.attr.data@,
        view.attr.dtype is VarLen,
        *view.attr.dtype->VarLen_base == *base,
        listed(view.attr@.dataspace, n as nat),
        call_ensures(AttrView::as_vlen_sequence, (view,), r),
        call_ensures(decode_vlen_sequences, (view.file_data, data, n, base), s),
    ensures
        outcomes(r) == outcomes(s),
{
    lemma_listed(view.attr@.dataspace, n as nat);
}

} // verus!
