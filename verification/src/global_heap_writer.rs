//! Building global heap collections.
//!
//! A collection is `GCOL`, version 1, three reserved bytes and its own length
//! (8 bytes), then one entry per object in insertion order, then an entry of 16
//! zero bytes. An entry is the object's index (2 bytes, counted from 1), a
//! reference count of 1 (2), four reserved bytes, the object's length (8), its
//! data, and zeros up to a multiple of 8.

use vstd::prelude::*;
use vstd::string::*;
use crate::bytes::{
    le_at, le_bytes, lemma_le_bytes_len, lemma_le_round_trip, lemma_pow256_values, push_all,
    push_le, push_zeros, tag_at, zeros,
};
use crate::error::ErrorKind;
use crate::global_heap::{align8, heap_at, objects_from};

verus! {

/// The objects of a collection, in insertion order.
pub struct GlobalHeapWriter {
    objects: Vec<Vec<u8>>,
}

impl View for GlobalHeapWriter {
    type V = Seq<Seq<u8>>;

    closed spec fn view(&self) -> Seq<Seq<u8>> {
        Seq::new(self.objects@.len(), |i: int| self.objects@[i]@)
    }
}

/// The index under which the object at position `i` is stored. The field has
/// 16 bits: the index repeats after that many objects.
pub open spec fn stored_index(i: int) -> nat {
    if i % 65536 == 65535 {
        65535
    } else {
        (i % 65536 + 1) as nat
    }
}

/// The bytes of one entry.
#[verifier::opaque]
pub open spec fn entry_image(index: nat, data: Seq<u8>) -> Seq<u8> {
    le_bytes(index, 2) + le_bytes(1, 2) + zeros(4) + le_bytes(data.len(), 8) + data + zeros(
        (align8(data.len() as int) - data.len()) as nat,
    )
}

/// The bytes of all entries.
pub open spec fn entries_image(objects: Seq<Seq<u8>>) -> Seq<u8>
    decreases objects.len(),
{
    if objects.len() == 0 {
        Seq::empty()
    } else {
        entries_image(objects.drop_last()) + entry_image(
            stored_index(objects.len() - 1),
            objects.last(),
        )
    }
}

/// The number of bytes of a collection.
pub open spec fn collection_size(objects: Seq<Seq<u8>>) -> nat {
    32 + entries_image(objects).len()
}

/// The bytes of a collection's header.
pub open spec fn header_image(size: nat) -> Seq<u8> {
    seq!['G' as u8, 'C' as u8, 'O' as u8, 'L' as u8, 1u8, 0u8, 0u8, 0u8] + le_bytes(size, 8)
}

/// The bytes of a collection.
#[verifier::opaque]
pub open spec fn collection_image(objects: Seq<Seq<u8>>) -> Seq<u8> {
    header_image(collection_size(objects)) + entries_image(objects) + zeros(16)
}

proof fn lemma_entry_len(index: nat, data: Seq<u8>)
    ensures
        entry_image(index, data).len() == align8(16 + data.len() as int),
        entry_image(index, data).len() == 16 + align8(data.len() as int),
        16 + data.len() <= entry_image(index, data).len(),
{
    reveal(entry_image);
    lemma_le_bytes_len(index, 2);
    lemma_le_bytes_len(1, 2);
    lemma_le_bytes_len(data.len(), 8);
}

proof fn lemma_entries_len(objects: Seq<Seq<u8>>)
    ensures
        entries_image(objects).len() % 8 == 0,
    decreases objects.len(),
{
    if objects.len() > 0 {
        lemma_entries_len(objects.drop_last());
        lemma_entry_len(stored_index(objects.len() - 1), objects.last());
    }
}

pub proof fn lemma_collection_size(objects: Seq<Seq<u8>>)
    ensures
        objects.len() <= collection_size(objects),
        collection_size(objects) % 8 == 0,
    decreases objects.len(),
{
    if objects.len() > 0 {
        lemma_collection_size(objects.drop_last());
        lemma_entry_len(stored_index(objects.len() - 1), objects.last());
    }
    lemma_entries_len(objects);
}

/// One more object takes its entry.
pub proof fn lemma_entries_step(objects: Seq<Seq<u8>>, object: Seq<u8>)
    ensures
        entries_image(objects.push(object)).len() == entries_image(objects).len() + 16 + align8(
            object.len() as int,
        ),
{
    let all = objects.push(object);
    assert(all.drop_last() =~= objects);
    lemma_entry_len(stored_index(all.len() - 1), object);
}

/// The entries of the first objects come first.
proof fn lemma_entries_prefix(objects: Seq<Seq<u8>>, i: int)
    requires
        0 <= i < objects.len(),
    ensures
        ({
            let before = entries_image(objects.take(i));
            let entry = entry_image(stored_index(i), objects[i]);
            let all = entries_image(objects);
            &&& entries_image(objects.take(i + 1)) == before + entry
            &&& before.len() + entry.len() <= all.len()
            &&& all.subrange(before.len() as int, (before.len() + entry.len()) as int) == entry
        }),
    decreases objects.len(),
{
    let before = entries_image(objects.take(i));
    let entry = entry_image(stored_index(i), objects[i]);
    assert(objects.take(i + 1).drop_last() =~= objects.take(i));
    assert(objects.take(i + 1).last() == objects[i]);
    let all = entries_image(objects);
    if i == objects.len() - 1 {
        assert(objects.take(i + 1) =~= objects);
        assert(all.subrange(before.len() as int, (before.len() + entry.len()) as int) =~= entry);
    } else {
        let front = objects.drop_last();
        lemma_entries_prefix(front, i);
        assert(front.take(i) =~= objects.take(i));
        let short = entries_image(front);
        assert(all.subrange(before.len() as int, (before.len() + entry.len()) as int)
            =~= short.subrange(before.len() as int, (before.len() + entry.len()) as int));
    }
}

impl GlobalHeapWriter {
    /// An empty collection.
    pub fn new() -> (r: GlobalHeapWriter)
        ensures
            r@ == Seq::<Seq<u8>>::empty(),
    {
        let r = GlobalHeapWriter { objects: Vec::new() };
        proof {
            assert(r@ =~= Seq::empty());
        }
        r
    }

    /// Store `data` as a new object and return its index, counted from 1.
    pub fn write_bytes(&mut self, data: &[u8]) -> (r: u32)
        ensures
            final(self)@ == old(self)@.push(data@),
            r == final(self)@.len() as u32,
    {
        let ghost before = self@;
        self.objects.push(vstd::slice::slice_to_vec(data));
        proof {
            assert(self@ =~= before.push(data@));
        }
        #[verifier::truncate]
        let r: u32 = self.objects.len() as u32;
        r
    }

    /// Store the UTF-8 bytes of `s` and a zero byte as a new object and return
    /// its index, counted from 1.
    pub fn write_string(&mut self, s: &str) -> (r: u32)
        ensures
            final(self)@ == old(self)@.push(s.spec_bytes().push(0u8)),
            r == final(self)@.len() as u32,
    {
        let mut bytes: Vec<u8> = vstd::slice::slice_to_vec(s.as_bytes());
        bytes.push(0);
        self.write_bytes(&bytes)
    }

    /// Whether nothing was stored yet.
    pub fn is_empty(&self) -> (r: bool)
        ensures
            r == (self@.len() == 0),
    {
        self.objects.len() == 0
    }

    /// The number of objects stored.
    pub fn len(&self) -> (r: usize)
        ensures
            r == self@.len(),
    {
        self.objects.len()
    }

    /// The collection as bytes.
    pub fn build(self) -> (r: Vec<u8>)
        requires
            collection_size(self@) <= usize::MAX,
        ensures
            r@ == collection_image(self@),
    {
        let ghost objects = self@;
        let n: usize = self.objects.len();
        let mut total: usize = 32;
        proof {
            assert(entries_image(objects.take(0)).len() == 0);
        }
        for i in 0..n
            invariant
                n == self.objects@.len(),
                objects == self@,
                n == objects.len(),
                collection_size(objects) <= usize::MAX,
                total == 32 + entries_image(objects.take(i as int)).len(),
        {
            proof {
                lemma_entries_prefix(objects, i as int);
                lemma_entry_len(stored_index(i as int), objects[i as int]);
                assert(objects[i as int] == self.objects@[i as int]@);
            }
            total = total + align8_usize(16 + self.objects[i].len());
        }
        proof {
            assert(objects.take(n as int) =~= objects);
        }

        let mut out: Vec<u8> = Vec::new();
        out.push(0x47);
        out.push(0x43);
        out.push(0x4f);
        out.push(0x4c);
        out.push(1);
        out.push(0);
        out.push(0);
        out.push(0);
        push_le(&mut out, total as u64, 8);
        let ghost header = header_image(total as nat);
        proof {
            assert('G' as u8 == 0x47 && 'C' as u8 == 0x43 && 'O' as u8 == 0x4f && 'L' as u8 == 0x4c);
            assert(out@ =~= header);
            assert(out@ =~= header + entries_image(objects.take(0)));
            lemma_le_bytes_len(total as nat, 8);
        }
        for i in 0..n
            invariant
                n == self.objects@.len(),
                objects == self@,
                n == objects.len(),
                header.len() == 16,
                collection_size(objects) <= usize::MAX,
                out@ == header + entries_image(objects.take(i as int)),
        {
            let ghost before = out@;
            proof {
                lemma_entries_prefix(objects, i as int);
                lemma_entries_len(objects.take(i as int));
                lemma_entry_len(stored_index(i as int), objects[i as int]);
                assert(objects[i as int] == self.objects@[i as int]@);
            }
            push_entry(&mut out, i, &self.objects[i]);
            proof {
                let entry = entry_image(stored_index(i as int), objects[i as int]);
                assert(out@ =~= header + (entries_image(objects.take(i as int)) + entry));
            }
        }
        push_zeros(&mut out, 16);
        proof {
            reveal(collection_image);
        }
        out
    }
}

/// Append the entry of the object at position `i`.
fn push_entry(out: &mut Vec<u8>, i: usize, data: &[u8])
    requires
        old(out)@.len() % 8 == 0,
        old(out)@.len() + 16 + data@.len() <= usize::MAX,
    ensures
        final(out)@ == old(out)@ + entry_image(stored_index(i as int), data@),
{
    let ghost before = out@;
    let low: u64 = (i % 65536) as u64;
    let index: u64 = if low == 65535 {
        65535
    } else {
        low + 1
    };
    proof {
        reveal(entry_image);
        lemma_le_bytes_len(index as nat, 2);
        lemma_le_bytes_len(1, 2);
        lemma_le_bytes_len(data@.len(), 8);
    }
    push_le(out, index, 2);
    push_le(out, 1, 2);
    push_zeros(out, 4);
    push_le(out, data.len() as u64, 8);
    push_all(out, data);
    let ghost unpadded = le_bytes(index as nat, 2) + le_bytes(1, 2) + zeros(4) + le_bytes(
        data@.len(),
        8,
    ) + data@;
    proof {
        assert(out@ =~= before + unpadded);
    }
    let remainder: usize = out.len() % 8;
    if remainder != 0 {
        push_zeros(out, 8 - remainder);
    }
    proof {
        let pad = (align8(data@.len() as int) - data@.len()) as nat;
        assert(remainder == 0 ==> pad == 0);
        assert(remainder != 0 ==> pad == 8 - remainder);
        assert(out@ =~= before + (unpadded + zeros(pad)));
    }
}

/// `n` rounded up to a multiple of 8, or the greatest there is.
fn align8_usize(n: usize) -> (r: usize)
    ensures
        align8(n as int) <= usize::MAX ==> r == align8(n as int),
        align8(n as int) > usize::MAX ==> r == usize::MAX - 7,
{
    let from: usize = n - n % 8;
    if n % 8 == 0 || from > usize::MAX - 8 {
        from
    } else {
        from + 8
    }
}

/// A reference to an object in a collection.
#[derive(Debug, Clone, Copy)]
pub struct GlobalHeapRef {
    /// File address of the collection.
    pub collection_addr: u64,
    /// Index of the object in it, counted from 1.
    pub object_idx: u32,
}

/// The objects, each under its index counted from 1.
pub open spec fn numbered(objects: Seq<Seq<u8>>) -> Map<u16, Seq<u8>> {
    Map::new(
        |k: u16| 1 <= k <= objects.len(),
        |k: u16| objects[k - 1],
    )
}

/// A field of an entry, as the file that holds the entry spells it.
proof fn lemma_entry_fields(file: Seq<u8>, pos: int, index: nat, data: Seq<u8>)
    requires
        0 <= pos,
        pos + entry_image(index, data).len() <= file.len() <= usize::MAX,
        index <= 65535,
        file.subrange(pos, pos + entry_image(index, data).len()) == entry_image(index, data),
    ensures
        le_at(file, pos, 2) == index,
        le_at(file, pos + 8, 8) == data.len(),
        file.subrange(pos + 16, pos + 16 + data.len()) == data,
{
    reveal(entry_image);
    let e = entry_image(index, data);
    lemma_entry_len(index, data);
    lemma_le_bytes_len(index, 2);
    lemma_le_bytes_len(1, 2);
    lemma_le_bytes_len(data.len(), 8);
    lemma_pow256_values();
    assert forall|i: int| 0 <= i < e.len() implies #[trigger] file[pos + i] == e[i] by {
        assert(file.subrange(pos, pos + e.len())[i] == e[i]);
    }
    assert(file.subrange(pos, pos + 2) =~= le_bytes(index, 2));
    lemma_le_round_trip(index, 2, file, pos);
    let sizes = le_bytes(data.len(), 8);
    assert forall|i: int| 0 <= i < 8 implies file[pos + 8 + i] == #[trigger] sizes[i] by {
        assert(file[pos + (8 + i)] == e[8 + i]);
    }
    assert(file.subrange(pos + 8, pos + 16) =~= sizes);
    lemma_le_round_trip(data.len(), 8, file, pos + 8);
    assert forall|i: int| 0 <= i < data.len() implies file[pos + 16 + i] == #[trigger] data[i] by {
        assert(file[pos + (16 + i)] == e[16 + i]);
    }
    assert(file.subrange(pos + 16, pos + 16 + data.len()) =~= data);
}

/// Whether `file` holds the collection of `objects` at `base`.
pub open spec fn holds_collection(file: Seq<u8>, base: int, objects: Seq<Seq<u8>>) -> bool {
    &&& 0 <= base
    &&& base + collection_size(objects) <= file.len()
    &&& file.subrange(base, base + collection_size(objects)) == collection_image(objects)
}

/// Where the parts of a collection lie in a file that holds it.
proof fn lemma_collection_parts(file: Seq<u8>, base: int, objects: Seq<Seq<u8>>)
    requires
        holds_collection(file, base, objects),
        file.len() <= usize::MAX,
    ensures
        tag_at(file, base, 'G', 'C', 'O', 'L'),
        file[base + 4] == 1,
        le_at(file, base + 8, 8) == collection_size(objects),
        file.subrange(base + 16, base + 16 + entries_image(objects).len()) == entries_image(
            objects,
        ),
        forall|k: int|
            0 <= k < 16 ==> #[trigger] file[base + 16 + entries_image(objects).len() + k] == 0,
{
    let size = collection_size(objects);
    reveal(collection_image);
    let image = collection_image(objects);
    let all = entries_image(objects);
    lemma_le_bytes_len(size, 8);
    lemma_pow256_values();
    assert(image.len() == size);
    assert forall|k: int| 0 <= k < image.len() implies #[trigger] file[base + k] == image[k] by {
        assert(file.subrange(base, base + size)[k] == image[k]);
    }
    assert(file[base + 0] == image[0] && file[base + 1] == image[1] && file[base + 2] == image[2]
        && file[base + 3] == image[3] && file[base + 4] == image[4]);
    assert forall|k: int| 0 <= k < 8 implies file[base + 8 + k] == #[trigger] le_bytes(
        size,
        8,
    )[k] by {
        assert(file[base + (8 + k)] == image[8 + k]);
    }
    assert(file.subrange(base + 8, base + 16) =~= le_bytes(size, 8));
    lemma_le_round_trip(size, 8, file, base + 8);
    assert forall|k: int| 0 <= k < all.len() implies file[base + 16 + k] == #[trigger] all[k] by {
        assert(file[base + (16 + k)] == image[16 + k]);
    }
    assert(file.subrange(base + 16, base + 16 + all.len()) =~= all);
    assert forall|k: int| 0 <= k < 16 implies #[trigger] file[base + 16 + all.len() + k] == 0 by {
        assert(file[base + (16 + all.len() + k)] == image[16 + all.len() + k]);
    }
}

/// Numbering one more object adds it under the next index.
proof fn lemma_numbered_next(objects: Seq<Seq<u8>>, i: int)
    requires
        0 <= i < objects.len() <= 65535,
    ensures
        numbered(objects.take(i + 1)) == numbered(objects.take(i)).insert(
            (i + 1) as u16,
            objects[i],
        ),
{
    assert(numbered(objects.take(i + 1)) =~= numbered(objects.take(i)).insert(
        (i + 1) as u16,
        objects[i],
    ));
}

/// Where the entry of the object at position `i` lies.
proof fn lemma_entry_in_file(file: Seq<u8>, base: int, objects: Seq<Seq<u8>>, i: int)
    requires
        base % 8 == 0,
        0 <= i < objects.len() <= 65535,
        holds_collection(file, base, objects),
        file.len() <= usize::MAX,
    ensures
        ({
            let pos = base + 16 + entries_image(objects.take(i)).len();
            let data = objects[i];
            &&& le_at(file, pos, 2) == i + 1
            &&& le_at(file, pos + 8, 8) == data.len()
            &&& pos + 16 + data.len() <= base + 16 + entries_image(objects).len()
            &&& file.subrange(pos + 16, pos + 16 + data.len()) == data
            &&& align8(pos + 16 + data.len()) == base + 16 + entries_image(objects.take(i + 1)).len()
        }),
{
    let all = entries_image(objects);
    let done = entries_image(objects.take(i)).len() as int;
    let pos = base + 16 + done;
    lemma_collection_parts(file, base, objects);
    let data = objects[i];
    let entry = entry_image((i + 1) as nat, data);
    assert(stored_index(i) == i + 1);
    lemma_entries_prefix(objects, i);
    lemma_entry_len((i + 1) as nat, data);
    lemma_entries_len(objects.take(i));
    assert(file.subrange(pos, pos + entry.len()) =~= file.subrange(
        base + 16,
        base + 16 + all.len(),
    ).subrange(done, done + entry.len()));
    lemma_entry_fields(file, pos, (i + 1) as nat, data);
}

proof fn lemma_objects_read_back(file: Seq<u8>, base: int, objects: Seq<Seq<u8>>, i: int)
    requires
        base % 8 == 0,
        objects.len() <= 65535,
        0 <= i <= objects.len(),
        holds_collection(file, base, objects),
        file.len() <= usize::MAX,
    ensures
        objects_from(
            file,
            base + 16 + entries_image(objects.take(i)).len(),
            base + collection_size(objects),
            numbered(objects.take(i)),
        ) == Ok::<Map<u16, Seq<u8>>, ErrorKind>(numbered(objects)),
    decreases objects.len() - i,
{
    let pos = base + 16 + entries_image(objects.take(i)).len();
    if i == objects.len() {
        lemma_collection_parts(file, base, objects);
        assert(objects.take(i) =~= objects);
        assert(file[pos + 0] == 0);
        assert(file[pos + 1] == 0);
        reveal_with_fuel(le_at, 3);
        assert(le_at(file, pos, 2) == 0);
    } else {
        lemma_entry_in_file(file, base, objects, i);
        lemma_numbered_next(objects, i);
        lemma_objects_read_back(file, base, objects, i + 1);
    }
}

/// Reading gives back what was written: wherever a file holds the bytes of a
/// collection at an address that is a multiple of 8, parsing the collection
/// there yields every object under the index that storing it returned, and
/// nothing else.
pub proof fn law_collection_reads_back(file: Seq<u8>, base: int, objects: Seq<Seq<u8>>)
    requires
        base % 8 == 0,
        objects.len() <= 65535,
        holds_collection(file, base, objects),
        file.len() <= usize::MAX,
    ensures
        heap_at(file, base) == Ok::<Map<u16, Seq<u8>>, ErrorKind>(numbered(objects)),
{
    lemma_collection_parts(file, base, objects);
    assert(objects.take(0) =~= Seq::<Seq<u8>>::empty());
    assert(numbered(objects.take(0)) =~= Map::<u16, Seq<u8>>::empty());
    lemma_objects_read_back(file, base, objects, 0);
}

/// The header of a collection states the number of bytes that building it gives.
pub proof fn law_size_field_is_length(objects: Seq<Seq<u8>>)
    requires
        collection_size(objects) <= usize::MAX,
    ensures
        collection_image(objects).len() == collection_size(objects),
        le_at(collection_image(objects), 8, 8) == collection_image(objects).len(),
{
    let size = collection_size(objects);
    reveal(collection_image);
    let image = collection_image(objects);
    lemma_le_bytes_len(size, 8);
    lemma_pow256_values();
    assert(image.subrange(8, 16) =~= le_bytes(size, 8));
    lemma_le_round_trip(size, 8, image, 8);
}

} // verus!
