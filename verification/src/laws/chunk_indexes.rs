//! Chunk indexes: an index that lists chunks is read as these chunks.

use vstd::prelude::*;
use crate::bytes::{le_at, le_bytes, lemma_le_bytes_len, lemma_pow256_values, pow256};
use crate::chunk_record::{offsets_in, ChunkRecord, RecordModel};
use crate::ea_index::{
    block_elements, block_records, coordinate_width, direct, elements_in, first_elements, indirect,
    least_beyond, parse_extensible_array, pointers_from, MAX_DATA_BLOCK_PTRS,
};
use crate::error::{outcomes, ErrorKind, OxiH5Error};
use crate::fa_index::{
    fixed_array_at, grid_coord, grid_offsets, grid_rest, grid_stride, parse_fixed_array_v4,
    FixedArray,
};
use crate::laws::spelling::{lemma_piece, lemma_runs, piece, runs};
use crate::roundtrip::held::{
    held, lemma_held_bytes, lemma_held_number, lemma_held_part, lemma_held_parts,
};

verus! {

/// What an index says of a chunk besides its position.
pub struct Stored {
    pub address: u64,
    pub size: u32,
    pub filter_mask: u32,
}

/// The chunks among the first `k` entries, an entry whose address is undefined left out.
pub open spec fn kept(
    stored: Seq<Stored>,
    place: spec_fn(int) -> Seq<u64>,
    k: nat,
) -> Seq<RecordModel>
    decreases k,
{
    if k == 0 {
        Seq::empty()
    } else {
        let front = kept(stored, place, (k - 1) as nat);
        let s = stored[k - 1];
        if s.address == u64::MAX {
            front
        } else {
            front.push(
                RecordModel {
                    address: s.address,
                    size: s.size,
                    filter_mask: s.filter_mask,
                    offsets: place(k - 1),
                },
            )
        }
    }
}

/// The header of a fixed array: `FAHD`, version 0, the client, the size of an element, a
/// byte, the number of elements, the address of the data block, a checksum.
pub open spec fn fixed_header_image(
    client: u8,
    element_size: u8,
    bits: u8,
    n: nat,
    block: nat,
    checksum: nat,
) -> Seq<u8> {
    seq!['F' as u8, 'A' as u8, 'H' as u8, 'D' as u8, 0u8, client, element_size, bits] + le_bytes(
        n,
        8,
    ) + le_bytes(block, 8) + le_bytes(checksum, 4)
}

/// The data block of a fixed array: `FADB`, version 0, the client, the address of the
/// header, the elements.
pub open spec fn fixed_block_image(client: u8, header: nat, elements: Seq<u8>) -> Seq<u8> {
    seq!['F' as u8, 'A' as u8, 'D' as u8, 'B' as u8, 0u8, client] + le_bytes(header, 8) + elements
}

/// Whether a file holds a fixed array at `addr` with these elements.
pub open spec fn holds_fixed_array(
    file: Seq<u8>,
    addr: u64,
    client: u8,
    element_size: u8,
    n: nat,
    elements: Seq<u8>,
) -> bool {
    exists|bits: u8, block: u64, checksum: nat|
        {
            &&& block != u64::MAX
            &&& held(
                file,
                addr as int,
                #[trigger] fixed_header_image(
                    client,
                    element_size,
                    bits,
                    n,
                    block as nat,
                    checksum,
                ),
            )
            &&& held(file, block as int, fixed_block_image(client, addr as nat, elements))
        }
}

/// What the header and the data block of a fixed array say.
pub proof fn lemma_fixed_array(
    file: Seq<u8>,
    addr: u64,
    client: u8,
    element_size: u8,
    n: nat,
    elements: Seq<u8>,
) -> (array: FixedArray)
    requires
        file.len() <= usize::MAX,
        holds_fixed_array(file, addr, client, element_size, n, elements),
        n <= usize::MAX,
    ensures
        fixed_array_at(file, addr as int) == Ok::<Option<FixedArray>, ErrorKind>(Some(array)),
        array.n == n,
        array.element_size == element_size,
        array.client_id == client,
        held(file, array.start as int, elements),
{
    let (bits, block, checksum) = choose|bits: u8, block: u64, checksum: nat|
        {
            &&& block != u64::MAX
            &&& held(
                file,
                addr as int,
                #[trigger] fixed_header_image(
                    client,
                    element_size,
                    bits,
                    n,
                    block as nat,
                    checksum,
                ),
            )
            &&& held(file, block as int, fixed_block_image(client, addr as nat, elements))
        };
    lemma_pow256_values();
    let a = seq!['F' as u8, 'A' as u8, 'H' as u8, 'D' as u8, 0u8, client, element_size, bits];
    let p = addr as int;
    let b = le_bytes(n, 8);
    let c = le_bytes(block as nat, 8);
    let d = le_bytes(checksum, 4);
    lemma_le_bytes_len(n, 8);
    lemma_le_bytes_len(block as nat, 8);
    lemma_le_bytes_len(checksum, 4);
    lemma_held_parts(file, p, a + b + c, d);
    lemma_held_parts(file, p, a + b, c);
    lemma_held_parts(file, p, a, b);
    lemma_held_number(file, p + 8, n, 8);
    lemma_held_number(file, p + 16, block as nat, 8);
    lemma_held_bytes(file, p, a);
    assert(a[0] == file[p + 0] && a[1] == file[p + 1] && a[2] == file[p + 2] && a[3] == file[p + 3]
        && a[4] == file[p + 4] && a[6] == file[p + 6]);
    let q = block as int;
    let e = seq!['F' as u8, 'A' as u8, 'D' as u8, 'B' as u8, 0u8, client];
    let f = le_bytes(addr as nat, 8);
    lemma_le_bytes_len(addr as nat, 8);
    lemma_held_parts(file, q, e + f, elements);
    lemma_held_parts(file, q, e, f);
    lemma_held_bytes(file, q, e);
    assert(e[0] == file[q + 0] && e[1] == file[q + 1] && e[2] == file[q + 2] && e[3] == file[q + 3]
        && e[4] == file[q + 4] && e[5] == file[q + 5]);
    fixed_array_at(file, addr as int)->Ok_0->0
}

/// The bytes of an element of a fixed array.
pub open spec fn fixed_element(s: Stored, filtered: bool) -> Seq<u8> {
    if filtered {
        le_bytes(s.address as nat, 8) + le_bytes(s.size as nat, 8) + le_bytes(
            s.filter_mask as nat,
            4,
        )
    } else {
        le_bytes(s.address as nat, 8)
    }
}

/// The size of an element of a fixed array.
pub open spec fn fixed_element_size(filtered: bool) -> u8 {
    if filtered {
        20
    } else {
        8
    }
}

pub proof fn lemma_fixed_records(
    file: Seq<u8>,
    array: FixedArray,
    elements: Seq<u8>,
    stored: Seq<Stored>,
    filtered: bool,
    chunk_dims: Seq<u64>,
    unfiltered_size: usize,
    k: nat,
)
    requires
        array.element_size == fixed_element_size(filtered),
        array.client_id == 0 <==> !filtered,
        held(file, array.start as int, elements),
        runs(elements, stored.len(), array.element_size),
        forall|i: int|
            0 <= i < stored.len() ==> piece(elements, i, array.element_size) == fixed_element(
                #[trigger] stored[i],
                filtered,
            ),
        !filtered ==> forall|i: int|
            0 <= i < stored.len() ==> (#[trigger] stored[i]).size == unfiltered_size
                && stored[i].filter_mask == 0,
        chunk_dims.len() > 0,
        k <= stored.len(),
    ensures
        array.records(file, k, chunk_dims.len(), chunk_dims, unfiltered_size) == Ok::<
            Seq<RecordModel>,
            ErrorKind,
        >(kept(stored, |i: int| grid_offsets(array.n, chunk_dims, i), k)),
    decreases k,
{
    if k > 0 {
        let i = k - 1;
        lemma_fixed_records(
            file,
            array,
            elements,
            stored,
            filtered,
            chunk_dims,
            unfiltered_size,
            i as nat,
        );
        let size = array.element_size;
        let s = stored[i];
        let e = array.at(i);
        let part = fixed_element(s, filtered);
        lemma_piece(elements, stored.len(), size, i);
        assert(piece(elements, i, size) == part);
        assert(held(elements, i * size, part));
        lemma_held_part(file, array.start as int, elements, i * size, part);
        lemma_pow256_values();
        let a = le_bytes(s.address as nat, 8);
        lemma_le_bytes_len(s.address as nat, 8);
        if filtered {
            let b = le_bytes(s.size as nat, 8);
            let c = le_bytes(s.filter_mask as nat, 4);
            lemma_le_bytes_len(s.size as nat, 8);
            lemma_held_parts(file, e, a + b, c);
            lemma_held_parts(file, e, a, b);
            lemma_held_number(file, e + 8, s.size as nat, 8);
            lemma_held_number(file, e + 16, s.filter_mask as nat, 4);
        }
        lemma_held_number(file, e, s.address as nat, 8);
        assert(array.whole(file, i));
    }
}

/// A fixed array without filters lists chunks that are as large as a chunk is and skip no
/// filter: those whose address is there, in order, each on the grid of the chunk shape.
pub proof fn law_unfiltered_fixed_array(
    file: &[u8],
    header: u64,
    chunk_dims: &[u64],
    chunk_bytes: usize,
    addresses: Seq<u64>,
    elements: Seq<u8>,
    r: Result<Vec<ChunkRecord>, OxiH5Error>,
)
    requires
        chunk_dims@.len() > 0,
        chunk_bytes <= u32::MAX,
        addresses.len() <= usize::MAX,
        holds_fixed_array(file@, header, 0, 8, addresses.len(), elements),
        runs(elements, addresses.len(), 8),
        forall|i: int|
            0 <= i < addresses.len() ==> piece(elements, i, 8) == le_bytes(
                #[trigger] addresses[i] as nat,
                8,
            ),
        call_ensures(
            parse_fixed_array_v4,
            (file, header, chunk_dims@.len() as usize, chunk_dims, chunk_bytes),
            r,
        ),
    ensures
        outcomes(r) == Ok::<Seq<RecordModel>, ErrorKind>(
            kept(
                Seq::new(
                    addresses.len(),
                    |i: int|
                        Stored { address: addresses[i], size: chunk_bytes as u32, filter_mask: 0 },
                ),
                |i: int| grid_offsets(addresses.len(), chunk_dims@, i),
                addresses.len(),
            ),
        ),
{
    let stored = Seq::new(
        addresses.len(),
        |i: int| Stored { address: addresses[i], size: chunk_bytes as u32, filter_mask: 0 },
    );
    assert(file.len() <= usize::MAX);
    assert(chunk_dims.len() <= usize::MAX);
    let array = lemma_fixed_array(file@, header, 0, 8, addresses.len(), elements);
    assert forall|i: int| 0 <= i < stored.len() implies piece(elements, i, 8) == fixed_element(
        #[trigger] stored[i],
        false,
    ) by {
        assert(stored[i].address == addresses[i]);
    }
    lemma_fixed_records(
        file@,
        array,
        elements,
        stored,
        false,
        chunk_dims@,
        chunk_bytes,
        addresses.len(),
    );
}

/// A fixed array with filters lists chunks with the sizes and the filter masks that it
/// says: those whose address is there, in order, each on the grid of the chunk shape.
pub proof fn law_filtered_fixed_array(
    file: &[u8],
    header: u64,
    chunk_dims: &[u64],
    chunk_bytes: usize,
    stored: Seq<Stored>,
    elements: Seq<u8>,
    r: Result<Vec<ChunkRecord>, OxiH5Error>,
)
    requires
        chunk_dims@.len() > 0,
        stored.len() <= usize::MAX,
        holds_fixed_array(file@, header, 1, 20, stored.len(), elements),
        runs(elements, stored.len(), 20),
        forall|i: int|
            0 <= i < stored.len() ==> piece(elements, i, 20) == fixed_element(
                #[trigger] stored[i],
                true,
            ),
        call_ensures(
            parse_fixed_array_v4,
            (file, header, chunk_dims@.len() as usize, chunk_dims, chunk_bytes),
            r,
        ),
    ensures
        outcomes(r) == Ok::<Seq<RecordModel>, ErrorKind>(
            kept(
                stored,
                |i: int| grid_offsets(stored.len(), chunk_dims@, i),
                stored.len(),
            ),
        ),
{
    assert(file.len() <= usize::MAX);
    assert(chunk_dims.len() <= usize::MAX);
    let array = lemma_fixed_array(file@, header, 1, 20, stored.len(), elements);
    lemma_fixed_records(
        file@,
        array,
        elements,
        stored,
        true,
        chunk_dims@,
        chunk_bytes,
        stored.len(),
    );
}

/// Along one dimension the chunks of a fixed array follow each other.
pub proof fn law_line_of_chunks(n: nat, chunk: u64, i: int)
    requires
        0 <= i < n,
        i * chunk <= u64::MAX,
    ensures
        grid_offsets(n, seq![chunk], i) == seq![(i * chunk) as u64],
{
    let dims = seq![chunk];
    assert(grid_stride(n, 1, 0) == 1);
    assert(grid_rest(n, 1, i, 0) == i);
    assert(grid_coord(n, 1, i, 0) == i);
    assert(0 <= i * chunk) by (nonlinear_arith)
        requires
            0 <= i,
            chunk >= 0,
    ;
    let found = grid_offsets(n, dims, i);
    vstd::arithmetic::div_mod::lemma_small_mod((i * chunk) as nat, 0x1_0000_0000_0000_0000);
    assert(found[0] == (i * chunk) as u64);
    assert(found =~= seq![(i * chunk) as u64]);
}

/// The coordinates of a chunk, `width` bytes each.
pub open spec fn coordinates_image(offsets: Seq<u64>, width: nat) -> Seq<u8>
    decreases offsets.len(),
{
    if offsets.len() == 0 {
        Seq::empty()
    } else {
        coordinates_image(offsets.drop_last(), width) + le_bytes(offsets.last() as nat, width)
    }
}

proof fn lemma_coordinates_len(offsets: Seq<u64>, width: nat)
    ensures
        coordinates_image(offsets, width).len() == offsets.len() * width,
    decreases offsets.len(),
{
    let n = offsets.len() as int;
    if n > 0 {
        lemma_coordinates_len(offsets.drop_last(), width);
        lemma_le_bytes_len(offsets.last() as nat, width);
        assert((n - 1) * width + width == n * width) by (nonlinear_arith);
    } else {
        assert(0 * width == 0) by (nonlinear_arith);
    }
}

proof fn lemma_coordinate(offsets: Seq<u64>, width: nat, data: Seq<u8>, pos: int, d: int)
    requires
        held(data, pos, coordinates_image(offsets, width)),
        0 <= d < offsets.len(),
        offsets[d] < pow256(width),
    ensures
        le_at(data, pos + d * width, width) == offsets[d],
    decreases offsets.len(),
{
    let front = offsets.drop_last();
    lemma_coordinates_len(front, width);
    lemma_held_parts(
        data,
        pos,
        coordinates_image(front, width),
        le_bytes(offsets.last() as nat, width),
    );
    if d == offsets.len() - 1 {
        lemma_held_number(data, pos + d * width, offsets[d] as nat, width);
    } else {
        lemma_coordinate(front, width, data, pos, d);
    }
}

/// The bytes of an element of an extensible array: the address, the stored size, the
/// filter mask, the coordinates.
pub open spec fn extensible_element(record: RecordModel, width: nat) -> Seq<u8> {
    le_bytes(record.address as nat, 8) + le_bytes(record.size as nat, 4) + le_bytes(
        record.filter_mask as nat,
        4,
    ) + coordinates_image(record.offsets, width)
}

/// Whether bytes are elements of an extensible array for these chunks.
pub open spec fn extensible_elements(
    data: Seq<u8>,
    records: Seq<RecordModel>,
    ndims: nat,
    width: nat,
) -> bool {
    &&& ndims > 0
    &&& width == 1 || width == 2 || width == 4 || width == 8
    &&& runs(data, records.len(), 16 + ndims * width)
    &&& forall|i: int|
        0 <= i < records.len() ==> {
            &&& (#[trigger] records[i]).address != u64::MAX
            &&& records[i].offsets.len() == ndims
            &&& forall|d: int| 0 <= d < ndims ==> #[trigger] records[i].offsets[d] < pow256(width)
            &&& piece(data, i, 16 + ndims * width) == extensible_element(records[i], width)
        }
}

proof fn lemma_extensible_elements(
    data: Seq<u8>,
    records: Seq<RecordModel>,
    ndims: nat,
    width: nat,
    k: nat,
)
    requires
        extensible_elements(data, records, ndims, width),
        k <= records.len(),
    ensures
        first_elements(data, 16 + ndims * width, ndims, k) == Ok::<Seq<RecordModel>, ErrorKind>(
            records.take(k as int),
        ),
    decreases k,
{
    let size = 16 + ndims * width;
    if k > 0 {
        let i = k - 1;
        lemma_extensible_elements(data, records, ndims, width, i as nat);
        let record = records[i];
        assert(record.address != u64::MAX);
        let e = i * size;
        let part = extensible_element(record, width);
        lemma_piece(data, records.len(), size, i);
        assert(piece(data, i, size) == part);
        assert(held(data, e, part));
        let a = le_bytes(record.address as nat, 8);
        let b = le_bytes(record.size as nat, 4);
        let c = le_bytes(record.filter_mask as nat, 4);
        let d = coordinates_image(record.offsets, width);
        lemma_le_bytes_len(record.address as nat, 8);
        lemma_le_bytes_len(record.size as nat, 4);
        lemma_le_bytes_len(record.filter_mask as nat, 4);
        lemma_pow256_values();
        lemma_held_parts(data, e, a + b + c, d);
        lemma_held_parts(data, e, a + b, c);
        lemma_held_parts(data, e, a, b);
        lemma_held_number(data, e, record.address as nat, 8);
        lemma_held_number(data, e + 8, record.size as nat, 4);
        lemma_held_number(data, e + 12, record.filter_mask as nat, 4);
        assert(ndims * width > 0) by (nonlinear_arith)
            requires
                ndims > 0,
                width > 0,
        ;
        assert((size - 16) / ndims as int == width) by {
            let n = ndims as int;
            let w = width as int;
            vstd::arithmetic::div_mod::lemma_div_multiples_vanish(w, n);
            assert(n * w == w * n) by (nonlinear_arith);
        }
        assert(coordinate_width(size, ndims) == width);
        let rest = data.subrange(e + 16, e + size);
        lemma_coordinates_len(record.offsets, width);
        assert(rest == d);
        assert(held(rest, 0, d)) by {
            assert(rest.subrange(0, d.len() as int) =~= d);
        }
        let found = offsets_in(rest, ndims, width)->Ok_0;
        assert forall|j: int| 0 <= j < ndims implies #[trigger] found[j] == record.offsets[j] by {
            assert(records[i].offsets[j] < pow256(width));
            lemma_coordinate(record.offsets, width, rest, 0, j);
        }
        assert(found =~= record.offsets);
        assert(records.take(i).push(record) =~= records.take(k as int));
    } else {
        assert(records.take(0) =~= Seq::<RecordModel>::empty());
    }
}

proof fn lemma_all_extensible_elements(
    data: Seq<u8>,
    records: Seq<RecordModel>,
    ndims: nat,
    width: nat,
)
    requires
        extensible_elements(data, records, ndims, width),
    ensures
        elements_in(data, 16 + ndims * width, ndims) == Ok::<Seq<RecordModel>, ErrorKind>(records),
{
    let size = 16 + ndims * width;
    assert(ndims * width >= 0) by (nonlinear_arith);
    lemma_runs(data, records.len(), size);
    lemma_extensible_elements(data, records, ndims, width, records.len());
    assert(records.take(records.len() as int) =~= records);
}

/// The header of an extensible array: `EAHD`, version 0, the client, the size of an
/// element, a byte, the number of elements in the index block, more that is not needed,
/// the address of the index block, a checksum.
pub open spec fn extensible_header_image(
    client: u8,
    element_size: u8,
    bits: u8,
    inline: u8,
    more: Seq<u8>,
    block: nat,
    checksum: nat,
) -> Seq<u8> {
    seq![
        'E' as u8,
        'A' as u8,
        'H' as u8,
        'D' as u8,
        0u8,
        client,
        element_size,
        bits,
        inline,
    ] + more + le_bytes(block, 8) + le_bytes(checksum, 4)
}

/// The index block of an extensible array: `EAIB`, version 0, the client, the address of
/// the header, the elements, the pointers.
pub open spec fn index_block_image(
    client: u8,
    header: nat,
    elements: Seq<u8>,
    pointers: Seq<u8>,
) -> Seq<u8> {
    seq!['E' as u8, 'A' as u8, 'I' as u8, 'B' as u8, 0u8, client] + le_bytes(header, 8) + elements
        + pointers
}

/// A data block of an extensible array: `EADB`, version 0, the client, the address of the
/// header, the elements, a checksum.
pub open spec fn data_block_image(
    client: u8,
    header: nat,
    elements: Seq<u8>,
    checksum: nat,
) -> Seq<u8> {
    seq!['E' as u8, 'A' as u8, 'D' as u8, 'B' as u8, 0u8, client] + le_bytes(header, 8) + elements
        + le_bytes(checksum, 4)
}

/// An extensible array lists the chunks of its index block and then those of its data
/// block, which ends the file, each with its address, size, filter mask and coordinates.
pub proof fn law_extensible_array(
    file: &[u8],
    header: u64,
    ndims: usize,
    width: nat,
    client: u8,
    bits: u8,
    more: Seq<u8>,
    checksum: nat,
    index: u64,
    block: u64,
    first: Seq<RecordModel>,
    rest: Seq<RecordModel>,
    first_data: Seq<u8>,
    rest_data: Seq<u8>,
    r: Result<Vec<ChunkRecord>, OxiH5Error>,
)
    requires
        more.len() == 19,
        16 + ndims * width <= u8::MAX,
        first.len() <= u8::MAX,
        extensible_elements(first_data, first, ndims as nat, width),
        extensible_elements(rest_data, rest, ndims as nat, width),
        rest.len() > 0,
        held(
            file@,
            header as int,
            extensible_header_image(
                client,
                (16 + ndims * width) as u8,
                bits,
                first.len() as u8,
                more,
                index as nat,
                checksum,
            ),
        ),
        index != u64::MAX,
        held(
            file@,
            index as int,
            index_block_image(
                client,
                header as nat,
                first_data,
                le_bytes(block as nat, 8) + le_bytes(u64::MAX as nat, 8),
            ),
        ),
        held(
            file@,
            block as int,
            data_block_image(client, header as nat, rest_data, checksum),
        ),
        index < block,
        block + 18 + rest_data.len() == file@.len(),
        call_ensures(parse_extensible_array, (file, header, ndims), r),
    ensures
        outcomes(r) == Ok::<Seq<RecordModel>, ErrorKind>(first + rest),
{
    let s = file@;
    let size = (16 + ndims * width) as nat;
    assert(file.len() <= usize::MAX);
    lemma_all_extensible_elements(first_data, first, ndims as nat, width);
    lemma_all_extensible_elements(rest_data, rest, ndims as nat, width);
    lemma_pow256_values();
    let p = header as int;
    let a = seq![
        'E' as u8,
        'A' as u8,
        'H' as u8,
        'D' as u8,
        0u8,
        client,
        size as u8,
        bits,
        first.len() as u8,
    ];
    let at = le_bytes(index as nat, 8);
    let sum = le_bytes(checksum, 4);
    lemma_le_bytes_len(index as nat, 8);
    lemma_le_bytes_len(checksum, 4);
    lemma_held_parts(s, p, a + more + at, sum);
    lemma_held_parts(s, p, a + more, at);
    lemma_held_parts(s, p, a, more);
    lemma_held_number(s, p + 28, index as nat, 8);
    lemma_held_bytes(s, p, a);
    assert(a[0] == s[p + 0] && a[1] == s[p + 1] && a[2] == s[p + 2] && a[3] == s[p + 3] && a[4]
        == s[p + 4] && a[6] == s[p + 6] && a[8] == s[p + 8]);
    let q = index as int;
    let b = seq!['E' as u8, 'A' as u8, 'I' as u8, 'B' as u8, 0u8, client];
    let back = le_bytes(header as nat, 8);
    let one = le_bytes(block as nat, 8);
    let none = le_bytes(u64::MAX as nat, 8);
    lemma_le_bytes_len(header as nat, 8);
    lemma_le_bytes_len(block as nat, 8);
    lemma_le_bytes_len(u64::MAX as nat, 8);
    lemma_held_parts(s, q, b + back + first_data, one + none);
    lemma_held_parts(s, q, b + back, first_data);
    lemma_held_parts(s, q, b, back);
    lemma_held_bytes(s, q, b);
    assert(b[0] == s[q + 0] && b[1] == s[q + 1] && b[2] == s[q + 2] && b[3] == s[q + 3] && b[4]
        == s[q + 4]);
    let end = q + 14 + first_data.len();
    lemma_held_parts(s, end, one, none);
    lemma_held_number(s, end, block as nat, 8);
    lemma_held_number(s, end + 8, u64::MAX as nat, 8);
    let t = block as int;
    let c = seq!['E' as u8, 'A' as u8, 'D' as u8, 'B' as u8, 0u8, client];
    lemma_held_parts(s, t, c + back + rest_data, sum);
    lemma_held_parts(s, t, c + back, rest_data);
    lemma_held_parts(s, t, c, back);
    lemma_held_bytes(s, t, c);
    assert(c[0] == s[t + 0] && c[1] == s[t + 1] && c[2] == s[t + 2] && c[3] == s[t + 3] && c[4]
        == s[t + 4]);
    reveal_with_fuel(pointers_from, 3);
    let pointers = pointers_from(s, end, MAX_DATA_BLOCK_PTRS as nat, true);
    assert(pointers =~= seq![block]);
    assert(seq![block].drop_last() =~= Seq::<u64>::empty());
    reveal_with_fuel(direct, 2);
    reveal_with_fuel(indirect, 2);
    assert(direct(s, pointers) =~= seq![block]);
    assert(indirect(s, pointers) =~= Seq::<u64>::empty());
    let blocks = direct(s, pointers) + crate::ea_index::listed(s, indirect(s, pointers));
    assert(blocks =~= seq![block]);
    let bounds = blocks.push(index) + indirect(s, pointers);
    assert(bounds =~= seq![block, index]);
    assert(seq![block, index].drop_last() =~= seq![block]);
    reveal_with_fuel(least_beyond, 3);
    assert(least_beyond(bounds, t + 14, s.len() as int) == s.len());
    assert(size > 0);
    assert(rest_data.len() > 0) by (nonlinear_arith)
        requires
            rest_data.len() == rest.len() * size,
            rest.len() > 0,
            size > 0,
    ;
    assert(block_elements(s, block, size, bounds) == rest_data);
    reveal_with_fuel(block_records, 2);
    assert(block_records(s, blocks, 1, size, ndims as nat, bounds)->Ok_0 =~= rest);
    assert(s.subrange(q + 14, end) == first_data);
}

} // verus!
