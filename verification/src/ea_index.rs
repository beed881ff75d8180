//! Extensible arrays: the chunk index of datasets with one unlimited dimension.

use vstd::prelude::*;
use vstd::slice::slice_subrange;
use crate::bytes::{get_u32, get_u64, has_tag, le_at, tag_at, to_usize};
use crate::chunk_record::{offsets_in, parse_offsets, ChunkRecord, RecordModel};
use crate::dtype::views;
use crate::error::{outcome, outcomes, text, ErrorKind, OxiH5Error};

verus! {

/// At most this many block pointers of an index block are followed.
pub const MAX_DATA_BLOCK_PTRS: usize = 1024;

/// At most this many block pointers of a secondary block are followed.
pub const MAX_DB_PER_SECONDARY_BLOCK: usize = 512;

/// How many bytes of an element each chunk coordinate takes: the element is the
/// address (8), the stored size (4), the filter mask (4) and the coordinates.
pub open spec fn coordinate_width(element_size: nat, ndims: nat) -> nat {
    if ndims > 0 && element_size > 16 {
        ((element_size - 16) / ndims as int) as nat
    } else {
        0
    }
}

/// The records of the first `k` elements, the empty ones left out.
pub open spec fn first_elements(data: Seq<u8>, element_size: nat, ndims: nat, k: nat) -> Result<
    Seq<RecordModel>,
    ErrorKind,
>
    decreases k,
{
    if k == 0 {
        Ok(Seq::empty())
    } else {
        let e = (k - 1) * element_size;
        match first_elements(data, element_size, ndims, (k - 1) as nat) {
            Err(kind) => Err(kind),
            Ok(found) => {
                if le_at(data, e, 8) == u64::MAX {
                    Ok(found)
                } else {
                    match offsets_in(
                        data.subrange(e + 16, e + element_size),
                        ndims,
                        coordinate_width(element_size, ndims),
                    ) {
                        Err(kind) => Err(kind),
                        Ok(offsets) => Ok(
                            found.push(
                                RecordModel {
                                    address: le_at(data, e, 8) as u64,
                                    size: le_at(data, e + 8, 4) as u32,
                                    filter_mask: le_at(data, e + 12, 4) as u32,
                                    offsets,
                                },
                            ),
                        ),
                    }
                }
            },
        }
    }
}

/// The records of as many elements as `data` holds.
pub open spec fn elements_in(data: Seq<u8>, element_size: nat, ndims: nat) -> Result<
    Seq<RecordModel>,
    ErrorKind,
> {
    if element_size < 16 {
        Ok(Seq::empty())
    } else {
        first_elements(data, element_size, ndims, data.len() / element_size)
    }
}

proof fn lemma_elements_fail(data: Seq<u8>, element_size: nat, ndims: nat, i: nat, k: nat)
    requires
        i <= k,
        first_elements(data, element_size, ndims, i) is Err,
    ensures
        first_elements(data, element_size, ndims, k) == first_elements(
            data,
            element_size,
            ndims,
            i,
        ),
    decreases k,
{
    if i < k {
        lemma_elements_fail(data, element_size, ndims, i, (k - 1) as nat);
    }
}

/// Parse the elements that `data` holds.
fn parse_elements(data: &[u8], element_size: usize, ndims: usize) -> (r: Result<
    Vec<ChunkRecord>,
    OxiH5Error,
>)
    ensures
        outcomes(r) == elements_in(data@, element_size as nat, ndims as nat),
{
    let mut records: Vec<ChunkRecord> = Vec::new();
    proof {
        assert(views(records@) =~= Seq::empty());
    }
    if element_size < 16 {
        return Ok(records);
    }
    let width: usize = if ndims > 0 && element_size > 16 {
        (element_size - 16) / ndims
    } else {
        0
    };
    let count: usize = data.len() / element_size;
    proof {
        vstd::arithmetic::div_mod::lemma_fundamental_div_mod(
            data@.len() as int,
            element_size as int,
        );
        assert(count * element_size == element_size * count) by (nonlinear_arith);
    }
    for i in 0..count
        invariant
            element_size >= 16,
            width == coordinate_width(element_size as nat, ndims as nat),
            count == data@.len() / element_size as nat,
            count * element_size <= data@.len() <= usize::MAX,
            first_elements(data@, element_size as nat, ndims as nat, i as nat) == Ok::<
                Seq<RecordModel>,
                ErrorKind,
            >(views(records@)),
    {
        let ghost before = views(records@);
        proof {
            assert(i * element_size + element_size <= count * element_size) by (nonlinear_arith)
                requires
                    i + 1 <= count,
            ;
        }
        let e: usize = i * element_size;
        let address: u64 = get_u64(data, e);
        if address != u64::MAX {
            let size: u32 = get_u32(data, e + 8);
            let filter_mask: u32 = get_u32(data, e + 12);
            let offsets: Vec<u64> = match parse_offsets(
                slice_subrange(data, e + 16, e + element_size),
                ndims,
                width,
            ) {
                Ok(offsets) => offsets,
                Err(e) => {
                    proof {
                        lemma_elements_fail(
                            data@,
                            element_size as nat,
                            ndims as nat,
                            (i + 1) as nat,
                            count as nat,
                        );
                    }
                    return Err(e);
                },
            };
            records.push(ChunkRecord { address, size, filter_mask, offsets });
            proof {
                assert(views(records@) =~= before.push(
                    RecordModel { address, size, filter_mask, offsets: offsets@ },
                ));
            }
        }
    }
    Ok(records)
}

/// Whether a data block starts at `addr`.
pub open spec fn data_block_at(file: Seq<u8>, addr: u64) -> bool {
    addr + 4 <= file.len() && tag_at(file, addr as int, 'E', 'A', 'D', 'B')
}

/// Whether a secondary block starts at `addr`.
pub open spec fn secondary_block_at(file: Seq<u8>, addr: u64) -> bool {
    addr + 4 <= file.len() && tag_at(file, addr as int, 'E', 'A', 'S', 'B')
}

/// The block pointers from `pos` on, at most `left` of them, up to the first that
/// is undefined or points at no block.
pub open spec fn pointers_from(file: Seq<u8>, pos: int, left: nat, secondary: bool) -> Seq<u64>
    decreases left,
{
    let addr = le_at(file, pos, 8) as u64;
    if left == 0 || pos + 8 > file.len() || addr == u64::MAX {
        Seq::empty()
    } else if data_block_at(file, addr) || (secondary && secondary_block_at(file, addr)) {
        seq![addr] + pointers_from(file, pos + 8, (left - 1) as nat, secondary)
    } else {
        Seq::empty()
    }
}

fn is_data_block(file_data: &[u8], addr: u64) -> (r: bool)
    ensures
        r == data_block_at(file_data@, addr),
{
    assert(file_data.len() <= usize::MAX);
    match to_usize(addr) {
        Some(at) => file_data.len() >= 4 && at <= file_data.len() - 4 && has_tag(
            file_data,
            at,
            'E',
            'A',
            'D',
            'B',
        ),
        None => false,
    }
}

fn is_secondary_block(file_data: &[u8], addr: u64) -> (r: bool)
    ensures
        r == secondary_block_at(file_data@, addr),
{
    assert(file_data.len() <= usize::MAX);
    match to_usize(addr) {
        Some(at) => file_data.len() >= 4 && at <= file_data.len() - 4 && has_tag(
            file_data,
            at,
            'E',
            'A',
            'S',
            'B',
        ),
        None => false,
    }
}

/// Read block pointers from `pos` on.
fn scan_pointers(file_data: &[u8], pos: usize, limit: usize, secondary: bool) -> (r: Vec<u64>)
    requires
        pos <= file_data@.len(),
    ensures
        r@ == pointers_from(file_data@, pos as int, limit as nat, secondary),
{
    let mut found: Vec<u64> = Vec::new();
    let mut at: usize = pos;
    let mut left: usize = limit;
    let ghost all = pointers_from(file_data@, pos as int, limit as nat, secondary);
    proof {
        assert(found@ + all =~= all);
        assert(file_data.len() <= usize::MAX);
    }
    while left > 0
        invariant_except_break
            at <= file_data@.len() <= usize::MAX,
            found@ + pointers_from(file_data@, at as int, left as nat, secondary) == all,
        ensures
            found@ == all,
        decreases left,
    {
        let ghost before = found@;
        if file_data.len() - at < 8 {
            assert(before + Seq::empty() =~= before);
            break;
        }
        let addr: u64 = get_u64(file_data, at);
        if addr == u64::MAX {
            assert(before + Seq::empty() =~= before);
            break;
        }
        if !is_data_block(file_data, addr) && !(secondary && is_secondary_block(file_data, addr)) {
            assert(before + Seq::empty() =~= before);
            break;
        }
        found.push(addr);
        proof {
            let rest = pointers_from(file_data@, at + 8, (left - 1) as nat, secondary);
            assert(before + (seq![addr] + rest) =~= found@ + rest);
            assert(left == 1 ==> found@ + Seq::<u64>::empty() =~= found@);
        }
        at = at + 8;
        left = left - 1;
    }
    found
}

/// The data blocks that the secondary block at `addr` lists: `EASB`, version 0,
/// client, header address (8 bytes), block offset (8), the pointers.
pub open spec fn secondary_at(file: Seq<u8>, addr: u64) -> Result<Seq<u64>, ErrorKind> {
    if addr + 22 > file.len() || !tag_at(file, addr as int, 'E', 'A', 'S', 'B') || file[addr + 4]
        != 0 {
        Err(ErrorKind::Format)
    } else {
        Ok(pointers_from(file, addr + 22, MAX_DB_PER_SECONDARY_BLOCK as nat, false))
    }
}

/// Parse the secondary block at `sb_addr`.
fn parse_secondary_block(file_data: &[u8], sb_addr: u64) -> (r: Result<Vec<u64>, OxiH5Error>)
    ensures
        outcome(r) == secondary_at(file_data@, sb_addr),
{
    assert(file_data.len() <= usize::MAX);
    let base: usize = match to_usize(sb_addr) {
        Some(base) => base,
        None => {
            return Err(OxiH5Error::Format("EASB: address overflow".to_string()));
        },
    };
    if file_data.len() < 22 || base > file_data.len() - 22 {
        return Err(
            OxiH5Error::Format(
                text(
                    &[
                        "EASB at ",
                        &base.to_string(),
                        ": truncated (file len=",
                        &file_data.len().to_string(),
                        ")",
                    ],
                ),
            ),
        );
    }
    if !has_tag(file_data, base, 'E', 'A', 'S', 'B') {
        return Err(OxiH5Error::Format(text(&["EASB: bad signature at ", &base.to_string()])));
    }
    if file_data[base + 4] != 0 {
        return Err(
            OxiH5Error::Format(
                text(&["EASB: unsupported version ", &file_data[base + 4].to_string()]),
            ),
        );
    }
    Ok(scan_pointers(file_data, base + 22, MAX_DB_PER_SECONDARY_BLOCK, false))
}

/// The pointers to data blocks among `pointers`.
pub open spec fn direct(file: Seq<u8>, pointers: Seq<u64>) -> Seq<u64>
    decreases pointers.len(),
{
    if pointers.len() == 0 {
        Seq::empty()
    } else {
        let front = direct(file, pointers.drop_last());
        if data_block_at(file, pointers.last()) {
            front.push(pointers.last())
        } else {
            front
        }
    }
}

/// The pointers to secondary blocks among `pointers`.
pub open spec fn indirect(file: Seq<u8>, pointers: Seq<u64>) -> Seq<u64>
    decreases pointers.len(),
{
    if pointers.len() == 0 {
        Seq::empty()
    } else {
        let front = indirect(file, pointers.drop_last());
        if data_block_at(file, pointers.last()) {
            front
        } else {
            front.push(pointers.last())
        }
    }
}

/// The data blocks that the secondary blocks list, those that cannot be read
/// left out.
pub open spec fn listed(file: Seq<u8>, secondaries: Seq<u64>) -> Seq<u64>
    decreases secondaries.len(),
{
    if secondaries.len() == 0 {
        Seq::empty()
    } else {
        let front = listed(file, secondaries.drop_last());
        match secondary_at(file, secondaries.last()) {
            Ok(blocks) => front + blocks,
            Err(_) => front,
        }
    }
}

/// The least of `limit` and those of `bounds` that lie beyond `start`.
pub open spec fn least_beyond(bounds: Seq<u64>, start: int, limit: int) -> int
    decreases bounds.len(),
{
    if bounds.len() == 0 {
        limit
    } else {
        let least = least_beyond(bounds.drop_last(), start, limit);
        if start < bounds.last() < least {
            bounds.last() as int
        } else {
            least
        }
    }
}

/// Compute [`least_beyond`].
fn find_least_beyond(bounds: &[u64], start: usize, limit: usize) -> (r: usize)
    ensures
        r == least_beyond(bounds@, start as int, limit as int),
        r <= limit,
{
    let mut least: usize = limit;
    proof {
        assert(bounds@.take(0) =~= Seq::<u64>::empty());
    }
    for i in 0..bounds.len()
        invariant
            least == least_beyond(bounds@.take(i as int), start as int, limit as int),
            least <= limit,
    {
        proof {
            assert(bounds@.take(i + 1).drop_last() =~= bounds@.take(i as int));
        }
        if (start as u64) < bounds[i] && bounds[i] < least as u64 {
            least = bounds[i] as usize;
        }
    }
    proof {
        assert(bounds@.take(bounds@.len() as int) =~= bounds@);
    }
    least
}

/// The bytes of the elements of the data block at `addr`, where it can be read:
/// `EADB`, version 0, client, header address (8 bytes), then elements up to the
/// next known structure, less a checksum of 4 bytes.
pub open spec fn block_elements(
    file: Seq<u8>,
    addr: u64,
    element_size: nat,
    bounds: Seq<u64>,
) -> Seq<u8> {
    let start = addr + 14;
    let end = least_beyond(bounds, start, file.len() as int) - 4;
    if start >= file.len() || file[addr + 4] != 0 || element_size == 0 || end <= start {
        Seq::empty()
    } else {
        file.subrange(start, end)
    }
}

/// The records of the first `k` data blocks.
pub open spec fn block_records(
    file: Seq<u8>,
    blocks: Seq<u64>,
    k: nat,
    element_size: nat,
    ndims: nat,
    bounds: Seq<u64>,
) -> Result<Seq<RecordModel>, ErrorKind>
    decreases k,
{
    if k == 0 {
        Ok(Seq::empty())
    } else {
        match block_records(file, blocks, (k - 1) as nat, element_size, ndims, bounds) {
            Err(kind) => Err(kind),
            Ok(found) => match elements_in(
                block_elements(file, blocks[k - 1], element_size, bounds),
                element_size,
                ndims,
            ) {
                Err(kind) => Err(kind),
                Ok(more) => Ok(found + more),
            },
        }
    }
}

proof fn lemma_blocks_fail(
    file: Seq<u8>,
    blocks: Seq<u64>,
    i: nat,
    k: nat,
    element_size: nat,
    ndims: nat,
    bounds: Seq<u64>,
)
    requires
        i <= k,
        block_records(file, blocks, i, element_size, ndims, bounds) is Err,
    ensures
        block_records(file, blocks, k, element_size, ndims, bounds) == block_records(
            file,
            blocks,
            i,
            element_size,
            ndims,
            bounds,
        ),
    decreases k,
{
    if i < k {
        lemma_blocks_fail(file, blocks, i, (k - 1) as nat, element_size, ndims, bounds);
    }
}

/// The records behind an index block: those of the `inline` elements in the block
/// itself, then those of the data blocks whose pointers follow.
pub open spec fn index_block_records(
    file: Seq<u8>,
    ib: u64,
    element_size: nat,
    inline: nat,
    ndims: nat,
) -> Result<Seq<RecordModel>, ErrorKind> {
    let start = ib + 14;
    let end = start + inline * element_size;
    if end > file.len() {
        Err(ErrorKind::Format)
    } else {
        let pointers = pointers_from(file, end, MAX_DATA_BLOCK_PTRS as nat, true);
        let secondaries = indirect(file, pointers);
        let blocks = direct(file, pointers) + listed(file, secondaries);
        let bounds = blocks.push(ib) + secondaries;
        match elements_in(file.subrange(start, end), element_size, ndims) {
            Err(kind) => Err(kind),
            Ok(own) => match block_records(
                file,
                blocks,
                blocks.len(),
                element_size,
                ndims,
                bounds,
            ) {
                Err(kind) => Err(kind),
                Ok(more) => Ok(own + more),
            },
        }
    }
}

/// The chunk records of the extensible array at `addr`.
///
/// The header is `EAHD`, version 0, client, element size, one byte, the number
/// of elements in the index block, and the address of the index block at 28, all
/// ones where none was allocated. The index block is `EAIB`, version 0, client,
/// the address of the header (8 bytes), elements, pointers to blocks.
pub open spec fn extensible_array_records(file: Seq<u8>, addr: int, ndims: nat) -> Result<
    Seq<RecordModel>,
    ErrorKind,
> {
    if addr + 40 > file.len() || !tag_at(file, addr, 'E', 'A', 'H', 'D') || file[addr + 4] != 0 {
        Err(ErrorKind::Format)
    } else {
        let ib = le_at(file, addr + 28, 8) as u64;
        if ib == u64::MAX {
            Ok(Seq::empty())
        } else if ib + 14 > file.len() || !tag_at(file, ib as int, 'E', 'A', 'I', 'B') || file[ib
            + 4] != 0 {
            Err(ErrorKind::Format)
        } else {
            index_block_records(file, ib, file[addr + 6] as nat, file[addr + 8] as nat, ndims)
        }
    }
}

/// Append the data blocks that the secondary blocks list.
fn resolve_secondaries(file_data: &[u8], secondaries: &[u64], blocks: &mut Vec<u64>)
    ensures
        final(blocks)@ == old(blocks)@ + listed(file_data@, secondaries@),
{
    let ghost before = blocks@;
    proof {
        assert(secondaries@.take(0) =~= Seq::<u64>::empty());
        assert(before + Seq::<u64>::empty() =~= before);
    }
    for i in 0..secondaries.len()
        invariant
            blocks@ == before + listed(file_data@, secondaries@.take(i as int)),
    {
        let ghost so_far = listed(file_data@, secondaries@.take(i as int));
        proof {
            assert(secondaries@.take(i + 1).drop_last() =~= secondaries@.take(i as int));
        }
        if let Ok(mut more) = parse_secondary_block(file_data, secondaries[i]) {
            proof {
                assert(before + so_far + more@ =~= before + (so_far + more@));
            }
            blocks.append(&mut more);
        }
    }
    proof {
        assert(secondaries@.take(secondaries@.len() as int) =~= secondaries@);
    }
}

/// Append the records of the data block at `addr`.
fn parse_data_block(
    file_data: &[u8],
    addr: u64,
    element_size: usize,
    ndims: usize,
    bounds: &[u64],
) -> (r: Result<Vec<ChunkRecord>, OxiH5Error>)
    ensures
        outcomes(r) == elements_in(
            block_elements(file_data@, addr, element_size as nat, bounds@),
            element_size as nat,
            ndims as nat,
        ),
{
    assert(file_data.len() <= usize::MAX);
    let none: Vec<ChunkRecord> = Vec::new();
    proof {
        assert(views(none@) =~= Seq::empty());
        reveal_with_fuel(first_elements, 1);
        assert(element_size >= 16 ==> 0nat / element_size as nat == 0);
    }
    let at: usize = match to_usize(addr) {
        Some(at) => at,
        None => {
            return Ok(none);
        },
    };
    if file_data.len() < 14 || at >= file_data.len() - 14 || file_data[at + 4] != 0 || element_size
        == 0 {
        return Ok(none);
    }
    let start: usize = at + 14;
    let next: usize = find_least_beyond(bounds, start, file_data.len());
    if next < 4 || next - 4 <= start {
        return Ok(none);
    }
    parse_elements(slice_subrange(file_data, start, next - 4), element_size, ndims)
}

/// Parse the extensible array at `header_address`.
pub fn parse_extensible_array(file_data: &[u8], header_address: u64, ndims: usize) -> (r: Result<
    Vec<ChunkRecord>,
    OxiH5Error,
>)
    ensures
        outcomes(r) == extensible_array_records(file_data@, header_address as int, ndims as nat),
{
    assert(file_data.len() <= usize::MAX);
    let base: usize = match to_usize(header_address) {
        Some(base) => base,
        None => {
            return Err(OxiH5Error::Format("EA: header address overflow".to_string()));
        },
    };
    if file_data.len() < 40 || base > file_data.len() - 40 {
        return Err(
            OxiH5Error::Format(
                text(
                    &[
                        "EA: header at ",
                        &base.to_string(),
                        " exceeds file length ",
                        &file_data.len().to_string(),
                    ],
                ),
            ),
        );
    }
    if !has_tag(file_data, base, 'E', 'A', 'H', 'D') {
        return Err(OxiH5Error::Format(text(&["EA: bad header signature at ", &base.to_string()])));
    }
    if file_data[base + 4] != 0 {
        return Err(
            OxiH5Error::Format(
                text(&["EA: unsupported header version ", &file_data[base + 4].to_string()]),
            ),
        );
    }
    let element_size: usize = file_data[base + 6] as usize;
    let inline: usize = file_data[base + 8] as usize;
    let idx_blk_addr: u64 = get_u64(file_data, base + 28);
    if idx_blk_addr == u64::MAX {
        let none: Vec<ChunkRecord> = Vec::new();
        proof {
            assert(views(none@) =~= Seq::empty());
        }
        return Ok(none);
    }
    let ib: usize = match to_usize(idx_blk_addr) {
        Some(ib) => ib,
        None => {
            return Err(OxiH5Error::Format("EA: index block address overflow".to_string()));
        },
    };
    if file_data.len() < 14 || ib > file_data.len() - 14 {
        return Err(
            OxiH5Error::Format(
                text(
                    &[
                        "EA: index block at ",
                        &ib.to_string(),
                        " truncated (file len=",
                        &file_data.len().to_string(),
                        ")",
                    ],
                ),
            ),
        );
    }
    if !has_tag(file_data, ib, 'E', 'A', 'I', 'B') {
        return Err(
            OxiH5Error::Format(text(&["EA: bad index block signature at ", &ib.to_string()])),
        );
    }
    if file_data[ib + 4] != 0 {
        return Err(
            OxiH5Error::Format(
                text(&["EA: unsupported index block version ", &file_data[ib + 4].to_string()]),
            ),
        );
    }
    parse_index_block(file_data, idx_blk_addr, element_size, inline, ndims)
}

/// Parse the index block at `ib`.
fn parse_index_block(
    file_data: &[u8],
    ib: u64,
    element_size: usize,
    inline: usize,
    ndims: usize,
) -> (r: Result<Vec<ChunkRecord>, OxiH5Error>)
    requires
        ib + 14 <= file_data@.len(),
        element_size <= 255,
        inline <= 255,
    ensures
        outcomes(r) == index_block_records(
            file_data@,
            ib,
            element_size as nat,
            inline as nat,
            ndims as nat,
        ),
{
    let ghost file = file_data@;
    assert(file_data.len() <= usize::MAX);
    let start: usize = ib as usize + 14;
    assert(inline * element_size <= 255 * 255) by (nonlinear_arith)
        requires
            inline <= 255,
            element_size <= 255,
    ;
    if inline * element_size > file_data.len() - start {
        return Err(
            OxiH5Error::Format("EA: index block inline elements truncated".to_string()),
        );
    }
    let end: usize = start + inline * element_size;
    let mut records: Vec<ChunkRecord> = parse_elements(
        slice_subrange(file_data, start, end),
        element_size,
        ndims,
    )?;
    let ghost own = views(records@);

    let pointers: Vec<u64> = scan_pointers(file_data, end, MAX_DATA_BLOCK_PTRS, true);
    let mut blocks: Vec<u64> = Vec::new();
    let mut secondaries: Vec<u64> = Vec::new();
    proof {
        assert(pointers@.take(0) =~= Seq::<u64>::empty());
    }
    for i in 0..pointers.len()
        invariant
            file == file_data@,
            blocks@ == direct(file, pointers@.take(i as int)),
            secondaries@ == indirect(file, pointers@.take(i as int)),
    {
        proof {
            assert(pointers@.take(i + 1).drop_last() =~= pointers@.take(i as int));
        }
        if is_data_block(file_data, pointers[i]) {
            blocks.push(pointers[i]);
        } else {
            secondaries.push(pointers[i]);
        }
    }
    proof {
        assert(pointers@.take(pointers@.len() as int) =~= pointers@);
    }
    resolve_secondaries(file_data, &secondaries, &mut blocks);

    let mut bounds: Vec<u64> = vstd::slice::slice_to_vec(&blocks);
    bounds.push(ib);
    let mut more: Vec<u64> = vstd::slice::slice_to_vec(&secondaries);
    bounds.append(&mut more);

    proof {
        assert(own + Seq::<RecordModel>::empty() =~= own);
    }
    for i in 0..blocks.len()
        invariant
            file == file_data@,
            file.len() <= usize::MAX,
            index_block_records(file, ib, element_size as nat, inline as nat, ndims as nat) == (
            match block_records(
                file,
                blocks@,
                blocks@.len(),
                element_size as nat,
                ndims as nat,
                bounds@,
            ) {
                Err(kind) => Err(kind),
                Ok(found) => Ok(own + found),
            }),
            block_records(file, blocks@, i as nat, element_size as nat, ndims as nat, bounds@) is Ok,
            views(records@) == own + block_records(
                file,
                blocks@,
                i as nat,
                element_size as nat,
                ndims as nat,
                bounds@,
            )->Ok_0,
    {
        let ghost before = views(records@);
            match parse_data_block(file_data, blocks[i], element_size, ndims, &bounds) {
                Ok(mut found) => {
                    let ghost so_far = block_records(
                        file,
                        blocks@,
                        i as nat,
                        element_size as nat,
                        ndims as nat,
                        bounds@,
                    )->Ok_0;
                    let ghost new = views(found@);
                    records.append(&mut found);
                    proof {
                        assert(views(records@) =~= before + new);
                        assert(own + so_far + new =~= own + (so_far + new));
                    }
                },
                Err(e) => {
                    proof {
                        lemma_blocks_fail(
                            file,
                            blocks@,
                            (i + 1) as nat,
                            blocks@.len(),
                            element_size as nat,
                            ndims as nat,
                            bounds@,
                        );
                    }
                    return Err(e);
                },
            }
    }
    Ok(records)
}

} // verus!
