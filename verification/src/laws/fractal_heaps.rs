//! Fractal heaps: where their objects lie, and the links that groups keep in them.

use vstd::arithmetic::power2::{lemma_pow2_pos, lemma_pow2_unfold, pow2};
use vstd::prelude::*;
use crate::btree_v2::{records_of, tree_at};
use crate::bytes::{le_at, le_bytes, lemma_le_bytes_len, lemma_pow256_values, pow256, tag_at};
use crate::error::{outcomes, ErrorKind, OxiH5Error};
use crate::fractal_heap::{
    direct_place, find_object, halvings, heap_at, object_place, parse_heap, place_in, row_of, Heap,
};
use crate::group::MSG_LINK_INFO;
use crate::header::{messages_at, MessageModel};
use crate::laws::link_paths::LinkForm;
use crate::laws::messages::{lemma_link_back, link_fits, link_image};
use crate::laws::trees::{is_width_of, law_width};
use crate::link_msg::{LinkModel, ParsedLink};
use crate::links::{heap_links, links_in, list_new_style_links, recorded_link, RECORD_LINK_NAME};
use crate::roundtrip::held::{held, lemma_held_bytes, lemma_held_number, lemma_held_parts};
use crate::roundtrip::values::lemma_try_each_is;

verus! {

/// The size of the blocks in a row: the first two rows have blocks of the first size, and
/// each row behind them has blocks twice as large as the row before.
pub open spec fn block_size(start: int, row: nat) -> int {
    if row == 0 {
        start
    } else {
        start * pow2((row - 1) as nat)
    }
}

/// Where a row starts: behind `width` blocks of each row before it.
pub open spec fn row_start(start: int, width: int, row: nat) -> int
    decreases row,
{
    if row == 0 {
        0
    } else {
        row_start(start, width, (row - 1) as nat) + width * block_size(start, (row - 1) as nat)
    }
}

proof fn lemma_sizes(start: int, row: nat)
    requires
        start > 0,
    ensures
        block_size(start, row) > 0,
        row > 0 ==> block_size(start, row + 1) == 2 * block_size(start, row),
        row == 0 ==> block_size(start, row + 1) == block_size(start, row),
{
    vstd::arithmetic::power2::lemma2_to64();
    if row == 0 {
        assert(start * 1 == start);
    } else {
        let a = pow2((row - 1) as nat) as int;
        let b = pow2(row) as int;
        lemma_pow2_pos((row - 1) as nat);
        lemma_pow2_unfold(row);
        assert(start * a > 0 && start * b == 2 * (start * a)) by (nonlinear_arith)
            requires
                start > 0,
                a > 0,
                b == 2 * a,
        ;
    }
}

proof fn lemma_rows_ascend(start: int, width: int, a: nat, b: nat)
    requires
        start > 0,
        width > 0,
        a < b,
    ensures
        row_start(start, width, a) + width * block_size(start, a) <= row_start(start, width, b),
        width * block_size(start, a) > 0,
    decreases b,
{
    lemma_sizes(start, a);
    lemma_sizes(start, (b - 1) as nat);
    let s = block_size(start, a);
    let t = block_size(start, (b - 1) as nat);
    assert(width * s > 0 && width * t > 0) by (nonlinear_arith)
        requires
            width > 0,
            s > 0,
            t > 0,
    ;
    if a < b - 1 {
        lemma_rows_ascend(start, width, a, (b - 1) as nat);
    }
}

proof fn lemma_row(off: int, start: int, width: int, at: nat, row: nat)
    requires
        start > 0,
        width > 0,
        at <= row,
        row_start(start, width, row) <= off < row_start(start, width, row + 1),
    ensures
        row_of(off, at, row_start(start, width, at), block_size(start, at), width) == (
            row,
            row_start(start, width, row),
            block_size(start, row),
        ),
    decreases row - at,
{
    lemma_rows_ascend(start, width, at, at + 1);
    if at < row {
        lemma_rows_ascend(start, width, at, row);
        lemma_sizes(start, at);
        lemma_row(off, start, width, at + 1, row);
    }
}

/// Where the offset of a row's block starts.
pub open spec fn block_start(heap: Heap, row: nat, col: nat) -> int {
    row_start(heap.start as int, heap.width as int, row) + col * block_size(heap.start as int, row)
}

/// The bytes of the header of a heap without filters.
pub open spec fn heap_image(heap: Heap, flags: u8, a: Seq<u8>, b: Seq<u8>, c: Seq<u8>) -> Seq<u8> {
    seq!['F' as u8, 'R' as u8, 'H' as u8, 'P' as u8, 0u8] + le_bytes(heap.id_len as nat, 2)
        + le_bytes(0, 2) + seq![flags] + le_bytes(heap.max_object as nat, 4) + a + le_bytes(
        heap.width as nat,
        2,
    ) + le_bytes(heap.start as nat, 8) + le_bytes(heap.max_direct as nat, 8) + le_bytes(
        heap.offset_bits as nat,
        2,
    ) + b + le_bytes(heap.root as nat, 8) + le_bytes(heap.rows as nat, 2) + c
}

/// The header of a heap is read as what is written in it.
pub proof fn law_heap_header(
    file: &[u8],
    address: u64,
    heap: Heap,
    flags: u8,
    a: Seq<u8>,
    b: Seq<u8>,
    c: Seq<u8>,
    r: Result<Heap, OxiH5Error>,
)
    requires
        held(file@, address as int, heap_image(heap, flags, a, b, c)),
        a.len() == 96,
        b.len() == 2,
        c.len() == 4,
        heap.wf(),
        call_ensures(parse_heap, (file, address), r),
    ensures
        r is Ok,
        r->Ok_0 == heap,
{
    let f = file@;
    let at = address as int;
    let front = heap_front(heap, flags) + a;
    let back = heap_back(heap, b) + c;
    assert(heap_image(heap, flags, a, b, c) =~= front + back);
    lemma_held_parts(f, at, front, back);
    lemma_heap_front_len(heap, flags);
    lemma_held_parts(f, at, heap_front(heap, flags), a);
    lemma_held_parts(f, at + 110, heap_back(heap, b), c);
    lemma_heap_front(f, at, heap, flags);
    lemma_heap_back(f, at + 110, heap, b);
}

spec fn heap_front(heap: Heap, flags: u8) -> Seq<u8> {
    seq!['F' as u8, 'R' as u8, 'H' as u8, 'P' as u8, 0u8] + le_bytes(heap.id_len as nat, 2)
        + le_bytes(0, 2) + seq![flags] + le_bytes(heap.max_object as nat, 4)
}

spec fn heap_back(heap: Heap, b: Seq<u8>) -> Seq<u8> {
    le_bytes(heap.width as nat, 2) + le_bytes(heap.start as nat, 8) + le_bytes(
        heap.max_direct as nat,
        8,
    ) + le_bytes(heap.offset_bits as nat, 2) + b + le_bytes(heap.root as nat, 8) + le_bytes(
        heap.rows as nat,
        2,
    )
}

proof fn lemma_heap_front_len(heap: Heap, flags: u8)
    ensures
        heap_front(heap, flags).len() == 14,
{
    lemma_le_bytes_len(heap.id_len as nat, 2);
    lemma_le_bytes_len(0, 2);
    lemma_le_bytes_len(heap.max_object as nat, 4);
}

proof fn lemma_heap_front(f: Seq<u8>, at: int, heap: Heap, flags: u8)
    requires
        held(f, at, heap_front(heap, flags)),
    ensures
        tag_at(f, at, 'F', 'R', 'H', 'P'),
        f[at + 4] == 0,
        le_at(f, at + 5, 2) == heap.id_len,
        le_at(f, at + 7, 2) == 0,
        le_at(f, at + 10, 4) == heap.max_object,
{
    let a = seq!['F' as u8, 'R' as u8, 'H' as u8, 'P' as u8, 0u8];
    let b = le_bytes(heap.id_len as nat, 2);
    let c = le_bytes(0, 2);
    let d = seq![flags];
    let e = le_bytes(heap.max_object as nat, 4);
    lemma_pow256_values();
    lemma_le_bytes_len(heap.id_len as nat, 2);
    lemma_le_bytes_len(0, 2);
    lemma_held_parts(f, at, a + b + c + d, e);
    lemma_held_parts(f, at, a + b + c, d);
    lemma_held_parts(f, at, a + b, c);
    lemma_held_parts(f, at, a, b);
    lemma_held_bytes(f, at, a);
    assert(a[0] == f[at + 0] && a[1] == f[at + 1] && a[2] == f[at + 2] && a[3] == f[at + 3] && a[4]
        == f[at + 4]);
    lemma_held_number(f, at + 5, heap.id_len as nat, 2);
    lemma_held_number(f, at + 7, 0, 2);
    lemma_held_number(f, at + 10, heap.max_object as nat, 4);
}

proof fn lemma_heap_back(f: Seq<u8>, at: int, heap: Heap, b: Seq<u8>)
    requires
        held(f, at, heap_back(heap, b)),
        b.len() == 2,
    ensures
        heap_back(heap, b).len() == 32,
        le_at(f, at, 2) == heap.width,
        le_at(f, at + 2, 8) == heap.start,
        le_at(f, at + 10, 8) == heap.max_direct,
        le_at(f, at + 18, 2) == heap.offset_bits,
        le_at(f, at + 22, 8) == heap.root,
        le_at(f, at + 30, 2) == heap.rows,
{
    let p = le_bytes(heap.width as nat, 2);
    let q = le_bytes(heap.start as nat, 8);
    let r = le_bytes(heap.max_direct as nat, 8);
    let s = le_bytes(heap.offset_bits as nat, 2);
    let t = le_bytes(heap.root as nat, 8);
    let u = le_bytes(heap.rows as nat, 2);
    lemma_pow256_values();
    lemma_le_bytes_len(heap.width as nat, 2);
    lemma_le_bytes_len(heap.start as nat, 8);
    lemma_le_bytes_len(heap.max_direct as nat, 8);
    lemma_le_bytes_len(heap.offset_bits as nat, 2);
    lemma_le_bytes_len(heap.root as nat, 8);
    lemma_le_bytes_len(heap.rows as nat, 2);
    lemma_held_parts(f, at, p + q + r + s + b + t, u);
    lemma_held_parts(f, at, p + q + r + s + b, t);
    lemma_held_parts(f, at, p + q + r + s, b);
    lemma_held_parts(f, at, p + q + r, s);
    lemma_held_parts(f, at, p + q, r);
    lemma_held_parts(f, at, p, q);
    lemma_held_number(f, at, heap.width as nat, 2);
    lemma_held_number(f, at + 2, heap.start as nat, 8);
    lemma_held_number(f, at + 10, heap.max_direct as nat, 8);
    lemma_held_number(f, at + 18, heap.offset_bits as nat, 2);
    lemma_held_number(f, at + 22, heap.root as nat, 8);
    lemma_held_number(f, at + 30, heap.rows as nat, 2);
}

/// Whether a direct block starts at `at`.
pub open spec fn direct_block(file: Seq<u8>, at: int) -> bool {
    &&& 0 <= at
    &&& at + 5 <= file.len()
    &&& tag_at(file, at, 'F', 'H', 'D', 'B')
    &&& file[at + 4] == 0
}

/// The ID of a managed object: its kind, its offset in the heap and its length.
pub open spec fn object_id(heap: Heap, kind: u8, off: nat, len: nat, behind: Seq<u8>) -> Seq<u8> {
    seq![kind] + le_bytes(off, heap.offset_width()) + le_bytes(len, heap.length_width()) + behind
}

/// How many bytes the parts of an ID take: an offset as many as its bits need, and a length
/// as many as are enough for the largest object or for the largest block, whichever is
/// less.
pub proof fn law_id_widths(heap: Heap, a: nat, k: nat, b: nat, c: nat)
    requires
        8 * (a - 1) < heap.offset_bits <= 8 * a,
        heap.max_direct == pow2(k),
        8 * (b - 1) < k <= 8 * b,
        is_width_of(c, heap.max_object as nat),
    ensures
        heap.offset_width() == a,
        heap.length_width() == if b < c {
            b
        } else {
            c
        },
{
    lemma_halvings_of_power(k);
    law_width(heap.max_object as nat);
}

proof fn lemma_halvings_of_power(k: nat)
    ensures
        halvings(pow2(k)) == k,
    decreases k,
{
    if k == 0 {
        vstd::arithmetic::power2::lemma2_to64();
    } else {
        lemma_pow2_unfold(k);
        lemma_pow2_pos((k - 1) as nat);
        lemma_halvings_of_power((k - 1) as nat);
        assert(pow2(k) / 2 == pow2((k - 1) as nat));
    }
}

proof fn lemma_id(heap: Heap, id: Seq<u8>, kind: u8, off: nat, len: nat, behind: Seq<u8>)
    requires
        id == object_id(heap, kind, off, len, behind),
        off < pow256(heap.offset_width()),
        len < pow256(heap.length_width()),
    ensures
        id.len() >= 1 + heap.offset_width() + heap.length_width(),
        id[0] == kind,
        le_at(id, 1, heap.offset_width()) == off,
        le_at(id, 1 + heap.offset_width() as int, heap.length_width()) == len,
{
    let a = seq![kind];
    let b = le_bytes(off, heap.offset_width());
    let c = le_bytes(len, heap.length_width());
    crate::laws::messages::lemma_itself(id);
    lemma_le_bytes_len(off, heap.offset_width());
    lemma_le_bytes_len(len, heap.length_width());
    lemma_held_parts(id, 0, a + b + c, behind);
    lemma_held_parts(id, 0, a + b, c);
    lemma_held_parts(id, 0, a, b);
    lemma_held_bytes(id, 0, a);
    assert(a[0] == id[0]);
    lemma_held_number(id, 1, off, heap.offset_width());
    lemma_held_number(id, 1 + heap.offset_width() as int, len, heap.length_width());
}

/// In a heap of one block, an object lies at its offset in the block.
pub proof fn law_object_in_only_block(
    file: &[u8],
    heap: &Heap,
    id: &[u8],
    kind: u8,
    off: nat,
    len: nat,
    behind: Seq<u8>,
    r: Result<(usize, usize), OxiH5Error>,
)
    requires
        heap.wf(),
        heap.rows == 0,
        direct_block(file@, heap.root as int),
        id@ == object_id(*heap, kind, off, len, behind),
        kind < 16,
        off < pow256(heap.offset_width()),
        len < pow256(heap.length_width()),
        off < heap.start,
        off + len <= heap.start,
        heap.root + off + len <= file@.len(),
        call_ensures(find_object, (file, heap, id), r),
    ensures
        r is Ok,
        r->Ok_0.0 == heap.root + off,
        r->Ok_0.1 == len,
{
    lemma_id(*heap, id@, kind, off, len, behind);
    assert(direct_place(file@, heap.root as int, heap.start as int, off as int) == Ok::<
        (int, int),
        ErrorKind,
    >((heap.root + off, heap.start - off)));
    assert(object_place(file@, *heap, id@) == Ok::<(int, int), ErrorKind>(
        (heap.root + off as int, len as int),
    ));
}

/// Where a block lies: in that row and column of the root block, in that row and column of
/// the block there, and so on.
pub open spec fn offset_of(heap: Heap, steps: Seq<(nat, nat)>, rest: nat) -> int
    decreases steps.len(),
{
    if steps.len() == 0 {
        rest as int
    } else {
        block_start(heap, steps[0].0, steps[0].1) + offset_of(heap, steps.skip(1), rest)
    }
}

/// Whether these rows and columns lead, from the indirect block at `addr`, to the direct
/// block at `block`. The indirect blocks on the way have so many rows: as many as cover the
/// bytes that a block stands for.
pub open spec fn leads_down(
    file: Seq<u8>,
    heap: Heap,
    addr: int,
    rows: Seq<nat>,
    steps: Seq<(nat, nat)>,
    rest: nat,
    block: int,
) -> bool
    decreases steps.len(),
{
    &&& steps.len() > 0
    &&& rows.len() == steps.len()
    &&& {
        let row = steps[0].0;
        let col = steps[0].1;
        let size = block_size(heap.start as int, row);
        let pos = addr + 13 + heap.offset_width() + (row * heap.width + col) * 8;
        let child = le_at(file, pos, 8) as int;
        &&& 0 <= addr
        &&& addr + 5 <= file.len()
        &&& tag_at(file, addr, 'F', 'H', 'I', 'B')
        &&& file[addr + 4] == 0
        &&& row < rows[0]
        &&& col < heap.width
        &&& pos + 8 <= file.len()
        &&& 0 <= offset_of(heap, steps.skip(1), rest) < size
        &&& if steps.len() == 1 {
            &&& size <= heap.max_direct
            &&& child == block
            &&& direct_block(file, block)
        } else {
            &&& size > heap.max_direct
            &&& row > 0
            &&& row_start(heap.start as int, heap.width as int, rows[1]) == size
            &&& leads_down(file, heap, child, rows.skip(1), steps.skip(1), rest, block)
        }
    }
}

/// An indirect block stands for as many bytes as its rows have, which fixes how many rows it
/// has.
proof fn lemma_rows_below(heap: Heap, k: nat, row: nat, below: nat)
    requires
        heap.wf(),
        heap.width == pow2(k),
        below > 0,
        row > 0,
        row_start(heap.start as int, heap.width as int, below) == block_size(
            heap.start as int,
            row,
        ),
    ensures
        row == below + k,
        halvings(heap.width as nat) == k,
{
    let start = heap.start as int;
    let width = heap.width as int;
    lemma_halvings_of_power(k);
    lemma_row_start(start, k, below);
    lemma_sizes(start, row);
    vstd::arithmetic::power2::lemma2_to64();
    let a = pow2((below - 1 + k) as nat) as int;
    lemma_pow2_pos((below - 1 + k) as nat);
    let b = pow2((row - 1) as nat) as int;
    assert(start * a == start * b ==> a == b) by (nonlinear_arith)
        requires
            start > 0,
    ;
    if row - 1 < below - 1 + k {
        vstd::arithmetic::power2::lemma_pow2_strictly_increases(
            (row - 1) as nat,
            (below - 1 + k) as nat,
        );
    } else if row - 1 > below - 1 + k {
        vstd::arithmetic::power2::lemma_pow2_strictly_increases(
            (below - 1 + k) as nat,
            (row - 1) as nat,
        );
    }
}

/// Where a row starts, in blocks of the first size.
proof fn lemma_row_start(start: int, k: nat, row: nat)
    requires
        start > 0,
        row > 0,
    ensures
        row_start(start, pow2(k) as int, row) == start * pow2((row - 1 + k) as nat),
    decreases row,
{
    let width = pow2(k) as int;
    vstd::arithmetic::power2::lemma2_to64();
    if row == 1 {
        assert(row_start(start, width, 0) == 0);
        assert(width * start == start * width) by (nonlinear_arith);
    } else {
        lemma_row_start(start, k, (row - 1) as nat);
        let a = pow2((row - 2 + k) as nat) as int;
        let b = pow2((row - 1 + k) as nat) as int;
        let c = pow2((row - 2) as nat) as int;
        lemma_pow2_unfold((row - 1 + k) as nat);
        vstd::arithmetic::power2::lemma_pow2_adds((row - 2) as nat, k);
        assert(start * a + width * (start * c) == start * b) by (nonlinear_arith)
            requires
                b == 2 * a,
                c * width == a,
        ;
    }
}

proof fn lemma_down(
    file: Seq<u8>,
    heap: Heap,
    k: nat,
    addr: int,
    rows: Seq<nat>,
    steps: Seq<(nat, nat)>,
    rest: nat,
    block: int,
)
    requires
        heap.wf(),
        heap.width == pow2(k),
        leads_down(file, heap, addr, rows, steps, rest, block),
    ensures
        place_in(file, heap, addr, rows[0], offset_of(heap, steps, rest)) == Ok::<
            (int, int),
            ErrorKind,
        >((block + rest, block_size(heap.start as int, steps.last().0) - rest)),
        offset_of(heap, steps, rest) >= 0,
    decreases steps.len(),
{
    let row = steps[0].0;
    let col = steps[0].1 as int;
    let start = heap.start as int;
    let width = heap.width as int;
    let size = block_size(start, row);
    let off = offset_of(heap, steps, rest);
    let inner = offset_of(heap, steps.skip(1), rest);
    let from = row_start(start, width, row);
    let pos = addr + 13 + heap.offset_width() + (row * heap.width + col) * 8;
    let child = le_at(file, pos, 8) as int;
    lemma_sizes(start, row);
    assert(0 <= col * size && col * size + size <= width * size) by (nonlinear_arith)
        requires
            0 <= col < width,
            size > 0,
    ;
    if row > 0 {
        lemma_rows_ascend(start, width, 0, row);
    }
    lemma_row(off, start, width, 0, row);
    assert(row_start(start, width, 0) == 0);
    assert((off - from) / size == col) by {
        assert(off - from == col * size + inner);
        vstd::arithmetic::div_mod::lemma_fundamental_div_mod_converse(
            off - from,
            size,
            col,
            inner,
        );
    }
    if steps.len() > 1 {
        assert(rows.skip(1)[0] == rows[1]);
        assert(row_start(start, width, 0) == 0);
        lemma_rows_below(heap, k, row, rows[1]);
        lemma_down(file, heap, k, child, rows.skip(1), steps.skip(1), rest, block);
        assert(steps.skip(1).last() == steps.last());
    } else {
        assert(steps.skip(1).len() == 0);
        assert(steps.last() == steps[0]);
    }
}

/// In a heap of many blocks, an object lies in the direct block that holds its offset: the
/// rows and columns of the indirect blocks on the way count the bytes of all blocks before
/// it.
pub proof fn law_object_in_block(
    file: &[u8],
    heap: &Heap,
    id: &[u8],
    k: nat,
    kind: u8,
    rows: Seq<nat>,
    steps: Seq<(nat, nat)>,
    rest: nat,
    block: int,
    len: nat,
    behind: Seq<u8>,
    r: Result<(usize, usize), OxiH5Error>,
)
    requires
        heap.wf(),
        heap.width == pow2(k),
        heap.rows > 0,
        rows.len() > 0,
        rows[0] == heap.rows,
        leads_down(
            file@,
            *heap,
            heap.root as int,
            rows,
            steps,
            rest,
            block,
        ),
        id@ == object_id(*heap, kind, offset_of(*heap, steps, rest) as nat, len, behind),
        kind < 16,
        offset_of(*heap, steps, rest) < pow256(heap.offset_width()),
        len < pow256(heap.length_width()),
        rest + len <= block_size(heap.start as int, steps.last().0),
        block + rest + len <= file@.len(),
        call_ensures(find_object, (file, heap, id), r),
    ensures
        r is Ok,
        r->Ok_0.0 == block + rest,
        r->Ok_0.1 == len,
{
    let off = offset_of(*heap, steps, rest);
    lemma_down(
        file@,
        *heap,
        k,
        heap.root as int,
        rows,
        steps,
        rest,
        block,
    );
    lemma_id(*heap, id@, kind, off as nat, len, behind);
    assert(object_place(file@, *heap, id@) == Ok::<(int, int), ErrorKind>(
        (block + rest, len as int),
    ));
}

/// The bytes of a link info message: where the heap of the links is, and where the B-tree
/// of their names.
pub open spec fn link_info_image(flags: u8, order: Seq<u8>, heap: u64, index: u64) -> Seq<u8> {
    seq![0u8, flags] + order + le_bytes(heap as nat, 8) + le_bytes(index as nat, 8)
}

/// Whether each record is four bytes and the ID of an object that holds a link.
pub open spec fn records_hold(
    file: Seq<u8>,
    heap: Heap,
    records: Seq<Seq<u8>>,
    ids: Seq<Seq<u8>>,
    places: Seq<(int, int)>,
    links: Seq<(Seq<char>, LinkModel)>,
    forms: Seq<LinkForm>,
) -> bool {
    forall|i: int|
        0 <= i < records.len() ==> {
            let f = forms[i];
            let link = links[i];
            &&& (#[trigger] records[i]).len() == 4 + ids[i].len()
            &&& records[i].skip(4) == ids[i]
            &&& object_place(file, heap, ids[i]) == Ok::<(int, int), ErrorKind>(places[i])
            &&& link_fits(link.0, link.1, f.code, 8)
            &&& file.subrange(places[i].0, places[i].0 + places[i].1) == link_image(
                link.0,
                link.1,
                f.code,
                f.order,
                f.charset,
                8,
                f.flags,
            )
        }
}

proof fn lemma_records_hold(
    f: Seq<u8>,
    h: Heap,
    records: Seq<Seq<u8>>,
    ids: Seq<Seq<u8>>,
    places: Seq<(int, int)>,
    links: Seq<(Seq<char>, LinkModel)>,
    forms: Seq<LinkForm>,
)
    requires
        records.len() == ids.len() == places.len() == links.len() == forms.len(),
        records_hold(f, h, records, ids, places, links, forms),
    ensures
        crate::error::try_each(records.len(), |i: int| recorded_link(f, h, records[i], 8u8))
            == Ok::<Seq<(Seq<char>, LinkModel)>, ErrorKind>(links),
{
    assert forall|i: int| 0 <= i < records.len() implies #[trigger] recorded_link(
        f,
        h,
        records[i],
        8u8,
    ) == Ok::<(Seq<char>, LinkModel), ErrorKind>(links[i]) by {
        assert(records[i].skip(4) == ids[i]);
        let link = links[i];
        let form = forms[i];
        let (pos, len) = places[i];
        lemma_link_back(
            f.subrange(pos, pos + len),
            8u8,
            link.0,
            link.1,
            form.code,
            form.order,
            form.charset,
            form.flags,
        );
    }
    lemma_try_each_is(
        records.len(),
        |i: int| recorded_link(f, h, records[i], 8u8),
        links,
    );
    assert(links.take(records.len() as int) =~= links);
}

/// The links of a group that keeps them in a heap are those which its B-tree lists, in the
/// order of the B-tree: a record is a hash of a name and the ID of a heap object, and the
/// object is the link.
pub proof fn law_links_in_heap(
    file: &[u8],
    address: u64,
    message: MessageModel,
    flags: u8,
    order: Seq<u8>,
    behind: Seq<u8>,
    heap: u64,
    index: u64,
    records: Seq<Seq<u8>>,
    ids: Seq<Seq<u8>>,
    places: Seq<(int, int)>,
    links: Seq<(Seq<char>, LinkModel)>,
    forms: Seq<LinkForm>,
    r: Result<Vec<ParsedLink>, OxiH5Error>,
)
    requires
        messages_at(file@, address as int) == Ok::<Seq<MessageModel>, ErrorKind>(seq![message]),
        message.msg_type == MSG_LINK_INFO,
        message.data == link_info_image(flags, order, heap, index) + behind,
        order.len() == if flags % 2 == 1 {
            8nat
        } else {
            0nat
        },
        heap != u64::MAX,
        heap_at(file@, heap as int) is Ok,
        tree_at(file@, index as int) is Ok,
        tree_at(file@, index as int)->Ok_0.record_type == RECORD_LINK_NAME,
        records_of(file@, tree_at(file@, index as int)->Ok_0) == Ok::<Seq<Seq<u8>>, ErrorKind>(
            records,
        ),
        records.len() == ids.len() == places.len() == links.len() == forms.len(),
        records_hold(file@, heap_at(file@, heap as int)->Ok_0, records, ids, places, links, forms),
        call_ensures(list_new_style_links, (file, address, 8u8), r),
    ensures
        outcomes(r) == Ok::<Seq<(Seq<char>, LinkModel)>, ErrorKind>(links),
{
    let f = file@;
    let h = heap_at(f, heap as int)->Ok_0;
    lemma_records_hold(f, h, records, ids, places, links, forms);
    assert(heap_links(f, heap, index, 8u8) == Ok::<Seq<(Seq<char>, LinkModel)>, ErrorKind>(links));
    lemma_link_info(message.data, flags, order, heap, index, behind);
    let messages = seq![message];
    assert(messages[0] == message);
    assert(links_in(f, messages, 8u8, 0) == Ok::<Seq<(Seq<char>, LinkModel)>, ErrorKind>(
        Seq::empty(),
    ));
    assert(Seq::<(Seq<char>, LinkModel)>::empty() + links =~= links);
    assert(links_in(f, messages, 8u8, 1) == Ok::<Seq<(Seq<char>, LinkModel)>, ErrorKind>(links));
}

proof fn lemma_link_info(
    data: Seq<u8>,
    flags: u8,
    order: Seq<u8>,
    heap: u64,
    index: u64,
    behind: Seq<u8>,
)
    requires
        data == link_info_image(flags, order, heap, index) + behind,
        order.len() == if flags % 2 == 1 {
            8nat
        } else {
            0nat
        },
        heap != u64::MAX,
    ensures
        crate::links::kept_elsewhere(data, 8) == Ok::<Option<(u64, u64)>, ErrorKind>(
            Some((heap, index)),
        ),
{
    let a = seq![0u8, flags];
    let b = le_bytes(heap as nat, 8);
    let c = le_bytes(index as nat, 8);
    let at = 2 + order.len() as int;
    lemma_pow256_values();
    crate::laws::messages::lemma_itself(data);
    lemma_le_bytes_len(heap as nat, 8);
    lemma_le_bytes_len(index as nat, 8);
    lemma_held_parts(data, 0, a + order + b + c, behind);
    lemma_held_parts(data, 0, a + order + b, c);
    lemma_held_parts(data, 0, a + order, b);
    lemma_held_parts(data, 0, a, order);
    lemma_held_bytes(data, 0, a);
    assert(a[1] == data[0 + 1int]);
    lemma_held_number(data, at, heap as nat, 8);
    lemma_held_number(data, at + 8, index as nat, 8);
}

} // verus!
