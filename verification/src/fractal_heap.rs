//! Fractal heaps: the objects of groups that keep their links outside their headers.
//!
//! The header is `FRHP`, version 0, the length of an ID (2 bytes), the length of what is
//! said on filters (2), flags, the size of the largest managed object (4), numbers on free
//! space and on objects of other kinds, and from 110 on the shape of the heap: the number
//! of blocks in a row (2), the size of a block in the first row (8), the size of the
//! largest direct block (8), the number of bits of an offset (2), two bytes, the address of
//! the root block (8), and its number of rows (2), 0 where it is a direct block.
//!
//! Blocks in the second row are as large as those in the first, and from there on twice as
//! large as in the row before. Small blocks hold objects: `FHDB`, version 0, and so on. An
//! indirect block is `FHIB`, version 0, the address of the header (8), an offset, and the
//! addresses (8) of the blocks in its rows, which are indirect blocks again where they are
//! too large to hold objects.
//!
//! The ID of a managed object is a byte for its kind, its offset in the heap, which counts
//! all blocks, and its length.

use vstd::prelude::*;
use crate::bytes::{get_le, get_u16, get_u32, get_u64, has_tag, le_at, tag_at, to_usize};
use crate::btree_v2::width_for;
use crate::error::{text, ErrorKind, OxiH5Error};

verus! {

/// What the header of a heap says.
#[derive(Debug, Clone, Copy, PartialEq, Eq, Structural)]
pub struct Heap {
    pub id_len: u16,
    pub max_object: u32,
    pub width: u16,
    pub start: u64,
    pub max_direct: u64,
    pub offset_bits: u16,
    pub root: u64,
    pub rows: u16,
}

/// The heap whose header is at `addr`. One with filters is not read.
pub open spec fn heap_at(file: Seq<u8>, addr: int) -> Result<Heap, ErrorKind> {
    if addr + 146 > file.len() || !tag_at(file, addr, 'F', 'R', 'H', 'P') || file[addr + 4] != 0 {
        Err(ErrorKind::Format)
    } else if le_at(file, addr + 7, 2) != 0 {
        Err(ErrorKind::NotImplemented)
    } else {
        let heap = Heap {
            id_len: le_at(file, addr + 5, 2) as u16,
            max_object: le_at(file, addr + 10, 4) as u32,
            width: le_at(file, addr + 110, 2) as u16,
            start: le_at(file, addr + 112, 8) as u64,
            max_direct: le_at(file, addr + 120, 8) as u64,
            offset_bits: le_at(file, addr + 128, 2) as u16,
            root: le_at(file, addr + 132, 8) as u64,
            rows: le_at(file, addr + 140, 2) as u16,
        };
        if heap.width == 0 || heap.start == 0 || heap.offset_bits == 0 || heap.offset_bits > 64 {
            Err(ErrorKind::Format)
        } else {
            Ok(heap)
        }
    }
}

/// How often a number can be halved.
pub open spec fn halvings(n: nat) -> nat
    decreases n,
{
    if n <= 1 {
        0
    } else {
        1 + halvings(n / 2)
    }
}

impl Heap {
    /// Whether its numbers are such that objects can be looked up.
    pub open spec fn wf(self) -> bool {
        self.width > 0 && self.start > 0 && 0 < self.offset_bits <= 64
    }

    /// How many bytes an offset takes.
    pub open spec fn offset_width(self) -> nat {
        ((self.offset_bits + 7) / 8) as nat
    }

    /// How many bytes a length takes: enough for the largest object, and for the largest
    /// block.
    pub open spec fn length_width(self) -> nat {
        let blocks = ((halvings(self.max_direct as nat) + 7) / 8) as nat;
        let objects = width_for(self.max_object as nat);
        if blocks < objects {
            blocks
        } else {
            objects
        }
    }
}

/// The row that holds offset `off`, where it starts, and the size of its blocks; from the
/// row `row` on, which starts at `from` with blocks of `size`.
pub open spec fn row_of(off: int, row: nat, from: int, size: int, width: int) -> (nat, int, int)
    decreases off - from,
{
    if width * size <= 0 || off < from + width * size {
        (row, from, size)
    } else {
        row_of(
            off,
            row + 1,
            from + width * size,
            if row == 0 {
                size
            } else {
                2 * size
            },
            width,
        )
    }
}

/// Where offset `off` of the indirect block at `addr`, with that many rows, lies in the
/// file, and how many bytes of its direct block follow.
pub open spec fn place_in(file: Seq<u8>, heap: Heap, addr: int, rows: nat, off: int) -> Result<
    (int, int),
    ErrorKind,
>
    decreases rows,
{
    let (row, from, size) = row_of(off, 0, 0, heap.start as int, heap.width as int);
    let col = (off - from) / size;
    let rest = off - from - col * size;
    let pos = addr + 13 + heap.offset_width() + (row * heap.width + col) * 8;
    if addr + 5 > file.len() || !tag_at(file, addr, 'F', 'H', 'I', 'B') || file[addr + 4] != 0
        || row >= rows || size <= 0 || pos + 8 > file.len() {
        Err(ErrorKind::Format)
    } else {
        let child = le_at(file, pos, 8) as int;
        if size <= heap.max_direct {
            direct_place(file, child, size, rest)
        } else if row < halvings(heap.width as nat) {
            Err(ErrorKind::Format)
        } else {
            place_in(file, heap, child, (row - halvings(heap.width as nat)) as nat, rest)
        }
    }
}

/// Where offset `off` of the direct block of `size` bytes at `addr` lies.
pub open spec fn direct_place(file: Seq<u8>, addr: int, size: int, off: int) -> Result<
    (int, int),
    ErrorKind,
> {
    if addr + 5 > file.len() || !tag_at(file, addr, 'F', 'H', 'D', 'B') || file[addr + 4] != 0
        || off >= size {
        Err(ErrorKind::Format)
    } else {
        Ok((addr + off, size - off))
    }
}

/// Where the object with that ID lies in the file, and its length. Only managed objects
/// are read.
pub open spec fn object_place(file: Seq<u8>, heap: Heap, id: Seq<u8>) -> Result<
    (int, int),
    ErrorKind,
> {
    let a = heap.offset_width();
    let b = heap.length_width();
    if id.len() < 1 + a + b {
        Err(ErrorKind::Format)
    } else if id[0] / 16 != 0 {
        Err(ErrorKind::NotImplemented)
    } else {
        let off = le_at(id, 1, a) as int;
        let len = le_at(id, 1 + a as int, b) as int;
        let found = if heap.rows == 0 {
            direct_place(file, heap.root as int, heap.start as int, off)
        } else {
            place_in(file, heap, heap.root as int, heap.rows as nat, off)
        };
        match found {
            Err(kind) => Err(kind),
            Ok((pos, room)) => if len > room || pos + len > file.len() {
                Err(ErrorKind::Format)
            } else {
                Ok((pos, len))
            },
        }
    }
}

fn malformed(what: &str) -> (r: OxiH5Error)
    ensures
        r@ == ErrorKind::Format,
{
    OxiH5Error::Format(text(&["fractal heap: ", what]))
}

/// Read the header of the heap at `address`.
pub fn parse_heap(file_data: &[u8], address: u64) -> (r: Result<Heap, OxiH5Error>)
    ensures
        match (r, heap_at(file_data@, address as int)) {
            (Ok(a), Ok(b)) => a == b && a.wf(),
            (Err(e), Err(kind)) => e@ == kind,
            _ => false,
        },
{
    assert(file_data.len() <= usize::MAX);
    let at: usize = match to_usize(address) {
        Some(at) => at,
        None => {
            return Err(malformed("header truncated"));
        },
    };
    if file_data.len() < 146 || at > file_data.len() - 146 {
        return Err(malformed("header truncated"));
    }
    if !has_tag(file_data, at, 'F', 'R', 'H', 'P') || file_data[at + 4] != 0 {
        return Err(malformed("no header"));
    }
    if get_u16(file_data, at + 7) != 0 {
        return Err(OxiH5Error::NotImplemented("fractal heap with filters".to_string()));
    }
    let heap = Heap {
        id_len: get_u16(file_data, at + 5),
        max_object: get_u32(file_data, at + 10),
        width: get_u16(file_data, at + 110),
        start: get_u64(file_data, at + 112),
        max_direct: get_u64(file_data, at + 120),
        offset_bits: get_u16(file_data, at + 128),
        root: get_u64(file_data, at + 132),
        rows: get_u16(file_data, at + 140),
    };
    if heap.width == 0 || heap.start == 0 || heap.offset_bits == 0 || heap.offset_bits > 64 {
        return Err(malformed("blocks without room"));
    }
    Ok(heap)
}

fn count_halvings(n: u64) -> (r: u64)
    ensures
        r == halvings(n as nat),
        r <= 64,
{
    let mut left: u64 = n;
    let mut count: u64 = 0;
    proof {
        assert(vstd::arithmetic::power2::pow2(64) == 0x1_0000_0000_0000_0000) by {
            vstd::arithmetic::power2::lemma2_to64();
        }
        lemma_halvings(n as nat, 64);
    }
    while left > 1
        invariant
            count + halvings(left as nat) == halvings(n as nat),
            halvings(n as nat) <= 64,
        decreases left,
    {
        left = left / 2;
        count = count + 1;
    }
    count
}

proof fn lemma_halvings(n: nat, k: nat)
    requires
        n < vstd::arithmetic::power2::pow2(k),
    ensures
        halvings(n) <= k,
    decreases k,
{
    if n > 1 {
        if k == 0 {
            vstd::arithmetic::power2::lemma2_to64();
        } else {
            vstd::arithmetic::power2::lemma_pow2_unfold(k);
            lemma_halvings(n / 2, (k - 1) as nat);
        }
    }
}

/// Find the row that holds an offset.
fn find_row(heap: &Heap, off: u64) -> (r: (u64, u64, u128))
    requires
        heap.wf(),
    ensures
        ({
            let (row, from, size) = row_of(
                off as int,
                0,
                0,
                heap.start as int,
                heap.width as int,
            );
            &&& r.0 == row
            &&& r.1 == from
            &&& r.2 == size
            &&& size > 0
            &&& from <= off
            &&& off < from + heap.width * size
        }),
{
    let width: u128 = heap.width as u128;
    let mut row: u64 = 0;
    let mut from: u64 = 0;
    let mut size: u128 = heap.start as u128;
    let ghost goal = row_of(off as int, 0, 0, heap.start as int, heap.width as int);
    proof {
        assert(width * size >= 1) by (nonlinear_arith)
            requires
                width >= 1,
                size >= 1,
        ;
        assert(width * size <= 0xffff * 0x2_0000_0000_0000_0000) by (nonlinear_arith)
            requires
                0 <= width <= 0xffff,
                0 <= size <= 0x2_0000_0000_0000_0000,
        ;
    }
    while from as u128 + width * size <= off as u128
        invariant
            width == heap.width,
            1 <= width <= 0xffff,
            1 <= size <= 0x2_0000_0000_0000_0000,
            width * size >= 1,
            width * size <= 0xffff * 0x2_0000_0000_0000_0000,
            from <= off,
            row <= from,
            goal == row_of(off as int, row as nat, from as int, size as int, width as int),
        decreases off - from,
    {
        proof {
            assert(size <= width * size) by (nonlinear_arith)
                requires
                    width >= 1,
                    size >= 1,
            ;
            assert(width * size <= u64::MAX);
        }
        from = (from as u128 + width * size) as u64;
        if row > 0 {
            size = 2 * size;
        }
        row = row + 1;
        proof {
            assert(width * size >= 1) by (nonlinear_arith)
                requires
                    width >= 1,
                    size >= 1,
            ;
            assert(width * size <= 0xffff * 0x2_0000_0000_0000_0000) by (nonlinear_arith)
                requires
                    0 <= width <= 0xffff,
                    0 <= size <= 0x2_0000_0000_0000_0000,
            ;
        }
    }
    (row, from, size)
}

/// Where an offset of a direct block lies.
fn find_direct(file_data: &[u8], addr: u64, size: u64, off: u64) -> (r: Result<
    (usize, u64),
    OxiH5Error,
>)
    ensures
        match (r, direct_place(file_data@, addr as int, size as int, off as int)) {
            (Ok((pos, room)), Ok((p, q))) => pos == p && room == q,
            (Ok(_), Err(_)) => false,
            (Err(e), Ok((p, q))) => e@ == ErrorKind::Format && p > usize::MAX,
            (Err(e), Err(kind)) => e@ == kind,
        },
{
    assert(file_data.len() <= usize::MAX);
    let at: usize = match to_usize(addr) {
        Some(at) => at,
        None => {
            return Err(malformed("block out of the file"));
        },
    };
    if file_data.len() < 5 || at > file_data.len() - 5 || !has_tag(file_data, at, 'F', 'H', 'D', 'B')
        || file_data[at + 4] != 0 {
        return Err(malformed("no direct block"));
    }
    if off >= size {
        return Err(malformed("offset out of the block"));
    }
    match to_usize(off) {
        None => Err(malformed("offset out of the block")),
        Some(n) => match at.checked_add(n) {
            None => Err(malformed("offset out of the block")),
            Some(pos) => Ok((pos, size - off)),
        },
    }
}

/// Where an offset of an indirect block lies.
fn find_place(file_data: &[u8], heap: &Heap, addr: u64, rows: u64, off: u64) -> (r: Result<
    (usize, u64),
    OxiH5Error,
>)
    requires
        heap.wf(),
    ensures
        match (r, place_in(file_data@, *heap, addr as int, rows as nat, off as int)) {
            (Ok((pos, room)), Ok((p, q))) => pos == p && room == q,
            (Ok(_), Err(_)) => false,
            (Err(e), Ok((p, q))) => e@ == ErrorKind::Format && p > usize::MAX,
            (Err(e), Err(kind)) => e@ == kind,
        },
    decreases rows,
{
    assert(file_data.len() <= usize::MAX);
    let ghost file = file_data@;
    let (row, from, size): (u64, u64, u128) = find_row(heap, off);
    let at: usize = match to_usize(addr) {
        Some(at) => at,
        None => {
            return Err(malformed("block out of the file"));
        },
    };
    if file_data.len() < 5 || at > file_data.len() - 5 || !has_tag(file_data, at, 'F', 'H', 'I', 'B')
        || file_data[at + 4] != 0 {
        return Err(malformed("no indirect block"));
    }
    if row >= rows {
        return Err(malformed("offset out of the heap"));
    }
    let inside: u128 = (off - from) as u128;
    let col: u128 = inside / size;
    let ghost width = heap.width as int;
    proof {
        vstd::arithmetic::div_mod::lemma_fundamental_div_mod(off - from, size as int);
        vstd::arithmetic::div_mod::lemma_div_pos_is_pos(off - from, size as int);
        assert(size * col == col * size) by (nonlinear_arith);
        assert(col < width) by (nonlinear_arith)
            requires
                col * size <= off - from,
                off - from < width * size,
                size > 0,
        ;
        assert(0 <= row * width) by (nonlinear_arith)
            requires
                row >= 0,
                width >= 0,
        ;
    }
    let rest: u64 = (inside - col * size) as u64;
    let head: u64 = 13 + ((heap.offset_bits + 7) / 8) as u64;
    proof {
        assert(row * width <= 0xffff * 0xffff_ffff_ffff_ffff) by (nonlinear_arith)
            requires
                0 <= row <= 0xffff_ffff_ffff_ffff,
                0 <= width <= 0xffff,
        ;
    }
    let entry: u128 = row as u128 * heap.width as u128 + col;
    let pos: u128 = at as u128 + head as u128 + entry * 8;
    if pos + 8 > file_data.len() as u128 {
        return Err(malformed("block truncated"));
    }
    let child: u64 = get_u64(file_data, pos as usize);
    if size <= heap.max_direct as u128 {
        return find_direct(file_data, child, size as u64, rest);
    }
    let less: u64 = count_halvings(heap.width as u64);
    if row < less {
        return Err(malformed("block without rows"));
    }
    find_place(file_data, heap, child, row - less, rest)
}

/// Find where the object with that ID lies in the file, and its length.
pub fn find_object(file_data: &[u8], heap: &Heap, id: &[u8]) -> (r: Result<
    (usize, usize),
    OxiH5Error,
>)
    requires
        heap.wf(),
    ensures
        match (r, object_place(file_data@, *heap, id@)) {
            (Ok((pos, len)), Ok((p, n))) => pos == p && len == n && pos + len <= file_data@.len(),
            (Err(e), Err(kind)) => e@ == kind,
            _ => false,
        },
{
    assert(file_data.len() <= usize::MAX);
    let a: usize = ((heap.offset_bits + 7) / 8) as usize;
    let blocks: usize = ((count_halvings(heap.max_direct) + 7) / 8) as usize;
    let objects: usize = crate::btree_v2::bytes_for(heap.max_object as u64);
    let b: usize = if blocks < objects {
        blocks
    } else {
        objects
    };
    if id.len() < 1 + a + b {
        return Err(malformed("ID truncated"));
    }
    if id[0] / 16 != 0 {
        return Err(OxiH5Error::NotImplemented("fractal heap object of another kind".to_string()));
    }
    let off: u64 = get_le(id, 1, a);
    let len: u64 = get_le(id, 1 + a, b);
    let found: Result<(usize, u64), OxiH5Error> = if heap.rows == 0 {
        find_direct(file_data, heap.root, heap.start, off)
    } else {
        find_place(file_data, heap, heap.root, heap.rows as u64, off)
    };
    let (pos, room): (usize, u64) = found?;
    if len > room || pos > file_data.len() || len > (file_data.len() - pos) as u64 {
        return Err(malformed("object out of its block"));
    }
    Ok((pos, len as usize))
}

proof fn lemma_indirect_bounds(file: Seq<u8>, heap: Heap, addr: int, rows: nat, off: int)
    requires
        0 <= addr,
        0 <= off,
    ensures
        place_in(file, heap, addr, rows, off) is Ok ==> place_in(
            file,
            heap,
            addr,
            rows,
            off,
        )->Ok_0.0 >= 0,
    decreases rows,
{
    let (row, from, size) = row_of(off, 0, 0, heap.start as int, heap.width as int);
    lemma_row_from(off, 0, 0, heap.start as int, heap.width as int);
    if size > 0 {
        let col = (off - from) / size;
        let rest = off - from - col * size;
        vstd::arithmetic::div_mod::lemma_fundamental_div_mod(off - from, size);
        assert(size * col == col * size) by (nonlinear_arith);
        let pos = addr + 13 + heap.offset_width() + (row * heap.width + col) * 8;
        if place_in(file, heap, addr, rows, off) is Ok && size > heap.max_direct {
            lemma_indirect_bounds(
                file,
                heap,
                le_at(file, pos, 8) as int,
                (row - halvings(heap.width as nat)) as nat,
                rest,
            );
        }
    }
}

proof fn lemma_row_from(off: int, row: nat, from: int, size: int, width: int)
    requires
        from <= off,
    ensures
        row_of(off, row, from, size, width).1 <= off,
    decreases off - from,
{
    if !(width * size <= 0 || off < from + width * size) {
        lemma_row_from(
            off,
            row + 1,
            from + width * size,
            if row == 0 {
                size
            } else {
                2 * size
            },
            width,
        );
    }
}

/// Objects lie in the file.
pub proof fn lemma_place_bounds(file: Seq<u8>, heap: Heap, id: Seq<u8>)
    ensures
        object_place(file, heap, id) is Ok ==> {
            let (pos, len) = object_place(file, heap, id)->Ok_0;
            0 <= pos && 0 <= len && pos + len <= file.len()
        },
{
    let off = le_at(id, 1, heap.offset_width()) as int;
    lemma_indirect_bounds(file, heap, heap.root as int, heap.rows as nat, off);
}

} // verus!
