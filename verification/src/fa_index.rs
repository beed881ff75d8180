//! Fixed arrays: the chunk index of datasets without unlimited dimensions.

use vstd::prelude::*;
use vstd::arithmetic::power::{lemma_pow1, lemma_pow_increases, lemma_pow_positive, pow};
use vstd::slice::slice_subrange;
use crate::bytes::{get_u32, get_u64, has_tag, le_at, tag_at, to_usize};
use crate::chunk_record::{offsets_in, parse_offsets, ChunkRecord, RecordModel};
use crate::dtype::views;
use crate::error::{outcomes, text, ErrorKind, OxiH5Error};

verus! {

/// The least `r` from `from` on with `r^d >= n`.
pub open spec fn least_root(n: nat, d: nat, from: nat) -> nat
    decreases n - from,
{
    if pow(from as int, d) >= n || from >= n {
        from
    } else {
        least_root(n, d, from + 1)
    }
}

/// `n` to the power of `1/d`, rounded up.
pub open spec fn ceil_root(n: nat, d: nat) -> nat {
    least_root(n, d, 1)
}

proof fn lemma_least_root(n: nat, d: nat, from: nat, r: nat)
    requires
        from <= r <= n,
        pow(r as int, d) >= n,
        forall|q: int| from <= q < r ==> #[trigger] pow(q, d) < n,
    ensures
        least_root(n, d, from) == r,
    decreases r - from,
{
    if from < r {
        assert(pow(from as int, d) < n);
        lemma_least_root(n, d, from + 1, r);
    }
}

proof fn lemma_pow_base(a: nat, b: nat, e: nat)
    requires
        a <= b,
    ensures
        0 <= pow(a as int, e) <= pow(b as int, e),
    decreases e,
{
    reveal(pow);
    if e > 0 {
        lemma_pow_base(a, b, (e - 1) as nat);
        let x = pow(a as int, (e - 1) as nat);
        let y = pow(b as int, (e - 1) as nat);
        assert(0 <= a * x <= b * y) by (nonlinear_arith)
            requires
                0 <= a <= b,
                0 <= x <= y,
        ;
    }
}

/// Whether `r^d >= n`.
fn power_reaches(r: u64, d: usize, n: u64) -> (reached: bool)
    requires
        r >= 1,
        d >= 1,
    ensures
        reached == (pow(r as int, d as nat) >= n),
{
    let mut acc: u64 = 1;
    let mut k: usize = 0;
    proof {
        vstd::arithmetic::power::lemma_pow0(r as int);
    }
    while k < d
        invariant
            r >= 1,
            k <= d,
            1 <= acc,
            acc == pow(r as int, k as nat),
        decreases d - k,
    {
        proof {
            vstd::arithmetic::power::lemma_pow_adds(r as int, k as nat, 1);
            lemma_pow1(r as int);
            lemma_pow_increases(r as nat, (k + 1) as nat, d as nat);
        }
        match acc.checked_mul(r) {
            Some(next) => {
                acc = next;
                proof {
                    lemma_pow_positive(r as int, (k + 1) as nat);
                }
            },
            None => {
                return true;
            },
        }
        k += 1;
    }
    acc >= n
}

/// Compute [`ceil_root`].
fn find_root(n: u64, d: usize) -> (r: u64)
    requires
        n >= 1,
        d >= 1,
    ensures
        r == ceil_root(n as nat, d as nat),
{
    let mut low: u64 = 1;
    let mut high: u64 = n;
    proof {
        lemma_pow_increases(n as nat, 1, d as nat);
        lemma_pow1(n as int);
    }
    while low < high
        invariant
            d >= 1,
            1 <= low <= high <= n,
            pow(high as int, d as nat) >= n,
            forall|q: int| 1 <= q < low ==> #[trigger] pow(q, d as nat) < n,
        decreases high - low,
    {
        let mid: u64 = low + (high - low) / 2;
        if power_reaches(mid, d, n) {
            high = mid;
        } else {
            proof {
                assert forall|q: int| 1 <= q < mid + 1 implies #[trigger] pow(q, d as nat)
                    < n by {
                    if q < mid {
                        lemma_pow_base(q as nat, mid as nat, d as nat);
                    }
                }
            }
            low = mid + 1;
        }
    }
    proof {
        lemma_least_root(n as nat, d as nat, 1, low as nat);
    }
    low
}

/// What is left of a product in 64 bits.
pub open spec fn wrapped(v: int) -> int {
    v % 0x1_0000_0000_0000_0000
}

/// `r` multiplied by itself `k` times, in 64 bits.
pub open spec fn wrapped_power(r: int, k: nat) -> int
    decreases k,
{
    if k == 0 {
        1
    } else {
        wrapped(wrapped_power(r, (k - 1) as nat) * r)
    }
}

/// How many chunks the array is taken to have along dimension `d`: the same
/// number for all but the last, which makes up for the rest.
pub open spec fn grid_dim(n: nat, ndims: nat, d: int) -> int {
    let per_dim = ceil_root(n, ndims) as int;
    if d < ndims - 1 {
        per_dim
    } else {
        let others = wrapped_power(per_dim, (ndims - 1) as nat);
        let others = if others < 1 {
            1
        } else {
            others
        };
        (n + others - 1) / others
    }
}

/// How many elements apart two chunks are that differ by one along dimension `d`.
pub open spec fn grid_stride(n: nat, ndims: nat, d: int) -> int
    decreases ndims - d,
{
    if d >= ndims - 1 {
        1
    } else {
        wrapped(grid_stride(n, ndims, d + 1) * grid_dim(n, ndims, d + 1))
    }
}

/// What is left of the position `i` once the dimensions before `d` are accounted
/// for.
pub open spec fn grid_rest(n: nat, ndims: nat, i: int, d: int) -> int
    decreases d,
{
    if d <= 0 {
        i
    } else {
        let stride = grid_stride(n, ndims, d - 1);
        if stride == 0 {
            0
        } else {
            grid_rest(n, ndims, i, d - 1) % stride
        }
    }
}

/// The coordinate along dimension `d` of the chunk at position `i`.
pub open spec fn grid_coord(n: nat, ndims: nat, i: int, d: int) -> int {
    let stride = grid_stride(n, ndims, d);
    if stride == 0 {
        0
    } else {
        grid_rest(n, ndims, i, d) / stride
    }
}

/// The position of the first element of the chunk at position `i`.
pub open spec fn grid_offsets(n: nat, chunk_dims: Seq<u64>, i: int) -> Seq<u64> {
    Seq::new(
        chunk_dims.len(),
        |d: int| wrapped(grid_coord(n, chunk_dims.len(), i, d) * chunk_dims[d]) as u64,
    )
}

/// The parameters of a fixed array, once its header and data block are read.
pub struct FixedArray {
    /// File position of the first element.
    pub start: nat,
    /// Number of elements.
    pub n: nat,
    /// Bytes per element.
    pub element_size: nat,
    /// 0 if the chunks are stored unfiltered.
    pub client_id: u8,
}

impl FixedArray {
    pub open spec fn at(self, i: int) -> int {
        self.start + i * self.element_size
    }

    /// Whether element `i` lies within the file.
    pub open spec fn whole(self, file: Seq<u8>, i: int) -> bool {
        self.at(i) + self.element_size <= file.len() && self.at(i) + 8 <= file.len()
    }

    /// Stored size and filter mask of element `i`.
    pub open spec fn size_and_mask(self, file: Seq<u8>, i: int, unfiltered_size: usize) -> (
        u32,
        u32,
    ) {
        let e = self.at(i);
        if self.client_id == 0 {
            (unfiltered_size as u32, 0)
        } else if self.element_size >= 20 {
            (le_at(file, e + 8, 8) as u64 as u32, le_at(file, e + 16, 4) as u32)
        } else if self.element_size >= 16 {
            (le_at(file, e + 8, 4) as u32, le_at(file, e + 12, 4) as u32)
        } else {
            (0, 0)
        }
    }

    /// The chunk position of element `i`: from its place in the grid where the
    /// chunk shape is known, else as stored behind the filter mask.
    pub open spec fn offsets(self, file: Seq<u8>, i: int, ndims: nat, chunk_dims: Seq<u64>) -> Result<
        Seq<u64>,
        ErrorKind,
    > {
        let e = self.at(i);
        if chunk_dims.len() > 0 && ndims == chunk_dims.len() {
            Ok(grid_offsets(self.n, chunk_dims, i))
        } else if self.element_size >= 16 {
            offsets_in(
                file.subrange(e + 16, e + self.element_size),
                ndims,
                if ndims > 0 {
                    ((self.element_size - 16) / ndims as int) as nat
                } else {
                    0
                },
            )
        } else {
            Ok(Seq::empty())
        }
    }

    /// The records of the first `k` elements: of those that lie within the file
    /// and are not empty.
    pub open spec fn records(
        self,
        file: Seq<u8>,
        k: nat,
        ndims: nat,
        chunk_dims: Seq<u64>,
        unfiltered_size: usize,
    ) -> Result<Seq<RecordModel>, ErrorKind>
        decreases k,
    {
        if k == 0 {
            Ok(Seq::empty())
        } else {
            let i = k - 1;
            let address = le_at(file, self.at(i), 8);
            match self.records(file, i as nat, ndims, chunk_dims, unfiltered_size) {
                Err(kind) => Err(kind),
                Ok(found) => {
                    if !self.whole(file, i) || address == u64::MAX {
                        Ok(found)
                    } else {
                        match self.offsets(file, i, ndims, chunk_dims) {
                            Err(kind) => Err(kind),
                            Ok(offsets) => {
                                let (size, filter_mask) = self.size_and_mask(
                                    file,
                                    i,
                                    unfiltered_size,
                                );
                                Ok(
                                    found.push(
                                        RecordModel {
                                            address: address as u64,
                                            size,
                                            filter_mask,
                                            offsets,
                                        },
                                    ),
                                )
                            },
                        }
                    }
                },
            }
        }
    }
}

/// The header and the data block of the fixed array at `addr`; `None` if no data
/// block was allocated.
///
/// The header is `FAHD`, version 0, client, element size, one byte, the number
/// of elements (8 bytes), the address of the data block (8), a checksum (4). The
/// data block is `FADB`, version 0, client, the address of the header (8), the
/// elements.
pub open spec fn fixed_array_at(file: Seq<u8>, addr: int) -> Result<Option<FixedArray>, ErrorKind> {
    if addr + 28 > file.len() || !tag_at(file, addr, 'F', 'A', 'H', 'D') || file[addr + 4] != 0 {
        Err(ErrorKind::Format)
    } else {
        let n = le_at(file, addr + 8, 8);
        let db = le_at(file, addr + 16, 8) as int;
        if db == u64::MAX {
            Ok(None)
        } else if n > usize::MAX || db + 14 > file.len() || !tag_at(file, db, 'F', 'A', 'D', 'B')
            || file[db + 4] != 0 {
            Err(ErrorKind::Format)
        } else {
            Ok(
                Some(
                    FixedArray {
                        start: (db + 14) as nat,
                        n,
                        element_size: file[addr + 6] as nat,
                        client_id: file[db + 5],
                    },
                ),
            )
        }
    }
}

/// The chunk records of the fixed array at `addr`.
pub open spec fn fixed_array_records(
    file: Seq<u8>,
    addr: int,
    ndims: nat,
    chunk_dims: Seq<u64>,
    unfiltered_size: usize,
) -> Result<Seq<RecordModel>, ErrorKind> {
    match fixed_array_at(file, addr) {
        Err(kind) => Err(kind),
        Ok(None) => Ok(Seq::empty()),
        Ok(Some(array)) => array.records(file, array.n, ndims, chunk_dims, unfiltered_size),
    }
}

/// Parse a fixed array, the position of each chunk as it is stored.
pub fn parse_fixed_array(file_data: &[u8], header_address: u64, ndims: usize) -> (r: Result<
    Vec<ChunkRecord>,
    OxiH5Error,
>)
    ensures
        outcomes(r) == fixed_array_records(
            file_data@,
            header_address as int,
            ndims as nat,
            Seq::empty(),
            0,
        ),
{
    let none: Vec<u64> = Vec::new();
    proof {
        assert(none@ =~= Seq::empty());
    }
    parse_fixed_array_inner(file_data, header_address, ndims, &none, 0)
}

/// Parse a fixed array, the position of each chunk from its place in the array
/// and the chunk shape; `uncompressed_chunk_bytes` is the size of an unfiltered
/// chunk.
pub fn parse_fixed_array_v4(
    file_data: &[u8],
    header_address: u64,
    ndims: usize,
    chunk_dims: &[u64],
    uncompressed_chunk_bytes: usize,
) -> (r: Result<Vec<ChunkRecord>, OxiH5Error>)
    ensures
        outcomes(r) == fixed_array_records(
            file_data@,
            header_address as int,
            ndims as nat,
            chunk_dims@,
            uncompressed_chunk_bytes,
        ),
{
    parse_fixed_array_inner(
        file_data,
        header_address,
        ndims,
        chunk_dims,
        uncompressed_chunk_bytes,
    )
}

/// How many chunks the array is taken to have along each dimension.
fn compute_grid_dims(n: u64, ndims: usize) -> (r: Vec<u64>)
    requires
        n >= 1,
        ndims >= 1,
    ensures
        r@.len() == ndims,
        forall|d: int| 0 <= d < ndims ==> #[trigger] r@[d] == grid_dim(n as nat, ndims as nat, d),
{
    let per_dim: u64 = find_root(n, ndims);
    let mut others: u64 = 1;
    for k in 0..ndims - 1
        invariant
            others == wrapped_power(per_dim as int, k as nat),
    {
        others = others.wrapping_mul(per_dim);
    }
    if others < 1 {
        others = 1;
    }
    proof {
        lemma_ceil_div(n as int, others as int);
        lemma_quotient(n as int, others as int);
    }
    let last: u64 = if n % others != 0 {
        n / others + 1
    } else {
        n / others
    };
    let mut dims: Vec<u64> = Vec::new();
    for d in 0..ndims - 1
        invariant
            dims@.len() == d,
            forall|k: int| 0 <= k < d ==> #[trigger] dims@[k] == per_dim,
    {
        dims.push(per_dim);
    }
    dims.push(last);
    dims
}

/// A quotient is no larger than what was divided, and smaller if it is not even.
proof fn lemma_quotient(n: int, k: int)
    requires
        n >= 0,
        k >= 1,
    ensures
        0 <= n / k <= n,
        n % k != 0 ==> n / k < n,
{
    let q = n / k;
    vstd::arithmetic::div_mod::lemma_fundamental_div_mod(n, k);
    vstd::arithmetic::div_mod::lemma_div_pos_is_pos(n, k);
    assert(k * q >= q) by (nonlinear_arith)
        requires
            k >= 1,
            q >= 0,
    ;
}

/// Rounding a quotient up.
proof fn lemma_ceil_div(n: int, k: int)
    requires
        n >= 0,
        k >= 1,
    ensures
        (n + k - 1) / k == n / k + if n % k != 0 {
            1int
        } else {
            0
        },
{
    let q = n / k;
    let m = n % k;
    vstd::arithmetic::div_mod::lemma_fundamental_div_mod(n, k);
    if m == 0 {
        vstd::arithmetic::div_mod::lemma_fundamental_div_mod_converse(n + k - 1, k, q, k - 1);
    } else {
        assert(k * (q + 1) == k * q + k) by (nonlinear_arith);
        vstd::arithmetic::div_mod::lemma_fundamental_div_mod_converse(n + k - 1, k, q + 1, m - 1);
    }
}

/// How many elements apart two chunks are that differ by one along each
/// dimension.
fn compute_grid_strides(n: u64, ndims: usize) -> (r: Vec<u64>)
    requires
        n >= 1,
        ndims >= 1,
    ensures
        r@.len() == ndims,
        forall|d: int| 0 <= d < ndims ==> #[trigger] r@[d] == grid_stride(n as nat, ndims as nat, d),
{
    let grid: Vec<u64> = compute_grid_dims(n, ndims);
    let mut strides: Vec<u64> = vec![1u64; ndims];
    let mut d: usize = ndims - 1;
    while d > 0
        invariant
            d < ndims,
            grid@.len() == ndims,
            strides@.len() == ndims,
            forall|k: int|
                0 <= k < ndims ==> #[trigger] grid@[k] == grid_dim(n as nat, ndims as nat, k),
            forall|k: int|
                d <= k < ndims ==> #[trigger] strides@[k] == grid_stride(
                    n as nat,
                    ndims as nat,
                    k,
                ),
        decreases d,
    {
        d -= 1;
        let stride: u64 = strides[d + 1].wrapping_mul(grid[d + 1]);
        strides.set(d, stride);
    }
    strides
}

/// The position of the first element of the chunk at position `i`.
fn offsets_of(n: u64, i: u64, strides: &[u64], chunk_dims: &[u64]) -> (r: Vec<u64>)
    requires
        strides@.len() == chunk_dims@.len(),
        forall|d: int|
            0 <= d < strides@.len() ==> #[trigger] strides@[d] == grid_stride(
                n as nat,
                chunk_dims@.len(),
                d,
            ),
    ensures
        r@ == grid_offsets(n as nat, chunk_dims@, i as int),
{
    let mut rest: u64 = i;
    let mut offsets: Vec<u64> = Vec::new();
    let ghost all = grid_offsets(n as nat, chunk_dims@, i as int);
    for d in 0..strides.len()
        invariant
            strides@.len() == chunk_dims@.len(),
            all == grid_offsets(n as nat, chunk_dims@, i as int),
            forall|d: int|
                0 <= d < strides@.len() ==> #[trigger] strides@[d] == grid_stride(
                    n as nat,
                    chunk_dims@.len(),
                    d,
                ),
            rest == grid_rest(n as nat, chunk_dims@.len(), i as int, d as int),
            offsets@ == all.take(d as int),
    {
        let stride: u64 = strides[d];
        let coord: u64 = if stride == 0 {
            0
        } else {
            rest / stride
        };
        rest = if stride == 0 {
            0
        } else {
            rest % stride
        };
        offsets.push(coord.wrapping_mul(chunk_dims[d]));
        proof {
            assert(offsets@ =~= all.take(d + 1));
        }
    }
    proof {
        assert(all.take(strides@.len() as int) =~= all);
    }
    offsets
}

/// Past an element that does not lie within the file, none does.
proof fn lemma_rest_not_whole(
    array: FixedArray,
    file: Seq<u8>,
    i: nat,
    k: nat,
    ndims: nat,
    chunk_dims: Seq<u64>,
    unfiltered_size: usize,
)
    requires
        i <= k,
        !array.whole(file, i as int),
    ensures
        array.records(file, k, ndims, chunk_dims, unfiltered_size) == array.records(
            file,
            i,
            ndims,
            chunk_dims,
            unfiltered_size,
        ),
    decreases k,
{
    if i < k {
        let j = k - 1;
        lemma_rest_not_whole(array, file, i, j as nat, ndims, chunk_dims, unfiltered_size);
        assert(i * array.element_size <= j * array.element_size) by (nonlinear_arith)
            requires
                i <= j,
        ;
    }
}

/// An error among the first elements is the error of the whole.
proof fn lemma_records_fail(
    array: FixedArray,
    file: Seq<u8>,
    i: nat,
    k: nat,
    ndims: nat,
    chunk_dims: Seq<u64>,
    unfiltered_size: usize,
)
    requires
        i <= k,
        array.records(file, i, ndims, chunk_dims, unfiltered_size) is Err,
    ensures
        array.records(file, k, ndims, chunk_dims, unfiltered_size) == array.records(
            file,
            i,
            ndims,
            chunk_dims,
            unfiltered_size,
        ),
    decreases k,
{
    if i < k {
        lemma_records_fail(array, file, i, (k - 1) as nat, ndims, chunk_dims, unfiltered_size);
    }
}

fn parse_fixed_array_inner(
    file_data: &[u8],
    header_address: u64,
    ndims: usize,
    chunk_dims: &[u64],
    uncompressed_chunk_bytes: usize,
) -> (r: Result<Vec<ChunkRecord>, OxiH5Error>)
    ensures
        outcomes(r) == fixed_array_records(
            file_data@,
            header_address as int,
            ndims as nat,
            chunk_dims@,
            uncompressed_chunk_bytes,
        ),
{
    let mut records: Vec<ChunkRecord> = Vec::new();
    proof {
        assert(views(records@) =~= Seq::empty());
        assert(file_data.len() <= usize::MAX);
    }
    let base: usize = match to_usize(header_address) {
        Some(base) => base,
        None => {
            return Err(OxiH5Error::Format("FA: header address overflow".to_string()));
        },
    };
    if file_data.len() < 28 || base > file_data.len() - 28 {
        return Err(
            OxiH5Error::Format(
                text(
                    &[
                        "FA: header at ",
                        &base.to_string(),
                        " exceeds file length ",
                        &file_data.len().to_string(),
                    ],
                ),
            ),
        );
    }
    if !has_tag(file_data, base, 'F', 'A', 'H', 'D') {
        return Err(OxiH5Error::Format(text(&["FA: bad signature at ", &base.to_string()])));
    }
    if file_data[base + 4] != 0 {
        return Err(
            OxiH5Error::Format(
                text(&["FA: unsupported version ", &file_data[base + 4].to_string()]),
            ),
        );
    }
    let element_size: usize = file_data[base + 6] as usize;
    let max_nelmts: u64 = get_u64(file_data, base + 8);
    let data_block_addr: u64 = get_u64(file_data, base + 16);
    if data_block_addr == u64::MAX {
        return Ok(records);
    }
    let db: usize = match to_usize(data_block_addr) {
        Some(db) => db,
        None => {
            return Err(OxiH5Error::Format("FA: data block address overflow".to_string()));
        },
    };
    let n: usize = match to_usize(max_nelmts) {
        Some(n) => n,
        None => {
            return Err(OxiH5Error::Format("FA: number of elements overflow".to_string()));
        },
    };
    if file_data.len() < 14 || db > file_data.len() - 14 {
        return Err(
            OxiH5Error::Format(
                text(
                    &[
                        "FA: data block at ",
                        &db.to_string(),
                        " truncated (file len=",
                        &file_data.len().to_string(),
                        ")",
                    ],
                ),
            ),
        );
    }
    if !has_tag(file_data, db, 'F', 'A', 'D', 'B') {
        return Err(
            OxiH5Error::Format(text(&["FA: bad data block signature at ", &db.to_string()])),
        );
    }
    if file_data[db + 4] != 0 {
        return Err(
            OxiH5Error::Format(
                text(&["FA: unsupported data block version ", &file_data[db + 4].to_string()]),
            ),
        );
    }
    let start: usize = db + 14;
    let client_id: u8 = file_data[db + 5];
    let gridded: bool = chunk_dims.len() > 0 && ndims == chunk_dims.len() && n > 0;
    let strides: Vec<u64> = if gridded {
        compute_grid_strides(n as u64, ndims)
    } else {
        Vec::new()
    };
    let ghost array = FixedArray {
        start: start as nat,
        n: n as nat,
        element_size: element_size as nat,
        client_id,
    };
    let ghost file = file_data@;
    assert(fixed_array_at(file, header_address as int) == Ok::<Option<FixedArray>, ErrorKind>(
        Some(array),
    ));
    let mut pos: usize = start;
    assert(array.at(0) == start);
    for i in 0..n
        invariant
            file == file_data@,
            file.len() <= usize::MAX,
            array == (FixedArray {
                start: start as nat,
                n: n as nat,
                element_size: element_size as nat,
                client_id,
            }),
            fixed_array_at(file, header_address as int) == Ok::<Option<FixedArray>, ErrorKind>(
                Some(array),
            ),
            pos == array.at(i as int),
            gridded == (chunk_dims@.len() > 0 && ndims == chunk_dims@.len() && n > 0),
            gridded ==> strides@.len() == chunk_dims@.len() && forall|d: int|
                0 <= d < strides@.len() ==> #[trigger] strides@[d] == grid_stride(
                    n as nat,
                    chunk_dims@.len(),
                    d,
                ),
            array.records(file, i as nat, ndims as nat, chunk_dims@, uncompressed_chunk_bytes)
                == Ok::<Seq<RecordModel>, ErrorKind>(views(records@)),
    {
        let ghost before = views(records@);
        proof {
            assert((i + 1) * element_size == i * element_size + element_size) by (nonlinear_arith);
        }
        if element_size > file_data.len() || pos > file_data.len() - element_size || pos
            > file_data.len() - 8 {
            proof {
                lemma_rest_not_whole(
                    array,
                    file,
                    i as nat,
                    n as nat,
                    ndims as nat,
                    chunk_dims@,
                    uncompressed_chunk_bytes,
                );
            }
            return Ok(records);
        }
        let address: u64 = get_u64(file_data, pos);
        if address != u64::MAX {
            let (size, filter_mask) = if client_id == 0 {
                #[verifier::truncate]
                let size: u32 = uncompressed_chunk_bytes as u32;
                (size, 0u32)
            } else if element_size >= 20 {
                #[verifier::truncate]
                let size: u32 = get_u64(file_data, pos + 8) as u32;
                (size, get_u32(file_data, pos + 16))
            } else if element_size >= 16 {
                (get_u32(file_data, pos + 8), get_u32(file_data, pos + 12))
            } else {
                (0u32, 0u32)
            };
            let offsets: Vec<u64> = if gridded {
                offsets_of(n as u64, i as u64, &strides, chunk_dims)
            } else if element_size >= 16 {
                let width: usize = if ndims > 0 {
                    (element_size - 16) / ndims
                } else {
                    0
                };
                match parse_offsets(
                    slice_subrange(file_data, pos + 16, pos + element_size),
                    ndims,
                    width,
                ) {
                    Ok(offsets) => offsets,
                    Err(e) => {
                        proof {
                            lemma_records_fail(
                                array,
                                file,
                                (i + 1) as nat,
                                n as nat,
                                ndims as nat,
                                chunk_dims@,
                                uncompressed_chunk_bytes,
                            );
                        }
                        return Err(e);
                    },
                }
            } else {
                Vec::new()
            };
            records.push(ChunkRecord { address, size, filter_mask, offsets });
            proof {
                assert(views(records@) =~= before.push(
                    RecordModel { address, size, filter_mask, offsets: offsets@ },
                ));
            }
        }
        pos = pos + element_size;
    }
    Ok(records)
}

/// The position that the coordinates before dimension `d` account for.
pub open spec fn grid_position(n: nat, ndims: nat, i: int, d: int) -> int
    decreases d,
{
    if d <= 0 {
        0
    } else {
        grid_position(n, ndims, i, d - 1) + grid_coord(n, ndims, i, d - 1) * grid_stride(
            n,
            ndims,
            d - 1,
        )
    }
}

proof fn lemma_grid_position(n: nat, ndims: nat, i: int, d: int)
    requires
        0 <= d <= ndims,
        forall|k: int| 0 <= k < ndims ==> #[trigger] grid_stride(n, ndims, k) != 0,
    ensures
        grid_position(n, ndims, i, d) + grid_rest(n, ndims, i, d) == i,
    decreases d,
{
    if d > 0 {
        lemma_grid_position(n, ndims, i, d - 1);
        let stride = grid_stride(n, ndims, d - 1);
        let rest = grid_rest(n, ndims, i, d - 1);
        vstd::arithmetic::div_mod::lemma_fundamental_div_mod(rest, stride);
        assert(stride * (rest / stride) == (rest / stride) * stride) by (nonlinear_arith);
    }
}

/// The coordinates that an element's place in the array is turned into are those
/// of that place in row-major order: weighted by the strides they add up to it.
pub proof fn law_grid_coordinates_rank_back(n: nat, ndims: nat, i: int)
    requires
        ndims >= 1,
        forall|k: int| 0 <= k < ndims ==> #[trigger] grid_stride(n, ndims, k) != 0,
    ensures
        grid_position(n, ndims, i, ndims as int) == i,
{
    lemma_grid_position(n, ndims, i, ndims as int);
    assert(grid_stride(n, ndims, ndims - 1) == 1);
    assert(grid_rest(n, ndims, i, ndims as int) == grid_rest(n, ndims, i, ndims - 1) % 1);
}

/// The grid has room for every element: the extents multiply to at least the
/// number of elements, where the product of all but the last fits in 64 bits.
pub proof fn law_grid_covers_all_elements(n: nat, ndims: nat)
    requires
        n >= 1,
        ndims >= 1,
        pow(ceil_root(n, ndims) as int, (ndims - 1) as nat) <= u64::MAX,
    ensures
        pow(ceil_root(n, ndims) as int, (ndims - 1) as nat) * grid_dim(n, ndims, ndims - 1) >= n,
{
    let r = ceil_root(n, ndims) as int;
    lemma_root_at_least(n, ndims, 1);
    lemma_wrapped_power(r, (ndims - 1) as nat);
    let others = pow(r, (ndims - 1) as nat);
    lemma_pow_positive(r, (ndims - 1) as nat);
    lemma_ceil_div(n as int, others);
    vstd::arithmetic::div_mod::lemma_fundamental_div_mod(n as int, others);
    let q = n as int / others;
    assert(others * (q + 1) == others * q + others) by (nonlinear_arith);
}

proof fn lemma_root_at_least(n: nat, d: nat, from: nat)
    ensures
        least_root(n, d, from) >= from,
    decreases n - from,
{
    if !(pow(from as int, d) >= n || from >= n) {
        lemma_root_at_least(n, d, from + 1);
    }
}

proof fn lemma_wrapped_power(r: int, k: nat)
    requires
        r >= 1,
        pow(r, k) <= u64::MAX,
    ensures
        wrapped_power(r, k) == pow(r, k),
    decreases k,
{
    reveal(pow);
    if k > 0 {
        let p = pow(r, (k - 1) as nat);
        lemma_pow_positive(r, (k - 1) as nat);
        assert(r * p >= p) by (nonlinear_arith)
            requires
                r >= 1,
                p >= 0,
        ;
        lemma_wrapped_power(r, (k - 1) as nat);
        assert(p * r == r * p) by (nonlinear_arith);
    }
}

/// Whether no product that the grid takes leaves 64 bits.
pub open spec fn grid_fits(n: nat, chunk_dims: Seq<u64>) -> bool {
    let ndims = chunk_dims.len();
    &&& forall|d: int|
        0 <= d < ndims - 1 ==> #[trigger] grid_stride(n, ndims, d + 1) * grid_dim(n, ndims, d + 1)
            <= u64::MAX
    &&& forall|i: int, d: int|
        0 <= i < n && 0 <= d < ndims ==> #[trigger] grid_coord(n, ndims, i, d) * chunk_dims[d]
            <= u64::MAX
}

/// Whether a position comes before another in row-major order.
pub open spec fn comes_before(a: Seq<u64>, b: Seq<u64>) -> bool {
    &&& a.len() == b.len()
    &&& exists|d: int|
        {
            &&& 0 <= d < a.len()
            &&& #[trigger] a[d] < b[d]
            &&& forall|k: int| 0 <= k < d ==> #[trigger] a[k] == b[k]
        }
}

proof fn lemma_grid_dim_positive(n: nat, ndims: nat, d: int)
    requires
        n >= 1,
    ensures
        grid_dim(n, ndims, d) >= 1,
{
    lemma_root_at_least(n, ndims, 1);
    let per_dim = ceil_root(n, ndims) as int;
    if d >= ndims - 1 {
        let power = wrapped_power(per_dim, (ndims - 1) as nat);
        let others = if power < 1 {
            1
        } else {
            power
        };
        vstd::arithmetic::div_mod::lemma_div_is_ordered(others, n + others - 1, others);
        vstd::arithmetic::div_mod::lemma_div_by_self(others);
    }
}

proof fn lemma_grid_stride_positive(n: nat, chunk_dims: Seq<u64>, d: int)
    requires
        n >= 1,
        grid_fits(n, chunk_dims),
        0 <= d < chunk_dims.len(),
    ensures
        grid_stride(n, chunk_dims.len(), d) >= 1,
    decreases chunk_dims.len() - d,
{
    let ndims = chunk_dims.len();
    if d < ndims - 1 {
        lemma_grid_stride_positive(n, chunk_dims, d + 1);
        lemma_grid_dim_positive(n, ndims, d + 1);
        let a = grid_stride(n, ndims, d + 1);
        let b = grid_dim(n, ndims, d + 1);
        assert(a * b >= 1) by (nonlinear_arith)
            requires
                a >= 1,
                b >= 1,
        ;
        assert(a * b <= u64::MAX);
    }
}

/// As long as the coordinates agree, what is left differs as the places do.
proof fn lemma_grid_rests(n: nat, ndims: nat, i: int, j: int, d: int)
    requires
        0 <= d <= ndims,
        forall|k: int| 0 <= k < ndims ==> #[trigger] grid_stride(n, ndims, k) >= 1,
        forall|k: int|
            0 <= k < d ==> #[trigger] grid_coord(n, ndims, i, k) == grid_coord(n, ndims, j, k),
    ensures
        grid_rest(n, ndims, j, d) - grid_rest(n, ndims, i, d) == j - i,
    decreases d,
{
    if d > 0 {
        lemma_grid_rests(n, ndims, i, j, d - 1);
        let stride = grid_stride(n, ndims, d - 1);
        let a = grid_rest(n, ndims, i, d - 1);
        let b = grid_rest(n, ndims, j, d - 1);
        assert(grid_coord(n, ndims, i, d - 1) == grid_coord(n, ndims, j, d - 1));
        vstd::arithmetic::div_mod::lemma_fundamental_div_mod(a, stride);
        vstd::arithmetic::div_mod::lemma_fundamental_div_mod(b, stride);
    }
}

/// From the first `d` coordinates on that agree, the later place comes later.
proof fn lemma_grid_ascends(n: nat, chunk_dims: Seq<u64>, i: int, j: int, d: int)
    requires
        0 <= i < j < n,
        0 <= d <= chunk_dims.len(),
        grid_fits(n, chunk_dims),
        chunk_dims.len() >= 1,
        forall|k: int| 0 <= k < chunk_dims.len() ==> 0 < #[trigger] chunk_dims[k],
        forall|k: int|
            0 <= k < d ==> #[trigger] grid_coord(n, chunk_dims.len(), i, k) == grid_coord(
                n,
                chunk_dims.len(),
                j,
                k,
            ),
    ensures
        comes_before(grid_offsets(n, chunk_dims, i), grid_offsets(n, chunk_dims, j)),
    decreases chunk_dims.len() - d,
{
    let ndims = chunk_dims.len();
    assert forall|k: int| 0 <= k < ndims implies #[trigger] grid_stride(n, ndims, k) >= 1 by {
        lemma_grid_stride_positive(n, chunk_dims, k);
    }
    lemma_grid_rests(n, ndims, i, j, d);
    if d == ndims {
        law_grid_coordinates_rank_back(n, ndims, i);
        law_grid_coordinates_rank_back(n, ndims, j);
        lemma_grid_position(n, ndims, i, ndims as int);
        lemma_grid_position(n, ndims, j, ndims as int);
    } else {
        let a = grid_coord(n, ndims, i, d);
        let b = grid_coord(n, ndims, j, d);
        let stride = grid_stride(n, ndims, d);
        vstd::arithmetic::div_mod::lemma_div_is_ordered(
            grid_rest(n, ndims, i, d),
            grid_rest(n, ndims, j, d),
            stride,
        );
        if a == b {
            lemma_grid_ascends(n, chunk_dims, i, j, d + 1);
        } else {
            let x = grid_offsets(n, chunk_dims, i);
            let y = grid_offsets(n, chunk_dims, j);
            assert forall|k: int| 0 <= k < d implies #[trigger] x[k] == y[k] by {
                assert(grid_coord(n, ndims, i, k) == grid_coord(n, ndims, j, k));
            }
            let m = chunk_dims[d] as int;
            lemma_grid_rest_positive(n, ndims, i, d);
            vstd::arithmetic::div_mod::lemma_div_pos_is_pos(grid_rest(n, ndims, i, d), stride);
            assert(0 <= a * m < b * m) by (nonlinear_arith)
                requires
                    0 <= a < b,
                    m > 0,
            ;
            assert(b * m <= u64::MAX);
            assert(x[d] == a * m && y[d] == b * m);
        }
    }
}

proof fn lemma_grid_rest_positive(n: nat, ndims: nat, i: int, d: int)
    requires
        0 <= i,
        0 <= d <= ndims,
        forall|k: int| 0 <= k < ndims ==> #[trigger] grid_stride(n, ndims, k) >= 1,
    ensures
        grid_rest(n, ndims, i, d) >= 0,
    decreases d,
{
    if d > 0 {
        lemma_grid_rest_positive(n, ndims, i, d - 1);
        let stride = grid_stride(n, ndims, d - 1);
        vstd::arithmetic::div_mod::lemma_fundamental_div_mod(
            grid_rest(n, ndims, i, d - 1),
            stride,
        );
    }
}

/// Each position of the grid is a multiple of the chunk shape.
proof fn lemma_grid_multiple(n: nat, chunk_dims: Seq<u64>, i: int, d: int)
    requires
        0 <= i < n,
        0 <= d < chunk_dims.len(),
        grid_fits(n, chunk_dims),
        0 < chunk_dims[d],
    ensures
        grid_offsets(n, chunk_dims, i)[d] as int % chunk_dims[d] as int == 0,
{
    let ndims = chunk_dims.len();
    let a = grid_coord(n, ndims, i, d);
    let m = chunk_dims[d] as int;
    assert forall|k: int| 0 <= k < ndims implies #[trigger] grid_stride(n, ndims, k) >= 1 by {
        lemma_grid_stride_positive(n, chunk_dims, k);
    }
    lemma_grid_rest_positive(n, ndims, i, d);
    vstd::arithmetic::div_mod::lemma_div_pos_is_pos(
        grid_rest(n, ndims, i, d),
        grid_stride(n, ndims, d),
    );
    assert(0 <= a * m) by (nonlinear_arith)
        requires
            0 <= a,
            m > 0,
    ;
    assert(a * m <= u64::MAX);
    vstd::arithmetic::div_mod::lemma_mod_multiples_basic(a, m);
}

/// Whether a position is that of an element before `k`.
spec fn placed_before(n: nat, chunk_dims: Seq<u64>, offsets: Seq<u64>, k: nat) -> bool {
    exists|i: int| 0 <= i < k && offsets == #[trigger] grid_offsets(n, chunk_dims, i)
}

/// The records are those of elements before `k`, one after the other.
proof fn lemma_array_positions(
    array: FixedArray,
    file: Seq<u8>,
    k: nat,
    chunk_dims: Seq<u64>,
    unfiltered_size: usize,
    found: Seq<RecordModel>,
)
    requires
        k <= array.n,
        chunk_dims.len() >= 1,
        grid_fits(array.n, chunk_dims),
        forall|d: int| 0 <= d < chunk_dims.len() ==> 0 < #[trigger] chunk_dims[d],
        array.records(file, k, chunk_dims.len(), chunk_dims, unfiltered_size) == Ok::<
            Seq<RecordModel>,
            ErrorKind,
        >(found),
    ensures
        forall|a: int|
            0 <= a < found.len() ==> placed_before(
                array.n,
                chunk_dims,
                (#[trigger] found[a]).offsets,
                k,
            ),
        forall|a: int, b: int|
            0 <= a < b < found.len() ==> comes_before(
                (#[trigger] found[a]).offsets,
                (#[trigger] found[b]).offsets,
            ),
    decreases k,
{
    if k > 0 {
        let i = k - 1;
        let front = array.records(
            file,
            i as nat,
            chunk_dims.len(),
            chunk_dims,
            unfiltered_size,
        )->Ok_0;
        lemma_array_positions(array, file, i as nat, chunk_dims, unfiltered_size, front);
        assert forall|a: int| 0 <= a < found.len() implies placed_before(
            array.n,
            chunk_dims,
            (#[trigger] found[a]).offsets,
            k,
        ) by {
            if a < front.len() {
                assert(found[a] == front[a]);
                assert(placed_before(array.n, chunk_dims, front[a].offsets, i as nat));
            } else {
                assert(found[a].offsets == grid_offsets(array.n, chunk_dims, i));
            }
        }
        if found.len() > front.len() {
            let last = found[front.len() as int];
            assert(last.offsets == grid_offsets(array.n, chunk_dims, i));
            assert forall|a: int| 0 <= a < front.len() implies comes_before(
                (#[trigger] found[a]).offsets,
                last.offsets,
            ) by {
                assert(found[a] == front[a]);
                assert(placed_before(array.n, chunk_dims, front[a].offsets, i as nat));
                let q = choose|q: int|
                    0 <= q < i && front[a].offsets == #[trigger] grid_offsets(
                        array.n,
                        chunk_dims,
                        q,
                    );
                lemma_grid_ascends(array.n, chunk_dims, q, i, 0);
            }
        }
        assert forall|a: int, b: int| 0 <= a < b < found.len() implies comes_before(
            (#[trigger] found[a]).offsets,
            (#[trigger] found[b]).offsets,
        ) by {
            assert(found[a] == front[a]);
            if b < front.len() {
                assert(found[b] == front[b]);
            }
        }
    }
}

/// The chunks of a fixed array whose chunk shape is known lie on a grid, in row-major
/// order: each position is a multiple of the chunk shape, and each comes before the next,
/// where no product leaves 64 bits.
pub proof fn law_fixed_array_positions(
    file: Seq<u8>,
    addr: int,
    array: FixedArray,
    chunk_dims: Seq<u64>,
    unfiltered_size: usize,
    records: Seq<RecordModel>,
)
    requires
        chunk_dims.len() >= 1,
        forall|d: int| 0 <= d < chunk_dims.len() ==> 0 < #[trigger] chunk_dims[d],
        fixed_array_at(file, addr) == Ok::<Option<FixedArray>, ErrorKind>(Some(array)),
        grid_fits(array.n, chunk_dims),
        fixed_array_records(file, addr, chunk_dims.len(), chunk_dims, unfiltered_size) == Ok::<
            Seq<RecordModel>,
            ErrorKind,
        >(records),
    ensures
        forall|a: int, d: int|
            0 <= a < records.len() && 0 <= d < chunk_dims.len() ==> #[trigger] records[a].offsets[d]
                as int % chunk_dims[d] as int == 0,
        forall|a: int, b: int|
            0 <= a < b < records.len() ==> comes_before(
                (#[trigger] records[a]).offsets,
                (#[trigger] records[b]).offsets,
            ),
{
    assert(array.records(file, array.n, chunk_dims.len(), chunk_dims, unfiltered_size) == Ok::<
        Seq<RecordModel>,
        ErrorKind,
    >(records));
    lemma_array_positions(array, file, array.n, chunk_dims, unfiltered_size, records);
    assert forall|a: int, d: int|
        0 <= a < records.len() && 0 <= d < chunk_dims.len() implies #[trigger] records[a].offsets[d]
        as int % chunk_dims[d] as int == 0 by {
        assert(placed_before(array.n, chunk_dims, records[a].offsets, array.n));
        let i = choose|i: int|
            0 <= i < array.n && records[a].offsets == #[trigger] grid_offsets(
                array.n,
                chunk_dims,
                i,
            );
        lemma_grid_multiple(array.n, chunk_dims, i, d);
    }
}

} // verus!
