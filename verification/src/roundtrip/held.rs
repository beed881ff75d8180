//! Byte strings within a file.

use vstd::prelude::*;
use crate::bytes::{le_at, le_bytes, lemma_le_bytes_len, lemma_le_round_trip, pow256, zeros};

verus! {

/// Whether `file` holds `image` at `pos`.
pub open spec fn held(file: Seq<u8>, pos: int, image: Seq<u8>) -> bool {
    &&& 0 <= pos
    &&& pos + image.len() <= file.len()
    &&& file.subrange(pos, pos + image.len()) == image
}

/// A file that holds two parts in a row holds each of them.
pub proof fn lemma_held_parts(file: Seq<u8>, pos: int, a: Seq<u8>, b: Seq<u8>)
    requires
        held(file, pos, a + b),
    ensures
        held(file, pos, a),
        held(file, pos + a.len(), b),
{
    let all = a + b;
    let s = file.subrange(pos, pos + all.len());
    assert(s.subrange(0, a.len() as int) =~= a);
    assert(s.subrange(a.len() as int, all.len() as int) =~= b);
    assert(file.subrange(pos, pos + a.len()) =~= s.subrange(0, a.len() as int));
    assert(file.subrange(pos + a.len(), pos + a.len() + b.len()) =~= s.subrange(
        a.len() as int,
        all.len() as int,
    ));
}

/// A file that holds an image holds each part of it.
pub proof fn lemma_held_part(file: Seq<u8>, pos: int, image: Seq<u8>, at: int, part: Seq<u8>)
    requires
        held(file, pos, image),
        held(image, at, part),
    ensures
        held(file, pos + at, part),
{
    let s = file.subrange(pos, pos + image.len());
    assert(file.subrange(pos + at, pos + at + part.len()) =~= s.subrange(at, at + part.len()));
}

/// The bytes that a file holds.
pub proof fn lemma_held_bytes(file: Seq<u8>, pos: int, image: Seq<u8>)
    requires
        held(file, pos, image),
    ensures
        forall|i: int| 0 <= i < image.len() ==> #[trigger] image[i] == file[pos + i],
{
    assert forall|i: int| 0 <= i < image.len() implies #[trigger] image[i] == file[pos + i] by {
        assert(file.subrange(pos, pos + image.len())[i] == image[i]);
    }
}

/// A number that a file holds.
pub proof fn lemma_held_number(file: Seq<u8>, pos: int, v: nat, n: nat)
    requires
        held(file, pos, le_bytes(v, n)),
        v < pow256(n),
    ensures
        le_at(file, pos, n) == v,
{
    lemma_le_bytes_len(v, n);
    lemma_le_round_trip(v, n, file, pos);
}

/// Zero bytes spell zero.
pub proof fn lemma_held_zeros(file: Seq<u8>, pos: int, k: nat, n: nat)
    requires
        held(file, pos, zeros(k)),
        n <= k,
    ensures
        le_at(file, pos, n) == 0,
    decreases n,
{
    if n > 0 {
        lemma_held_bytes(file, pos, zeros(k));
        assert(zeros(k)[0] == 0);
        assert(zeros(k) =~= zeros(1) + zeros((k - 1) as nat));
        lemma_held_parts(file, pos, zeros(1), zeros((k - 1) as nat));
        lemma_held_zeros(file, pos + 1, (k - 1) as nat, (n - 1) as nat);
    }
}

} // verus!
