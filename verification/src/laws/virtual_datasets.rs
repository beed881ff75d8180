//! Virtual datasets: how their sources are written down, and which elements they give.

use vstd::prelude::*;
use vstd::utf8::encode_utf8;
use crate::bytes::{le_at, le_bytes, lemma_le_bytes_len, lemma_pow256_values, pow256, zeros};
use crate::dataset::{Dataset, DatasetModel};
use crate::dataset_reader::element_size;
use crate::dims::{ints, ints64, lemma_product_non_negative, product};
use crate::dtype::{views, Dtype};
use crate::error::{outcomes, ErrorKind, OxiH5Error};
use crate::hyperslab::{law_selected_place_is_within, DimSelection};
use crate::laws::messages::lemma_itself;
use crate::roundtrip::held::{held, lemma_held_bytes, lemma_held_number, lemma_held_parts};
use crate::utf8::{lemma_text_at, nul_free};
use crate::vds::{
    copied, entries_from, entry_at, offsets_of, parse_mapping_block, read_virtual_dataset,
    selection_at, selection_element_offsets, text_at, with_source, with_sources, EntryModel,
    SelectionModel, VdsEntry, VdsSelection,
};

verus! {

/// How a selection is written down: the version, the width of the numbers of a strided
/// selection of version 3, and bytes that are not used.
pub struct SelectionForm {
    pub version: nat,
    pub width: nat,
    pub unused: Seq<u8>,
}

/// Numbers of `width` bytes, one after the other.
pub open spec fn numbers_image(values: Seq<nat>, width: nat) -> Seq<u8>
    decreases values.len(),
{
    if values.len() == 0 {
        Seq::empty()
    } else {
        numbers_image(values.drop_last(), width) + le_bytes(values.last(), width)
    }
}

/// Start, stride, count and block of each dimension.
pub open spec fn slab_numbers(slab: Seq<DimSelection>) -> Seq<nat> {
    Seq::new(
        4 * slab.len(),
        |i: int|
            {
                let s = slab[i / 4];
                if i % 4 == 0 {
                    s.start as nat
                } else if i % 4 == 1 {
                    s.stride as nat
                } else if i % 4 == 2 {
                    s.count as nat
                } else {
                    s.block as nat
                }
            },
    )
}

/// The first position of a block along each dimension, and then the last ones.
pub open spec fn corner_numbers(slab: Seq<DimSelection>) -> Seq<nat> {
    Seq::new(
        2 * slab.len(),
        |i: int|
            if i < slab.len() {
                slab[i].start as nat
            } else {
                (slab[i - slab.len()].start + slab[i - slab.len()].block - 1) as nat
            },
    )
}

/// The bytes of a selection.
pub open spec fn selection_image(selection: SelectionModel, form: SelectionForm) -> Seq<u8> {
    match selection {
        SelectionModel::Nothing => le_bytes(0, 4) + le_bytes(form.version, 4) + form.unused,
        SelectionModel::Everything => le_bytes(3, 4) + le_bytes(form.version, 4) + form.unused,
        SelectionModel::Slab(slab) => le_bytes(2, 4) + le_bytes(form.version, 4) + (
        if form.version == 1 {
            form.unused + le_bytes(slab.len(), 4) + le_bytes(1, 4) + numbers_image(
                corner_numbers(slab),
                4,
            )
        } else if form.version == 2 {
            seq![1u8] + form.unused + le_bytes(slab.len(), 4) + numbers_image(slab_numbers(slab), 8)
        } else {
            seq![1u8, form.width as u8] + le_bytes(slab.len(), 4) + numbers_image(
                slab_numbers(slab),
                form.width,
            )
        }),
    }
}

/// Whether a selection can be written down like this.
pub open spec fn selection_fits(selection: SelectionModel, form: SelectionForm) -> bool {
    &&& form.version <= u32::MAX
    &&& match selection {
        SelectionModel::Nothing => form.unused.len() == 8,
        SelectionModel::Everything => form.unused.len() == 8,
        SelectionModel::Slab(slab) => {
            &&& slab.len() <= u32::MAX
            &&& 1 <= form.version <= 3
            &&& form.version == 1 ==> {
                &&& form.unused.len() == 8
                &&& forall|d: int|
                    0 <= d < slab.len() ==> {
                        &&& (#[trigger] slab[d]).stride == 1
                        &&& slab[d].count == 1
                        &&& slab[d].block >= 1
                        &&& slab[d].start + slab[d].block - 1 <= u32::MAX
                    }
            }
            &&& form.version == 2 ==> form.unused.len() == 4
            &&& form.version == 3 ==> {
                &&& form.width == 2 || form.width == 4 || form.width == 8
                &&& forall|d: int|
                    0 <= d < slab.len() ==> {
                        &&& (#[trigger] slab[d]).start < pow256(form.width)
                        &&& slab[d].stride < pow256(form.width)
                        &&& slab[d].count < pow256(form.width)
                        &&& slab[d].block < pow256(form.width)
                    }
            }
        },
    }
}

/// The bytes of an entry.
pub open spec fn entry_image(
    entry: EntryModel,
    source_form: SelectionForm,
    virtual_form: SelectionForm,
) -> Seq<u8> {
    encode_utf8(entry.source_file).push(0u8) + encode_utf8(entry.source_dataset).push(0u8)
        + selection_image(entry.source_selection, source_form) + selection_image(
        entry.virtual_selection,
        virtual_form,
    )
}

/// Whether an entry can be written down like this.
pub open spec fn entry_fits(
    entry: EntryModel,
    source_form: SelectionForm,
    virtual_form: SelectionForm,
) -> bool {
    &&& nul_free(entry.source_file)
    &&& nul_free(entry.source_dataset)
    &&& selection_fits(entry.source_selection, source_form)
    &&& selection_fits(entry.virtual_selection, virtual_form)
}

/// The bytes of entries, one after the other.
pub open spec fn mapping_image(
    entries: Seq<EntryModel>,
    forms: Seq<(SelectionForm, SelectionForm)>,
) -> Seq<u8>
    decreases entries.len(),
{
    if entries.len() == 0 {
        Seq::empty()
    } else {
        entry_image(entries[0], forms[0].0, forms[0].1) + mapping_image(
            entries.drop_first(),
            forms.drop_first(),
        )
    }
}

pub proof fn lemma_numbers_len(values: Seq<nat>, width: nat)
    ensures
        numbers_image(values, width).len() == values.len() * width,
    decreases values.len(),
{
    if values.len() > 0 {
        let n = values.len() as int;
        lemma_numbers_len(values.drop_last(), width);
        lemma_le_bytes_len(values.last(), width);
        assert(n * width == (n - 1) * width + width) by (nonlinear_arith);
    } else {
        assert(0 * width == 0) by (nonlinear_arith);
    }
}

pub proof fn lemma_number(f: Seq<u8>, pos: int, values: Seq<nat>, width: nat, i: int)
    requires
        held(f, pos, numbers_image(values, width)),
        0 <= i < values.len(),
        values[i] < pow256(width),
    ensures
        le_at(f, pos + i * width, width) == values[i],
    decreases values.len(),
{
    let front = values.drop_last();
    lemma_numbers_len(front, width);
    lemma_held_parts(f, pos, numbers_image(front, width), le_bytes(values.last(), width));
    if i < values.len() - 1 {
        assert(front[i] == values[i]);
        lemma_number(f, pos, front, width, i);
    } else {
        lemma_held_number(f, pos + i * width, values.last(), width);
    }
}

/// The numbers of a strided selection read back.
proof fn lemma_slab_back(f: Seq<u8>, at: int, slab: Seq<DimSelection>, width: nat)
    requires
        held(f, at, numbers_image(slab_numbers(slab), width)),
        width == 2 || width == 4 || width == 8,
        forall|d: int|
            0 <= d < slab.len() ==> {
                &&& (#[trigger] slab[d]).start < pow256(width)
                &&& slab[d].stride < pow256(width)
                &&& slab[d].count < pow256(width)
                &&& slab[d].block < pow256(width)
            },
    ensures
        crate::vds::slab_at(f, at, slab.len(), width) == Ok::<(SelectionModel, int), ErrorKind>(
            (
                SelectionModel::Slab(slab),
                at + numbers_image(slab_numbers(slab), width).len() as int,
            ),
        ),
{
    let values = slab_numbers(slab);
    let rank = slab.len() as int;
    lemma_numbers_len(values, width);
    assert(values.len() * width == rank * (4 * width)) by (nonlinear_arith)
        requires
            values.len() == 4 * rank,
    ;
    let back = Seq::new(
        slab.len(),
        |d: int| crate::vds::dim_at(f, at + d * (4 * width), width),
    );
    assert forall|d: int| 0 <= d < rank implies #[trigger] back[d] == slab[d] by {
        let w = width as int;
        let s = slab[d];
        lemma_number(f, at, values, width, 4 * d);
        lemma_number(f, at, values, width, 4 * d + 1);
        lemma_number(f, at, values, width, 4 * d + 2);
        lemma_number(f, at, values, width, 4 * d + 3);
        assert((4 * d) * w == d * (4 * w) && (4 * d + 1) * w == d * (4 * w) + w && (4 * d + 2) * w
            == d * (4 * w) + 2 * w && (4 * d + 3) * w == d * (4 * w) + 3 * w) by (nonlinear_arith);
    }
    assert(back =~= slab);
}

/// A block reads back from its corners.
proof fn lemma_block_back(f: Seq<u8>, at: int, slab: Seq<DimSelection>)
    requires
        held(f, at, numbers_image(corner_numbers(slab), 4)),
        forall|d: int|
            0 <= d < slab.len() ==> {
                &&& (#[trigger] slab[d]).stride == 1
                &&& slab[d].count == 1
                &&& slab[d].block >= 1
                &&& slab[d].start + slab[d].block - 1 <= u32::MAX
            },
    ensures
        crate::vds::block_at(f, at, slab.len()) == Ok::<(SelectionModel, int), ErrorKind>(
            (SelectionModel::Slab(slab), at + numbers_image(corner_numbers(slab), 4).len() as int),
        ),
{
    let values = corner_numbers(slab);
    let rank = slab.len();
    lemma_numbers_len(values, 4);
    lemma_pow256_values();
    assert forall|d: int| 0 <= d < rank implies le_at(f, at + d * 4, 4) == slab[d].start && (
    #[trigger] le_at(f, at + rank * 4 + d * 4, 4)) == slab[d].start + slab[d].block - 1 by {
        let s = slab[d];
        lemma_number(f, at, values, 4, d);
        lemma_number(f, at, values, 4, d + rank);
    }
    match crate::vds::block_at(f, at, rank) {
        Ok((SelectionModel::Slab(back), _)) => {
            assert forall|d: int| 0 <= d < rank implies #[trigger] back[d] == slab[d] by {
                let s = slab[d];
                assert(le_at(f, at + rank * 4 + d * 4, 4) == s.start + s.block - 1);
            }
            assert(back =~= slab);
        },
        _ => {},
    }
}

/// A selection reads back.
proof fn lemma_selection_back(f: Seq<u8>, pos: int, selection: SelectionModel, form: SelectionForm)
    requires
        held(f, pos, selection_image(selection, form)),
        selection_fits(selection, form),
    ensures
        selection_at(f, pos) == Ok::<(SelectionModel, int), ErrorKind>(
            (selection, pos + selection_image(selection, form).len() as int),
        ),
{
    lemma_pow256_values();
    lemma_le_bytes_len(form.version, 4);
    lemma_le_bytes_len(0, 4);
    lemma_le_bytes_len(1, 4);
    lemma_le_bytes_len(2, 4);
    lemma_le_bytes_len(3, 4);
    let v = le_bytes(form.version, 4);
    match selection {
        SelectionModel::Nothing => {
            lemma_held_parts(f, pos, le_bytes(0, 4) + v, form.unused);
            lemma_held_parts(f, pos, le_bytes(0, 4), v);
            lemma_held_number(f, pos, 0, 4);
            lemma_held_number(f, pos + 4, form.version, 4);
        },
        SelectionModel::Everything => {
            lemma_held_parts(f, pos, le_bytes(3, 4) + v, form.unused);
            lemma_held_parts(f, pos, le_bytes(3, 4), v);
            lemma_held_number(f, pos, 3, 4);
            lemma_held_number(f, pos + 4, form.version, 4);
        },
        SelectionModel::Slab(slab) => {
            let r = le_bytes(slab.len(), 4);
            lemma_le_bytes_len(slab.len(), 4);
            let head = le_bytes(2, 4) + v;
            if form.version == 1 {
                let one = le_bytes(1, 4);
                let n = numbers_image(corner_numbers(slab), 4);
                lemma_held_parts(f, pos, head, form.unused + r + one + n);
                lemma_held_parts(f, pos + 8, form.unused + r + one, n);
                lemma_held_parts(f, pos + 8, form.unused + r, one);
                lemma_held_parts(f, pos + 8, form.unused, r);
                lemma_held_number(f, pos + 16, slab.len(), 4);
                lemma_held_number(f, pos + 20, 1, 4);
                lemma_block_back(f, pos + 24, slab);
            } else if form.version == 2 {
                let n = numbers_image(slab_numbers(slab), 8);
                let flag = seq![1u8];
                lemma_held_parts(f, pos, head, flag + form.unused + r + n);
                lemma_held_parts(f, pos + 8, flag + form.unused + r, n);
                lemma_held_parts(f, pos + 8, flag + form.unused, r);
                lemma_held_parts(f, pos + 8, flag, form.unused);
                lemma_held_bytes(f, pos + 8, flag);
                assert(flag[0] == f[pos + 8 + 0]);
                lemma_held_number(f, pos + 13, slab.len(), 4);
                lemma_slab_back(f, pos + 17, slab, 8);
            } else {
                let n = numbers_image(slab_numbers(slab), form.width);
                let flags = seq![1u8, form.width as u8];
                lemma_held_parts(f, pos, head, flags + r + n);
                lemma_held_parts(f, pos + 8, flags + r, n);
                lemma_held_parts(f, pos + 8, flags, r);
                lemma_held_bytes(f, pos + 8, flags);
                assert(flags[0] == f[pos + 8 + 0] && flags[1] == f[pos + 8 + 1]);
                lemma_held_number(f, pos + 10, slab.len(), 4);
                lemma_slab_back(f, pos + 14, slab, form.width);
            }
            lemma_held_parts(f, pos, le_bytes(2, 4), v);
            lemma_held_number(f, pos, 2, 4);
            lemma_held_number(f, pos + 4, form.version, 4);
        },
    }
}

proof fn lemma_text_back(f: Seq<u8>, pos: int, chars: Seq<char>)
    requires
        held(f, pos, encode_utf8(chars).push(0u8)),
        nul_free(chars),
    ensures
        text_at(f, pos) == Ok::<(Seq<char>, int), ErrorKind>(
            (chars, pos + encode_utf8(chars).len() + 1),
        ),
{
    let e = encode_utf8(chars);
    assert(e.push(0u8) =~= e + seq![0u8]);
    lemma_held_parts(f, pos, e, seq![0u8]);
    lemma_held_bytes(f, pos + e.len(), seq![0u8]);
    assert(seq![0u8][0] == f[pos + e.len() + 0]);
    lemma_text_at(f, pos, chars);
}

proof fn lemma_entry_back(
    f: Seq<u8>,
    pos: int,
    entry: EntryModel,
    source_form: SelectionForm,
    virtual_form: SelectionForm,
)
    requires
        held(f, pos, entry_image(entry, source_form, virtual_form)),
        entry_fits(entry, source_form, virtual_form),
    ensures
        entry_at(f, pos) == Ok::<(EntryModel, int), ErrorKind>(
            (entry, pos + entry_image(entry, source_form, virtual_form).len() as int),
        ),
{
    let a = encode_utf8(entry.source_file).push(0u8);
    let b = encode_utf8(entry.source_dataset).push(0u8);
    let c = selection_image(entry.source_selection, source_form);
    let d = selection_image(entry.virtual_selection, virtual_form);
    lemma_held_parts(f, pos, a + b + c, d);
    lemma_held_parts(f, pos, a + b, c);
    lemma_held_parts(f, pos, a, b);
    lemma_text_back(f, pos, entry.source_file);
    lemma_text_back(f, pos + a.len(), entry.source_dataset);
    lemma_selection_back(f, pos + a.len() + b.len(), entry.source_selection, source_form);
    lemma_selection_back(
        f,
        pos + a.len() + b.len() + c.len(),
        entry.virtual_selection,
        virtual_form,
    );
}

proof fn lemma_entries_back(
    f: Seq<u8>,
    pos: int,
    entries: Seq<EntryModel>,
    forms: Seq<(SelectionForm, SelectionForm)>,
    found: Seq<EntryModel>,
)
    requires
        held(f, pos, mapping_image(entries, forms)),
        forms.len() == entries.len(),
        forall|i: int|
            0 <= i < entries.len() ==> entry_fits(#[trigger] entries[i], forms[i].0, forms[i].1),
    ensures
        entries_from(f, pos, entries.len(), found) == Ok::<Seq<EntryModel>, ErrorKind>(
            found + entries,
        ),
    decreases entries.len(),
{
    if entries.len() > 0 {
        let first = entry_image(entries[0], forms[0].0, forms[0].1);
        let rest = entries.drop_first();
        let others = forms.drop_first();
        lemma_held_parts(f, pos, first, mapping_image(rest, others));
        lemma_entry_back(f, pos, entries[0], forms[0].0, forms[0].1);
        assert forall|i: int| 0 <= i < rest.len() implies entry_fits(
            #[trigger] rest[i],
            others[i].0,
            others[i].1,
        ) by {
            assert(rest[i] == entries[i + 1] && others[i] == forms[i + 1]);
        }
        lemma_entries_back(f, pos + first.len(), rest, others, found.push(entries[0]));
        assert(found.push(entries[0]) + rest =~= found + entries);
    } else {
        assert(found + entries =~= found);
    }
}

/// The description of a virtual dataset is read as the entries in it, in their order: the
/// names of file and dataset, and which elements of the source become which elements of
/// the virtual dataset, however each selection is written down.
pub proof fn law_mapping_block(
    data: &[u8],
    size_of_lengths: u8,
    entries: Seq<EntryModel>,
    forms: Seq<(SelectionForm, SelectionForm)>,
    behind: Seq<u8>,
    r: Result<Vec<VdsEntry>, OxiH5Error>,
)
    requires
        size_of_lengths <= 8,
        entries.len() < pow256(size_of_lengths as nat),
        forms.len() == entries.len(),
        forall|i: int|
            0 <= i < entries.len() ==> entry_fits(#[trigger] entries[i], forms[i].0, forms[i].1),
        data@ == seq![0u8] + le_bytes(entries.len(), size_of_lengths as nat) + mapping_image(
            entries,
            forms,
        ) + behind,
        call_ensures(parse_mapping_block, (data, size_of_lengths), r),
    ensures
        outcomes(r) == Ok::<Seq<EntryModel>, ErrorKind>(entries),
{
    let f = data@;
    let a = seq![0u8];
    let b = le_bytes(entries.len(), size_of_lengths as nat);
    let c = mapping_image(entries, forms);
    lemma_itself(f);
    lemma_le_bytes_len(entries.len(), size_of_lengths as nat);
    lemma_held_parts(f, 0, a + b + c, behind);
    lemma_held_parts(f, 0, a + b, c);
    lemma_held_parts(f, 0, a, b);
    lemma_held_bytes(f, 0, a);
    assert(a[0] == f[0]);
    lemma_held_number(f, 1, entries.len(), size_of_lengths as nat);
    lemma_entries_back(f, 1 + size_of_lengths as int, entries, forms, Seq::empty());
    assert(Seq::<EntryModel>::empty() + entries =~= entries);
}

/// Which elements a selection of nothing, and one of everything, has.
pub proof fn law_plain_selections(
    selection: &VdsSelection,
    dims: &[u64],
    r: Result<Vec<usize>, OxiH5Error>,
    i: int,
)
    requires
        call_ensures(selection_element_offsets, (selection, dims), r),
        product(ints64(dims@)) <= usize::MAX,
    ensures
        *selection is Nothing ==> r is Ok && r->Ok_0@.len() == 0,
        *selection is Everything && product(ints64(dims@)) >= 0 ==> {
            &&& r is Ok
            &&& r->Ok_0@.len() == product(ints64(dims@))
            &&& 0 <= i < r->Ok_0@.len() ==> r->Ok_0@[i] == i
        },
{
    if r is Ok {
        let places = ints(r->Ok_0@);
        assert(places.len() == r->Ok_0@.len());
        if 0 <= i < places.len() {
            assert(places[i] == r->Ok_0@[i]);
        }
    }
}

/// What copying leaves at an element: the last one copied there, or what was there.
proof fn lemma_copied_element(
    out: Seq<u8>,
    data: Seq<u8>,
    from: Seq<int>,
    to: Seq<int>,
    es: nat,
    n: nat,
    k: int,
    t: int,
    b: int,
)
    requires
        copied(out, data, from, to, es, n) is Ok,
        n <= from.len(),
        from.len() == to.len(),
        -1 <= k < n,
        k >= 0 ==> to[k] == t,
        forall|i: int| k < i < n ==> #[trigger] to[i] != t,
        forall|i: int| 0 <= i < n ==> 0 <= #[trigger] from[i],
        forall|i: int| 0 <= i < n ==> 0 <= #[trigger] to[i],
        0 <= b < es,
        0 <= t,
        t * es + es <= out.len(),
    ensures
        copied(out, data, from, to, es, n)->Ok_0.len() == out.len(),
        copied(out, data, from, to, es, n)->Ok_0[t * es + b] == if k >= 0 {
            data[from[k] * es + b]
        } else {
            out[t * es + b]
        },
        k >= 0 ==> from[k] * es + es <= data.len(),
    decreases n,
{
    if n > 0 {
        let front = copied(out, data, from, to, es, (n - 1) as nat)->Ok_0;
        let last = n - 1;
        let p = from[last] * es;
        let q = to[last] * es;
        let w = es as int;
        let u = to[last];
        assert(0 <= from[last] * w && 0 <= t * w && 0 <= u * w) by (nonlinear_arith)
            requires
                0 <= from[last],
                0 <= t,
                0 <= u,
                0 <= w,
        ;
        if k == last {
            if last > 0 {
                let j = last_place(to, t, last as nat);
                lemma_last_place(to, t, last as nat);
                lemma_copied_element(out, data, from, to, es, last as nat, j, t, b);
            }
            assert(data.subrange(p, p + es)[b] == data[p + b]);
        } else {
            lemma_copied_element(out, data, from, to, es, last as nat, k, t, b);
            assert(u != t);
            assert(t * w + b < u * w || u * w + w <= t * w + b) by (nonlinear_arith)
                requires
                    u != t,
                    0 <= b < w,
            ;
        }
    }
}

/// The last of the first `n` places that is `t`, or -1.
pub open spec fn last_place(to: Seq<int>, t: int, n: nat) -> int
    decreases n,
{
    if n == 0 {
        -1
    } else if to[n - 1] == t {
        n - 1
    } else {
        last_place(to, t, (n - 1) as nat)
    }
}

proof fn lemma_last_place(to: Seq<int>, t: int, n: nat)
    requires
        n <= to.len(),
    ensures
        -1 <= last_place(to, t, n) < n,
        last_place(to, t, n) >= 0 ==> to[last_place(to, t, n)] == t,
        forall|i: int| last_place(to, t, n) < i < n ==> #[trigger] to[i] != t,
    decreases n,
{
    if n > 0 {
        lemma_last_place(to, t, (n - 1) as nat);
    }
}

/// Whether an entry places no element at `t`.
pub open spec fn leaves_alone(entry: EntryModel, dims: Seq<int>, t: int) -> bool {
    forall|i: int|
        0 <= i < offsets_of(entry.virtual_selection, dims)->Ok_0.len() ==> #[trigger] offsets_of(
            entry.virtual_selection,
            dims,
        )->Ok_0[i] != t
}

/// Where selected elements are.
proof fn lemma_offsets(selection: SelectionModel, dims: Seq<int>)
    requires
        offsets_of(selection, dims) is Ok,
        forall|d: int| 0 <= d < dims.len() ==> 0 <= #[trigger] dims[d],
    ensures
        forall|i: int|
            0 <= i < offsets_of(selection, dims)->Ok_0.len() ==> 0 <= (#[trigger] offsets_of(
                selection,
                dims,
            )->Ok_0[i]) < product(dims),
{
    lemma_product_non_negative(dims);
    match selection {
        SelectionModel::Slab(slab) => {
            let shape = crate::hyperslab::selected_shape(slab);
            let n = product(shape);
            assert forall|d: int| 0 <= d < shape.len() implies 0 <= #[trigger] shape[d] by {
                assert(slab[d].count * slab[d].block >= 0) by (nonlinear_arith);
            }
            lemma_product_non_negative(shape);
            assert forall|e: int| 0 <= e < n implies 0 <= (
            #[trigger] crate::hyperslab::selected_place(dims, slab, e)) < product(dims) by {
                law_selected_place_is_within(dims, slab, e);
            }
            assert forall|i: int| 0 <= i < offsets_of(selection, dims)->Ok_0.len() implies 0 <= (
            #[trigger] offsets_of(selection, dims)->Ok_0[i]) < product(dims) by {
                assert(offsets_of(selection, dims)->Ok_0[i] == crate::hyperslab::selected_place(
                    dims,
                    slab,
                    i,
                ));
            }
        },
        _ => {},
    }
}

proof fn lemma_sources_element(
    out: Seq<u8>,
    dims: Seq<int>,
    entries: Seq<EntryModel>,
    sources: Seq<DatasetModel>,
    es: nat,
    n: nat,
    e: int,
    k: int,
    t: int,
    b: int,
)
    requires
        with_sources(out, dims, entries, sources, es, n) is Ok,
        n <= entries.len() == sources.len(),
        -1 <= e < n,
        forall|d: int| 0 <= d < dims.len() ==> 0 <= #[trigger] dims[d],
        forall|i: int, d: int|
            0 <= i < n && 0 <= d < sources[i].shape.len() ==> 0 <= #[trigger] sources[i].shape[d],
        e >= 0 ==> {
            let to = offsets_of(entries[e].virtual_selection, dims)->Ok_0;
            &&& 0 <= k < to.len()
            &&& to[k] == t
            &&& forall|i: int| k < i < to.len() ==> #[trigger] to[i] != t
        },
        forall|i: int| e < i < n ==> leaves_alone(#[trigger] entries[i], dims, t),
        0 <= b < es,
        0 <= t,
        t * es + es <= out.len(),
    ensures
        ({
            let new = with_sources(out, dims, entries, sources, es, n)->Ok_0;
            &&& new.len() == out.len()
            &&& e < 0 ==> new[t * es + b] == out[t * es + b]
            &&& e >= 0 ==> {
                let from = offsets_of(entries[e].source_selection, sources[e].shape)->Ok_0;
                &&& k < from.len()
                &&& from[k] * es + es <= sources[e].data.len()
                &&& new[t * es + b] == sources[e].data[from[k] * es + b]
            }
        }),
    decreases n,
{
    if n > 0 {
        let last = n - 1;
        let front = with_sources(out, dims, entries, sources, es, last as nat)->Ok_0;
        assert(with_source(front, dims, entries[last], sources[last], es) is Ok);
        let from = offsets_of(entries[last].source_selection, sources[last].shape)->Ok_0;
        let to = offsets_of(entries[last].virtual_selection, dims)->Ok_0;
        lemma_offsets(entries[last].virtual_selection, dims);
        assert forall|d: int| 0 <= d < sources[last].shape.len() implies 0
            <= #[trigger] sources[last].shape[d] by {}
        lemma_offsets(entries[last].source_selection, sources[last].shape);
        if e == last {
            lemma_with_sources_len(out, dims, entries, sources, es, last as nat);
            lemma_copied_element(front, sources[last].data, from, to, es, from.len(), k, t, b);
        } else {
            lemma_sources_element(out, dims, entries, sources, es, last as nat, e, k, t, b);
            assert(leaves_alone(entries[last], dims, t));
            lemma_copied_element(front, sources[last].data, from, to, es, from.len(), -1, t, b);
        }
    }
}

proof fn lemma_with_sources_len(
    out: Seq<u8>,
    dims: Seq<int>,
    entries: Seq<EntryModel>,
    sources: Seq<DatasetModel>,
    es: nat,
    n: nat,
)
    requires
        with_sources(out, dims, entries, sources, es, n) is Ok,
    ensures
        with_sources(out, dims, entries, sources, es, n)->Ok_0.len() == out.len(),
    decreases n,
{
    if n > 0 {
        let last = n - 1;
        lemma_with_sources_len(out, dims, entries, sources, es, last as nat);
        let front = with_sources(out, dims, entries, sources, es, last as nat)->Ok_0;
        let from = offsets_of(entries[last].source_selection, sources[last].shape)->Ok_0;
        let to = offsets_of(entries[last].virtual_selection, dims)->Ok_0;
        crate::vds::lemma_copied(
            front,
            sources[last].data,
            from,
            to,
            es,
            from.len(),
            from.len(),
        );
    }
}

/// An element of a virtual dataset that a source supplies: the `k`-th element that the last
/// entry to place one there takes from its source is the `k`-th that it places.
pub proof fn law_virtual_element(
    dims: &[u64],
    dtype: &Dtype,
    entries: &[VdsEntry],
    sources: &[Dataset],
    r: Result<Vec<u8>, OxiH5Error>,
    extents: &[u64],
    from: Result<Vec<usize>, OxiH5Error>,
    to: Result<Vec<usize>, OxiH5Error>,
    e: int,
    k: int,
    b: int,
)
    requires
        call_ensures(read_virtual_dataset, (dims, dtype, entries, sources), r),
        r is Ok,
        0 <= e < entries@.len(),
        ints64(extents@) == ints(sources@[e].shape@),
        call_ensures(selection_element_offsets, (&entries@[e].source_selection, extents), from),
        call_ensures(selection_element_offsets, (&entries@[e].virtual_selection, dims), to),
        to is Ok,
        0 <= k < to->Ok_0@.len(),
        forall|i: int| k < i < to->Ok_0@.len() ==> #[trigger] to->Ok_0@[i] != to->Ok_0@[k],
        forall|i: int|
            e < i < entries@.len() ==> leaves_alone(
                #[trigger] entries@[i]@,
                ints64(dims@),
                to->Ok_0@[k] as int,
            ),
        0 <= b < element_size(dtype@)->Ok_0,
    ensures
        ({
            let es = element_size(dtype@)->Ok_0;
            &&& r->Ok_0@.len() == product(ints64(dims@)) * es
            &&& from is Ok
            &&& from->Ok_0@.len() == to->Ok_0@.len()
            &&& r->Ok_0@[to->Ok_0@[k] * es + b] == sources@[e].data@[from->Ok_0@[k] * es + b]
        }),
{
    let extent = ints64(dims@);
    let es = element_size(dtype@)->Ok_0;
    let out = zeros((product(extent) * es) as nat);
    let all = views(entries@);
    let given = views(sources@);
    let t = to->Ok_0@[k] as int;
    let places = ints(to->Ok_0@);
    assert(all[e] == entries@[e]@ && given[e] == sources@[e]@);
    assert(places == offsets_of(all[e].virtual_selection, extent)->Ok_0);
    assert forall|i: int| k < i < places.len() implies #[trigger] places[i] != t by {
        assert(to->Ok_0@[i] != to->Ok_0@[k]);
    }
    assert forall|i: int| e < i < all.len() implies leaves_alone(#[trigger] all[i], extent, t) by {
        assert(all[i] == entries@[i]@);
    }
    lemma_offsets(all[e].virtual_selection, extent);
    assert(places[k] == t);
    lemma_room(t, product(extent), es as int);
    lemma_shapes(sources@);
    lemma_sources_element(out, extent, all, given, es as nat, all.len(), e, k, t, b);
    lemma_source_offsets(out, extent, all, given, es as nat, all.len(), e);
    assert(ints(from->Ok_0@)[k] == from->Ok_0@[k]);
}

/// The selections of an entry that was copied have as many elements.
proof fn lemma_source_offsets(
    out: Seq<u8>,
    dims: Seq<int>,
    entries: Seq<EntryModel>,
    sources: Seq<DatasetModel>,
    es: nat,
    n: nat,
    e: int,
)
    requires
        with_sources(out, dims, entries, sources, es, n) is Ok,
        0 <= e < n,
    ensures
        offsets_of(entries[e].source_selection, sources[e].shape) is Ok,
        offsets_of(entries[e].virtual_selection, dims) is Ok,
        offsets_of(entries[e].source_selection, sources[e].shape)->Ok_0.len() == offsets_of(
            entries[e].virtual_selection,
            dims,
        )->Ok_0.len(),
    decreases n,
{
    if e < n - 1 {
        lemma_source_offsets(out, dims, entries, sources, es, (n - 1) as nat, e);
    }
}

proof fn lemma_shapes(sources: Seq<Dataset>)
    ensures
        forall|i: int, d: int|
            0 <= i < sources.len() && 0 <= d < views(sources)[i].shape.len() ==> 0
                <= #[trigger] views(sources)[i].shape[d],
{
    assert forall|i: int, d: int|
        0 <= i < sources.len() && 0 <= d < views(sources)[i].shape.len() implies 0
        <= #[trigger] views(sources)[i].shape[d] by {
        assert(views(sources)[i] == sources[i]@);
        assert(views(sources)[i].shape[d] == sources[i].shape@[d]);
    }
}

proof fn lemma_room(t: int, n: int, es: int)
    requires
        0 <= t < n,
        0 <= es,
    ensures
        0 <= t * es,
        t * es + es <= n * es,
{
    assert(0 <= t * es && t * es + es <= n * es) by (nonlinear_arith)
        requires
            0 <= t < n,
            0 <= es,
    ;
}

/// An element of a virtual dataset that no source supplies is zero.
pub proof fn law_element_of_no_source(
    dims: &[u64],
    dtype: &Dtype,
    entries: &[VdsEntry],
    sources: &[Dataset],
    r: Result<Vec<u8>, OxiH5Error>,
    t: int,
    b: int,
)
    requires
        call_ensures(read_virtual_dataset, (dims, dtype, entries, sources), r),
        r is Ok,
        0 <= t < product(ints64(dims@)),
        forall|i: int|
            0 <= i < entries@.len() ==> leaves_alone(#[trigger] entries@[i]@, ints64(dims@), t),
        0 <= b < element_size(dtype@)->Ok_0,
    ensures
        r->Ok_0@.len() == product(ints64(dims@)) * element_size(dtype@)->Ok_0,
        r->Ok_0@[t * element_size(dtype@)->Ok_0 + b] == 0,
{
    let extent = ints64(dims@);
    let es = element_size(dtype@)->Ok_0;
    let out = zeros((product(extent) * es) as nat);
    let all = views(entries@);
    let given = views(sources@);
    assert forall|i: int| -1 < i < all.len() implies leaves_alone(#[trigger] all[i], extent, t) by {
        assert(all[i] == entries@[i]@);
    }
    lemma_room(t, product(extent), es as int);
    lemma_shapes(sources@);
    lemma_sources_element(out, extent, all, given, es as nat, all.len(), -1, 0, t, b);
}

} // verus!
