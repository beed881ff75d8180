//! Files: what is written through the writer is read through the reader.

use vstd::prelude::*;
use crate::bytes::{le_bytes, lemma_le_bytes_len, lemma_pow256_values, pow256, signed_bits};
use crate::dataset::{Dataset, DatasetModel};
use crate::dims::{ints, strides_fit};
use crate::dtype::ByteOrder;
use crate::error::{outcome, ErrorKind, OxiH5Error};
use crate::file::File;
use crate::filters::apply_pipeline;
use crate::laws::elements::{
    law_f32_elements, law_f64_elements, law_i32_elements, law_i64_elements, law_u8_elements,
    spells_all,
};
use crate::laws::spelling::{lemma_piece, piece, spelled};
use crate::roundtrip::datasets::{
    law_chunked_dataset_reads_back, law_contiguous_dataset_reads_back,
    law_own_decoder_undoes_filters, leads_to_dataset,
};
use crate::roundtrip::file::{read_dataset_model, readable};
use crate::roundtrip::writer::{
    flat, law_flat_file_is_written, law_flat_file_reads_back, law_writer_stays_flat, names_nul_free,
};
use crate::utf8::nul_free;
use crate::write::elem::{dtype_of, ElemType};
use crate::write::emit::{build_bytes, file_addresses, written_file};
use crate::write::measure::room_for;
use crate::write::tree::{
    dataset_position, group_position, DatasetDesc, GroupModel, GroupNode,
};
use crate::write::{numbers_image, refused, signed32, signed64, words32, words64, FileWriter};

verus! {

/// Numbers that are written one after the other lie one after the other.
proof fn lemma_numbers_spelled(values: Seq<nat>, width: nat)
    requires
        width > 0,
        forall|i: int| 0 <= i < values.len() ==> #[trigger] values[i] < pow256(width),
    ensures
        spells_all(numbers_image(values, width), values, width, ByteOrder::Little),
    decreases values.len(),
{
    let data = numbers_image(values, width);
    let n = values.len() as int;
    if n > 0 {
        let front = values.drop_last();
        let before = numbers_image(front, width);
        assert forall|i: int| 0 <= i < front.len() implies #[trigger] front[i] < pow256(width) by {
            assert(front[i] == values[i]);
        }
        lemma_numbers_spelled(front, width);
        lemma_le_bytes_len(values.last(), width);
        assert((n - 1) * width + width == n * width) by (nonlinear_arith);
        assert forall|i: int| 0 <= i < n implies {
            &&& #[trigger] values[i] < pow256(width)
            &&& piece(data, i, width) == spelled(values[i], width, ByteOrder::Little)
        } by {
            lemma_piece(data, n as nat, width, i);
            if i < n - 1 {
                lemma_piece(before, (n - 1) as nat, width, i);
                assert(front[i] == values[i]);
                assert(piece(data, i, width) =~= piece(before, i, width));
            } else {
                assert(piece(data, i, width) =~= le_bytes(values[i], width));
            }
        }
    } else {
        assert(0 * width == 0) by (nonlinear_arith);
    }
}

/// A byte spells itself.
proof fn lemma_bytes_spelled(data: Seq<u8>)
    ensures
        spells_all(
            data,
            Seq::new(data.len(), |i: int| data[i] as nat),
            1,
            ByteOrder::Little,
        ),
{
    lemma_pow256_values();
    let values = Seq::new(data.len(), |i: int| data[i] as nat);
    assert forall|i: int| 0 <= i < values.len() implies {
        &&& #[trigger] values[i] < pow256(1)
        &&& piece(data, i, 1) == spelled(values[i], 1, ByteOrder::Little)
    } by {
        reveal_with_fuel(le_bytes, 2);
        assert(piece(data, i, 1) =~= le_bytes(values[i], 1));
    }
}

/// A flat file that a writer with one more dataset gives is read under the name of that
/// dataset as its elements, its shape and its type.
proof fn lemma_added_is_read(
    before: GroupModel,
    root: GroupModel,
    name: Seq<char>,
    raw: Seq<u8>,
    shape: Seq<usize>,
    elem_type: ElemType,
    bytes: Seq<u8>,
    file: &mut File,
    path: &str,
    read: Result<Dataset, OxiH5Error>,
)
    requires
        flat(before),
        names_nul_free(before),
        nul_free(name),
        !crate::write::refused(before, name),
        crate::write::with_dataset(before, root, name, raw, shape, elem_type),
        written_file(root) == Ok::<Seq<u8>, ErrorKind>(bytes),
        bytes.len() <= usize::MAX,
        old(file).data@ == bytes,
        path@ == name,
        call_ensures(File::dataset, (file, path), read),
    ensures
        read is Ok,
        read->Ok_0@ == (DatasetModel {
            data: raw,
            shape: ints(shape),
            dtype: dtype_of(elem_type),
            attributes: Seq::empty(),
        }),
{
    law_writer_stays_flat(before, root, name, raw, shape, elem_type);
    let i = root.datasets.len() - 1;
    assert(names_nul_free(root)) by {
        assert forall|k: int| 0 <= k < root.datasets.len() implies nul_free(
            (#[trigger] root.datasets[k]).name@,
        ) by {
            if k < i {
                assert(root.datasets.drop_last()[k] == before.datasets[k]);
            }
        }
    }
    law_flat_file_reads_back(
        root,
        bytes,
        i,
        apply_pipeline,
        old(file).chunk_cache@,
        final(file).chunk_cache@,
        read,
    );
}

/// A dataset of single-precision numbers that was accepted by a writer is read from the file
/// that the writer builds, under its name, with its shape and with exactly these numbers.
pub proof fn law_written_f32_is_read(
    writer: &mut FileWriter,
    name: &str,
    data: &[u32],
    shape: &[usize],
    added: Result<&mut FileWriter, OxiH5Error>,
    built: Result<Vec<u8>, OxiH5Error>,
    bytes: &[u8],
    opened: Result<File, OxiH5Error>,
    file: &mut File,
    read: Result<Dataset, OxiH5Error>,
    numbers: Result<Vec<u32>, OxiH5Error>,
)
    requires
        flat(old(writer)@),
        names_nul_free(old(writer)@),
        nul_free(name@),
        call_ensures(FileWriter::write_dataset_f32, (writer, name, data, shape), added),
        added is Ok,
        call_ensures(FileWriter::build_to_vec, (added->Ok_0,), built),
        built is Ok,
        bytes@ == built->Ok_0@,
        call_ensures(File::open_from_bytes, (bytes,), opened),
        opened is Ok,
        *old(file) == opened->Ok_0,
        call_ensures(File::dataset, (file, name), read),
        read is Ok ==> call_ensures(Dataset::as_f32, (&read->Ok_0,), numbers),
    ensures
        read is Ok,
        read->Ok_0@.shape == ints(shape@),
        read->Ok_0@.attributes.len() == 0,
        outcome(numbers) == Ok::<Seq<u32>, ErrorKind>(data@),
{
    assert(bytes.len() <= usize::MAX);
    lemma_pow256_values();
    let raw = numbers_image(words32(data@), 4);
    lemma_added_is_read(
        old(writer)@,
        old(added->Ok_0)@,
        name@,
        raw,
        shape@,
        ElemType::F32,
        bytes@,
        file,
        name,
        read,
    );
    let values = Seq::new(data@.len(), |i: int| data@[i] as nat);
    assert(words32(data@) =~= values);
    lemma_numbers_spelled(values, 4);
    law_f32_elements(&read->Ok_0, data@, ByteOrder::Little, numbers);
}

/// A dataset of double-precision numbers that was accepted by a writer is read from the file
/// that the writer builds, under its name, with its shape and with exactly these numbers.
pub proof fn law_written_f64_is_read(
    writer: &mut FileWriter,
    name: &str,
    data: &[u64],
    shape: &[usize],
    added: Result<&mut FileWriter, OxiH5Error>,
    built: Result<Vec<u8>, OxiH5Error>,
    bytes: &[u8],
    opened: Result<File, OxiH5Error>,
    file: &mut File,
    read: Result<Dataset, OxiH5Error>,
    numbers: Result<Vec<u64>, OxiH5Error>,
)
    requires
        flat(old(writer)@),
        names_nul_free(old(writer)@),
        nul_free(name@),
        call_ensures(FileWriter::write_dataset_f64, (writer, name, data, shape), added),
        added is Ok,
        call_ensures(FileWriter::build_to_vec, (added->Ok_0,), built),
        built is Ok,
        bytes@ == built->Ok_0@,
        call_ensures(File::open_from_bytes, (bytes,), opened),
        opened is Ok,
        *old(file) == opened->Ok_0,
        call_ensures(File::dataset, (file, name), read),
        read is Ok ==> call_ensures(Dataset::as_f64, (&read->Ok_0,), numbers),
    ensures
        read is Ok,
        read->Ok_0@.shape == ints(shape@),
        read->Ok_0@.attributes.len() == 0,
        outcome(numbers) == Ok::<Seq<u64>, ErrorKind>(data@),
{
    assert(bytes.len() <= usize::MAX);
    lemma_pow256_values();
    let raw = numbers_image(words64(data@), 8);
    lemma_added_is_read(
        old(writer)@,
        old(added->Ok_0)@,
        name@,
        raw,
        shape@,
        ElemType::F64,
        bytes@,
        file,
        name,
        read,
    );
    let values = Seq::new(data@.len(), |i: int| data@[i] as nat);
    assert(words64(data@) =~= values);
    lemma_numbers_spelled(values, 8);
    law_f64_elements(&read->Ok_0, data@, ByteOrder::Little, numbers);
}

/// A dataset of integers of 4 bytes that was accepted by a writer is read from the file that the
/// writer builds, under its name, with its shape and with exactly these numbers.
pub proof fn law_written_i32_is_read(
    writer: &mut FileWriter,
    name: &str,
    data: &[i32],
    shape: &[usize],
    added: Result<&mut FileWriter, OxiH5Error>,
    built: Result<Vec<u8>, OxiH5Error>,
    bytes: &[u8],
    opened: Result<File, OxiH5Error>,
    file: &mut File,
    read: Result<Dataset, OxiH5Error>,
    numbers: Result<Vec<i32>, OxiH5Error>,
)
    requires
        flat(old(writer)@),
        names_nul_free(old(writer)@),
        nul_free(name@),
        call_ensures(FileWriter::write_dataset_i32, (writer, name, data, shape), added),
        added is Ok,
        call_ensures(FileWriter::build_to_vec, (added->Ok_0,), built),
        built is Ok,
        bytes@ == built->Ok_0@,
        call_ensures(File::open_from_bytes, (bytes,), opened),
        opened is Ok,
        *old(file) == opened->Ok_0,
        call_ensures(File::dataset, (file, name), read),
        read is Ok ==> call_ensures(Dataset::as_i32, (&read->Ok_0,), numbers),
    ensures
        read is Ok,
        read->Ok_0@.shape == ints(shape@),
        read->Ok_0@.attributes.len() == 0,
        outcome(numbers) == Ok::<Seq<i32>, ErrorKind>(data@),
{
    assert(bytes.len() <= usize::MAX);
    lemma_pow256_values();
    let raw = numbers_image(signed32(data@), 4);
    lemma_added_is_read(
        old(writer)@,
        old(added->Ok_0)@,
        name@,
        raw,
        shape@,
        ElemType::I32,
        bytes@,
        file,
        name,
        read,
    );
    let values = Seq::new(data@.len(), |i: int| signed_bits(data@[i] as int, 4));
    assert(signed32(data@) =~= values);
    lemma_numbers_spelled(values, 4);
    law_i32_elements(&read->Ok_0, data@, ByteOrder::Little, numbers);
}

/// A dataset of integers of 8 bytes that was accepted by a writer is read from the file that the
/// writer builds, under its name, with its shape and with exactly these numbers.
pub proof fn law_written_i64_is_read(
    writer: &mut FileWriter,
    name: &str,
    data: &[i64],
    shape: &[usize],
    added: Result<&mut FileWriter, OxiH5Error>,
    built: Result<Vec<u8>, OxiH5Error>,
    bytes: &[u8],
    opened: Result<File, OxiH5Error>,
    file: &mut File,
    read: Result<Dataset, OxiH5Error>,
    numbers: Result<Vec<i64>, OxiH5Error>,
)
    requires
        flat(old(writer)@),
        names_nul_free(old(writer)@),
        nul_free(name@),
        call_ensures(FileWriter::write_dataset_i64, (writer, name, data, shape), added),
        added is Ok,
        call_ensures(FileWriter::build_to_vec, (added->Ok_0,), built),
        built is Ok,
        bytes@ == built->Ok_0@,
        call_ensures(File::open_from_bytes, (bytes,), opened),
        opened is Ok,
        *old(file) == opened->Ok_0,
        call_ensures(File::dataset, (file, name), read),
        read is Ok ==> call_ensures(Dataset::as_i64, (&read->Ok_0,), numbers),
    ensures
        read is Ok,
        read->Ok_0@.shape == ints(shape@),
        read->Ok_0@.attributes.len() == 0,
        outcome(numbers) == Ok::<Seq<i64>, ErrorKind>(data@),
{
    assert(bytes.len() <= usize::MAX);
    lemma_pow256_values();
    let raw = numbers_image(signed64(data@), 8);
    lemma_added_is_read(
        old(writer)@,
        old(added->Ok_0)@,
        name@,
        raw,
        shape@,
        ElemType::I64,
        bytes@,
        file,
        name,
        read,
    );
    let values = Seq::new(data@.len(), |i: int| signed_bits(data@[i] as int, 8));
    assert(signed64(data@) =~= values);
    lemma_numbers_spelled(values, 8);
    law_i64_elements(&read->Ok_0, data@, ByteOrder::Little, numbers);
}

/// A dataset of bytes that was accepted by a writer is read from the file that the
/// writer builds, under its name, with its shape and with exactly these numbers.
pub proof fn law_written_u8_is_read(
    writer: &mut FileWriter,
    name: &str,
    data: &[u8],
    shape: &[usize],
    added: Result<&mut FileWriter, OxiH5Error>,
    built: Result<Vec<u8>, OxiH5Error>,
    bytes: &[u8],
    opened: Result<File, OxiH5Error>,
    file: &mut File,
    read: Result<Dataset, OxiH5Error>,
    numbers: Result<Vec<u8>, OxiH5Error>,
)
    requires
        flat(old(writer)@),
        names_nul_free(old(writer)@),
        nul_free(name@),
        call_ensures(FileWriter::write_dataset_u8, (writer, name, data, shape), added),
        added is Ok,
        call_ensures(FileWriter::build_to_vec, (added->Ok_0,), built),
        built is Ok,
        bytes@ == built->Ok_0@,
        call_ensures(File::open_from_bytes, (bytes,), opened),
        opened is Ok,
        *old(file) == opened->Ok_0,
        call_ensures(File::dataset, (file, name), read),
        read is Ok ==> call_ensures(Dataset::as_u8, (&read->Ok_0,), numbers),
    ensures
        read is Ok,
        read->Ok_0@.shape == ints(shape@),
        read->Ok_0@.attributes.len() == 0,
        outcome(numbers) == Ok::<Seq<u8>, ErrorKind>(data@),
{
    assert(bytes.len() <= usize::MAX);
    lemma_pow256_values();
    let raw = data@;
    lemma_added_is_read(
        old(writer)@,
        old(added->Ok_0)@,
        name@,
        raw,
        shape@,
        ElemType::U8,
        bytes@,
        file,
        name,
        read,
    );
    let values = Seq::new(data@.len(), |i: int| data@[i] as nat);
    lemma_bytes_spelled(data@);
    law_u8_elements(&read->Ok_0, data@, ByteOrder::Little, numbers);
}

/// What a dataset that a path leads to in a tree of groups is read as, from the file that
/// the tree is written to: its elements, its shape, its type and its attributes.
pub proof fn law_written_dataset_is_read(
    root: &GroupNode,
    built: Result<Vec<u8>, OxiH5Error>,
    bytes: &[u8],
    opened: Result<File, OxiH5Error>,
    file: &mut File,
    path: &str,
    m: GroupModel,
    at: nat,
    i: int,
    read: Result<Dataset, OxiH5Error>,
)
    requires
        readable(root@),
        call_ensures(build_bytes, (root,), built),
        built is Ok,
        bytes@ == built->Ok_0@,
        call_ensures(File::open_from_bytes, (bytes,), opened),
        opened is Ok,
        *old(file) == opened->Ok_0,
        leads_to_dataset(root@, path@, m, at, i),
        m.datasets[i].vlen_strings is None,
        m.datasets[i].storage is Chunked ==> strides_fit(ints(m.datasets[i].shape@)),
        call_ensures(File::dataset, (file, path), read),
    ensures
        read is Ok,
        read->Ok_0@.data == m.datasets[i].raw@,
        read->Ok_0@.shape == ints(m.datasets[i].shape@),
        read->Ok_0@.dtype == dtype_of(m.datasets[i].elem_type),
        read->Ok_0@.attributes == read_dataset_model(
            m.datasets[i],
            file_addresses(root@),
        ).attributes,
{
    assert(bytes.len() <= usize::MAX);
    let before = old(file).chunk_cache@;
    let after = final(file).chunk_cache@;
    if m.datasets[i].storage is Chunked {
        law_own_decoder_undoes_filters();
        law_chunked_dataset_reads_back(
            root@,
            bytes@,
            path@,
            m,
            at,
            i,
            apply_pipeline,
            before,
            after,
            read,
        );
    } else {
        law_contiguous_dataset_reads_back(
            root@,
            bytes@,
            path@,
            m,
            at,
            i,
            apply_pipeline,
            before,
            after,
            read,
        );
    }
}

/// Whether a writer can take another dataset of that name: it has fewer than eight, and the
/// name is not empty, has no slash, and is that of no dataset and of no group.
pub open spec fn takes(m: GroupModel, name: Seq<char>) -> bool {
    &&& m.datasets.len() < 8
    &&& name.len() > 0
    &&& forall|i: int| 0 <= i < name.len() ==> #[trigger] name[i] != '/'
    &&& forall|i: int| 0 <= i < m.datasets.len() ==> (#[trigger] m.datasets[i]).name@ != name
    &&& forall|i: int| 0 <= i < m.groups.len() ==> (#[trigger] m.groups[i]).name != name
}

proof fn lemma_dataset_named(datasets: Seq<DatasetDesc>, name: Seq<char>)
    ensures
        dataset_position(datasets, name) is Some <==> exists|i: int|
            0 <= i < datasets.len() && (#[trigger] datasets[i]).name@ == name,
    decreases datasets.len(),
{
    if datasets.len() > 0 {
        let front = datasets.drop_last();
        lemma_dataset_named(front, name);
        if dataset_position(front, name) is Some {
            let i = choose|i: int| 0 <= i < front.len() && (#[trigger] front[i]).name@ == name;
            assert(datasets[i].name@ == name);
        } else if datasets.last().name@ == name {
            assert(datasets[datasets.len() - 1].name@ == name);
        } else {
            assert forall|i: int| 0 <= i < datasets.len() implies (#[trigger] datasets[i]).name@
                != name by {
                if i < front.len() {
                    assert(front[i].name@ != name);
                }
            }
        }
    }
}

proof fn lemma_group_named(groups: Seq<GroupModel>, name: Seq<char>)
    ensures
        group_position(groups, name) is Some <==> exists|i: int|
            0 <= i < groups.len() && (#[trigger] groups[i]).name == name,
    decreases groups.len(),
{
    if groups.len() > 0 {
        let front = groups.drop_last();
        lemma_group_named(front, name);
        if group_position(front, name) is Some {
            let i = choose|i: int| 0 <= i < front.len() && (#[trigger] front[i]).name == name;
            assert(groups[i].name == name);
        } else if groups.last().name == name {
            assert(groups[groups.len() - 1].name == name);
        } else {
            assert forall|i: int| 0 <= i < groups.len() implies (#[trigger] groups[i]).name
                != name by {
                if i < front.len() {
                    assert(front[i].name != name);
                }
            }
        }
    }
}

proof fn lemma_takes(m: GroupModel, name: Seq<char>)
    ensures
        takes(m, name) <==> !refused(m, name),
{
    lemma_dataset_named(m.datasets, name);
    lemma_group_named(m.groups, name);
    if takes(m, name) {
        assert(!name.contains('/'));
    } else if !refused(m, name) {
        assert forall|i: int| 0 <= i < name.len() implies #[trigger] name[i] != '/' by {
            if name[i] == '/' {
                assert(name.contains(name[i]));
            }
        }
    }
}

/// A writer takes a dataset exactly where it has room and the name is plain and new,
/// whatever the elements are.
pub proof fn law_accepted_datasets(
    writer: &mut FileWriter,
    name: &str,
    shape: &[usize],
    singles: &[u32],
    doubles: &[u64],
    words: &[i32],
    longs: &[i64],
    bytes: &[u8],
    r: Result<&mut FileWriter, OxiH5Error>,
)
    requires
        call_ensures(FileWriter::write_dataset_f32, (writer, name, singles, shape), r)
            || call_ensures(FileWriter::write_dataset_f64, (writer, name, doubles, shape), r)
            || call_ensures(FileWriter::write_dataset_i32, (writer, name, words, shape), r)
            || call_ensures(FileWriter::write_dataset_i64, (writer, name, longs, shape), r)
            || call_ensures(FileWriter::write_dataset_u8, (writer, name, bytes, shape), r),
    ensures
        r is Ok <==> takes(old(writer)@, name@),
        r is Err ==> r->Err_0@ == ErrorKind::Format && final(writer)@ == old(writer)@,
{
    lemma_takes(old(writer)@, name@);
}

/// What a writer was given is built, unless a dataset has too many dimensions or the file
/// were too long; and what was built is opened.
pub proof fn law_flat_file_is_built(
    writer: &mut FileWriter,
    built: Result<Vec<u8>, OxiH5Error>,
    bytes: &[u8],
    opened: Result<File, OxiH5Error>,
)
    requires
        flat(old(writer)@),
        forall|i: int|
            0 <= i < old(writer)@.datasets.len() ==> (
            #[trigger] old(writer)@.datasets[i]).shape@.len() <= u8::MAX,
        room_for(old(writer)@) <= usize::MAX,
        call_ensures(FileWriter::build_to_vec, (writer,), built),
        call_ensures(File::open_from_bytes, (bytes,), opened),
    ensures
        built is Ok,
        opened is Ok,
        opened->Ok_0.data@ == bytes@,
{
    law_flat_file_is_written(old(writer)@);
}

} // verus!
