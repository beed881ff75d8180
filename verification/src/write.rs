//! Writing files.

pub mod attr;
pub mod chunked;
pub mod elem;
pub mod emit;
pub mod format;
pub mod group_tree;
pub mod layout;
pub mod links;
pub mod measure;
pub mod messages;
pub mod pipeline;
pub mod plan;
pub mod refusals;
pub mod tiles;
pub mod tree;

use vstd::prelude::*;
use vstd::string::*;
use crate::bytes::{le_bytes, push_le};
use crate::dims::{ints, product, product_fits};
use crate::error::{outcome, text, text_around, ErrorKind, OxiH5Error};
use crate::write::attr::{bits32, bits64, to_bits32, to_bits64};
use crate::write::elem::ElemType;
use crate::write::emit::{build_bytes, written_file};
use crate::write::tree::{
    empty_group, has_name, lemma_group_model, name_taken, DatasetDesc, GroupModel, GroupNode, Storage,
};

verus! {

/// The number of bytes of a dense dataset: the product of the extents, multiplied one
/// by one from the first on, times the size of an element, unless a product on the way
/// is no `usize`.
pub open spec fn byte_len(shape: Seq<usize>, elem_size: nat) -> Result<nat, ErrorKind> {
    let total = product(ints(shape));
    if product_fits(ints(shape)) && total * elem_size <= usize::MAX {
        Ok((total * elem_size) as nat)
    } else {
        Err(ErrorKind::Format)
    }
}

/// The number of bytes of a dense dataset; `what` names the caller in the error.
pub fn checked_byte_len(what: &str, shape: &[usize], elem_size: usize) -> (r: Result<
    usize,
    OxiH5Error,
>)
    ensures
        match byte_len(shape@, elem_size as nat) {
            Ok(n) => r is Ok && r->Ok_0 == n,
            Err(kind) => r is Err && r->Err_0@ == kind && r->Err_0.says(what@),
        },
{
    let ghost all = ints(shape@);
    let mut total: usize = 1;
    proof {
        assert(all.take(0) =~= Seq::<int>::empty());
    }
    for i in 0..shape.len()
        invariant
            all == ints(shape@),
            total == product(all.take(i as int)),
            forall|k: int| 0 <= k <= i ==> #[trigger] product(all.take(k)) <= usize::MAX,
    {
        proof {
            assert(all.take(i + 1).drop_last() =~= all.take(i as int));
            assert(all.take(i + 1).last() == shape@[i as int]);
        }
        match total.checked_mul(shape[i]) {
            Some(n) => {
                total = n;
            },
            None => {
                assert(product(all.take(i + 1)) > usize::MAX);
                return Err(OxiH5Error::Format(text_around(&[], what, &[": shape overflows usize"])));
            },
        }
    }
    proof {
        assert(all.take(shape@.len() as int) =~= all);
    }
    match total.checked_mul(elem_size) {
        Some(n) => Ok(n),
        None => Err(OxiH5Error::Format(text_around(&[], what, &[": byte size overflows usize"]))),
    }
}

/// Numbers of `width` bytes each, least significant byte first.
pub open spec fn numbers_image(values: Seq<nat>, width: nat) -> Seq<u8>
    decreases values.len(),
{
    if values.len() == 0 {
        Seq::empty()
    } else {
        numbers_image(values.drop_last(), width) + le_bytes(values.last(), width)
    }
}

/// The bits of 4-byte floating-point numbers.
pub open spec fn words32(data: Seq<u32>) -> Seq<nat> {
    Seq::new(data.len(), |i: int| data[i] as nat)
}

/// The bits of 8-byte floating-point numbers.
pub open spec fn words64(data: Seq<u64>) -> Seq<nat> {
    Seq::new(data.len(), |i: int| data[i] as nat)
}

/// The bits of 4-byte integers.
pub open spec fn signed32(data: Seq<i32>) -> Seq<nat> {
    Seq::new(data.len(), |i: int| bits32(data[i]))
}

/// The bits of 8-byte integers.
pub open spec fn signed64(data: Seq<i64>) -> Seq<nat> {
    Seq::new(data.len(), |i: int| bits64(data[i]))
}

proof fn lemma_numbers_step(values: Seq<nat>, width: nat, i: int)
    requires
        0 <= i < values.len(),
    ensures
        numbers_image(values.take(i + 1), width) == numbers_image(values.take(i), width)
            + le_bytes(values[i], width),
{
    assert(values.take(i + 1).drop_last() =~= values.take(i));
}

/// Why a dataset of that name cannot be added, if so: eight are there, the name is
/// empty, holds a slash, or is taken.
pub open spec fn refused(m: GroupModel, name: Seq<char>) -> bool {
    ||| m.datasets.len() >= 8
    ||| name.len() == 0
    ||| name.contains('/')
    ||| has_name(m, name)
}

/// `new` is `m` with one more dataset.
pub open spec fn with_dataset(
    m: GroupModel,
    new: GroupModel,
    name: Seq<char>,
    raw: Seq<u8>,
    shape: Seq<usize>,
    elem_type: ElemType,
) -> bool {
    let added = new.datasets.last();
    &&& new.name == m.name
    &&& new.groups == m.groups
    &&& new.attrs == m.attrs
    &&& new.datasets.len() == m.datasets.len() + 1
    &&& new.datasets.drop_last() == m.datasets
    &&& added.name@ == name
    &&& added.raw@ == raw
    &&& added.shape@ == shape
    &&& added.elem_type == elem_type
    &&& added.attrs@.len() == 0
    &&& added.storage is Contiguous
    &&& added.filter is None
    &&& added.vlen_strings is None
}

/// A writer of flat files: up to eight datasets in the root group, each in one run
/// of bytes.
#[derive(Debug)]
pub struct FileWriter {
    root: GroupNode,
}

impl View for FileWriter {
    type V = GroupModel;

    closed spec fn view(&self) -> GroupModel {
        self.root@
    }
}

impl Default for FileWriter {
    fn default() -> (r: FileWriter)
        ensures
            r@ == empty_group(Seq::empty()),
    {
        FileWriter::new()
    }
}

impl FileWriter {
    /// A writer without datasets.
    pub fn new() -> (r: FileWriter)
        ensures
            r@ == empty_group(Seq::empty()),
    {
        proof {
            reveal_strlit("");
            assert(""@ =~= Seq::<char>::empty());
        }
        FileWriter { root: GroupNode::new("") }
    }

    /// The root group.
    pub fn root_node(&self) -> (r: &GroupNode)
        ensures
            r@ == self@,
    {
        &self.root
    }

    /// Add a dataset of 4-byte floating-point numbers, given by their bits.
    pub fn write_dataset_f32(&mut self, name: &str, data: &[u32], shape: &[usize]) -> (r: Result<
        &mut Self,
        OxiH5Error,
    >)
        ensures
            refused(old(self)@, name@) <==> r is Err,
            match r {
                Ok(w) => {
                    &&& with_dataset(
                        old(self)@,
                        w@,
                        name@,
                        numbers_image(words32(data@), 4),
                        shape@,
                        ElemType::F32,
                    )
                    &&& w@.datasets.len() <= 8
                    &&& *final(self) == *final(w)
                },
                Err(e) => e@ == ErrorKind::Format && final(self)@ == old(self)@,
            },
    {
        let ghost all = words32(data@);
        let mut raw: Vec<u8> = Vec::new();
        proof {
            assert(all.take(0) =~= Seq::<nat>::empty());
        }
        for i in 0..data.len()
            invariant
                all == words32(data@),
                raw@ == numbers_image(all.take(i as int), 4),
        {
            push_le(&mut raw, data[i] as u64, 4);
            proof {
                lemma_numbers_step(all, 4, i as int);
            }
        }
        proof {
            assert(all.take(data@.len() as int) =~= all);
        }
        self.add_dataset(name, raw, shape, ElemType::F32)
    }

    /// Add a dataset of 8-byte floating-point numbers, given by their bits.
    pub fn write_dataset_f64(&mut self, name: &str, data: &[u64], shape: &[usize]) -> (r: Result<
        &mut Self,
        OxiH5Error,
    >)
        ensures
            refused(old(self)@, name@) <==> r is Err,
            match r {
                Ok(w) => {
                    &&& with_dataset(
                        old(self)@,
                        w@,
                        name@,
                        numbers_image(words64(data@), 8),
                        shape@,
                        ElemType::F64,
                    )
                    &&& w@.datasets.len() <= 8
                    &&& *final(self) == *final(w)
                },
                Err(e) => e@ == ErrorKind::Format && final(self)@ == old(self)@,
            },
    {
        let ghost all = words64(data@);
        let mut raw: Vec<u8> = Vec::new();
        proof {
            assert(all.take(0) =~= Seq::<nat>::empty());
        }
        for i in 0..data.len()
            invariant
                all == words64(data@),
                raw@ == numbers_image(all.take(i as int), 8),
        {
            push_le(&mut raw, data[i], 8);
            proof {
                lemma_numbers_step(all, 8, i as int);
            }
        }
        proof {
            assert(all.take(data@.len() as int) =~= all);
        }
        self.add_dataset(name, raw, shape, ElemType::F64)
    }

    /// Add a dataset of 4-byte signed integers.
    pub fn write_dataset_i32(&mut self, name: &str, data: &[i32], shape: &[usize]) -> (r: Result<
        &mut Self,
        OxiH5Error,
    >)
        ensures
            refused(old(self)@, name@) <==> r is Err,
            match r {
                Ok(w) => {
                    &&& with_dataset(
                        old(self)@,
                        w@,
                        name@,
                        numbers_image(signed32(data@), 4),
                        shape@,
                        ElemType::I32,
                    )
                    &&& w@.datasets.len() <= 8
                    &&& *final(self) == *final(w)
                },
                Err(e) => e@ == ErrorKind::Format && final(self)@ == old(self)@,
            },
    {
        let ghost all = signed32(data@);
        let mut raw: Vec<u8> = Vec::new();
        proof {
            assert(all.take(0) =~= Seq::<nat>::empty());
        }
        for i in 0..data.len()
            invariant
                all == signed32(data@),
                raw@ == numbers_image(all.take(i as int), 4),
        {
            push_le(&mut raw, to_bits32(data[i]) as u64, 4);
            proof {
                lemma_numbers_step(all, 4, i as int);
            }
        }
        proof {
            assert(all.take(data@.len() as int) =~= all);
        }
        self.add_dataset(name, raw, shape, ElemType::I32)
    }

    /// Add a dataset of 8-byte signed integers.
    pub fn write_dataset_i64(&mut self, name: &str, data: &[i64], shape: &[usize]) -> (r: Result<
        &mut Self,
        OxiH5Error,
    >)
        ensures
            refused(old(self)@, name@) <==> r is Err,
            match r {
                Ok(w) => {
                    &&& with_dataset(
                        old(self)@,
                        w@,
                        name@,
                        numbers_image(signed64(data@), 8),
                        shape@,
                        ElemType::I64,
                    )
                    &&& w@.datasets.len() <= 8
                    &&& *final(self) == *final(w)
                },
                Err(e) => e@ == ErrorKind::Format && final(self)@ == old(self)@,
            },
    {
        let ghost all = signed64(data@);
        let mut raw: Vec<u8> = Vec::new();
        proof {
            assert(all.take(0) =~= Seq::<nat>::empty());
        }
        for i in 0..data.len()
            invariant
                all == signed64(data@),
                raw@ == numbers_image(all.take(i as int), 8),
        {
            push_le(&mut raw, to_bits64(data[i]), 8);
            proof {
                lemma_numbers_step(all, 8, i as int);
            }
        }
        proof {
            assert(all.take(data@.len() as int) =~= all);
        }
        self.add_dataset(name, raw, shape, ElemType::I64)
    }

    /// Add a dataset of bytes.
    pub fn write_dataset_u8(&mut self, name: &str, data: &[u8], shape: &[usize]) -> (r: Result<
        &mut Self,
        OxiH5Error,
    >)
        ensures
            refused(old(self)@, name@) <==> r is Err,
            match r {
                Ok(w) => {
                    &&& with_dataset(old(self)@, w@, name@, data@, shape@, ElemType::U8)
                    &&& w@.datasets.len() <= 8
                    &&& *final(self) == *final(w)
                },
                Err(e) => e@ == ErrorKind::Format && final(self)@ == old(self)@,
            },
    {
        self.add_dataset(name, vstd::slice::slice_to_vec(data), shape, ElemType::U8)
    }

    /// Check a name and add a dataset.
    fn add_dataset(
        &mut self,
        name: &str,
        raw: Vec<u8>,
        shape: &[usize],
        elem_type: ElemType,
    ) -> (r: Result<&mut Self, OxiH5Error>)
        ensures
            refused(old(self)@, name@) <==> r is Err,
            match r {
                Ok(w) => {
                    &&& with_dataset(old(self)@, w@, name@, raw@, shape@, elem_type)
                    &&& w@.datasets.len() <= 8
                    &&& *final(self) == *final(w)
                },
                Err(e) => e@ == ErrorKind::Format && final(self)@ == old(self)@,
            },
    {
        proof {
            lemma_group_model(self.root);
        }
        if self.root.datasets.len() >= 8 {
            return Err(
                OxiH5Error::Format(
                    "FileWriter capacity exceeded: maximum 8 datasets per file".to_string(),
                ),
            );
        }
        if name.unicode_len() == 0 {
            return Err(OxiH5Error::Format("dataset name must not be empty".to_string()));
        }
        if has_slash(name) {
            return Err(
                OxiH5Error::Format(text(&["dataset name '", name, "' must not contain '/'"])),
            );
        }
        if name_taken(&self.root, name) {
            return Err(OxiH5Error::Format(text(&["duplicate dataset name '", name, "'"])));
        }
        let ghost before = self@;
        let desc = DatasetDesc {
            name: name.to_string(),
            raw,
            shape: vstd::slice::slice_to_vec(shape),
            elem_type,
            attrs: Vec::new(),
            storage: Storage::Contiguous,
            filter: None,
            vlen_strings: None,
        };
        self.root.datasets.push(desc);
        proof {
            lemma_group_model(self.root);
            assert(self@.datasets.drop_last() =~= before.datasets);
        }
        Ok(self)
    }

    /// The file as bytes.
    pub fn build_to_vec(&mut self) -> (r: Result<Vec<u8>, OxiH5Error>)
        ensures
            outcome(r) == written_file(old(self)@),
            final(self)@ == old(self)@,
    {
        build_bytes(&self.root)
    }
}

/// Whether a text holds a slash.
fn has_slash(s: &str) -> (r: bool)
    ensures
        r == s@.contains('/'),
{
    let n: usize = s.unicode_len();
    for i in 0..n
        invariant
            n == s@.len(),
            forall|k: int| 0 <= k < i ==> #[trigger] s@[k] != '/',
    {
        if s.get_char(i) == '/' {
            assert(s@[i as int] == '/');
            return true;
        }
    }
    false
}

} // verus!
