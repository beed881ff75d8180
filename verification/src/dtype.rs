//! Datatypes of elements.

use vstd::prelude::*;
use crate::dims::{exact_total, ints, lemma_product_non_negative, product, product_fits};

verus! {

#[derive(Debug, Clone, Copy, PartialEq, Eq, Structural)]
pub enum ByteOrder {
    Little,
    Big,
}

#[derive(Debug, Clone, Copy, PartialEq, Eq, Structural)]
pub enum Charset {
    Ascii,
    Utf8,
}

#[derive(Debug, Clone, Copy, PartialEq, Eq, Structural)]
pub enum RefType {
    Object,
    Region,
}

/// A member of a compound type.
#[derive(Debug, PartialEq)]
pub struct CompoundField {
    pub name: String,
    pub offset: usize,
    pub dtype: Dtype,
}

/// The type of one element.
#[derive(Debug, PartialEq)]
pub enum Dtype {
    Int { size: usize, signed: bool, order: ByteOrder },
    Float { size: usize, order: ByteOrder },
    String { fixed_len: Option<usize>, charset: Charset },
    Compound { fields: Vec<CompoundField> },
    Array { base: Box<Dtype>, dims: Vec<usize> },
    Enum { base: Box<Dtype>, members: Vec<(std::string::String, i64)> },
    Opaque { size: usize, tag: std::string::String },
    Reference { ref_type: RefType },
    VarLen { base: Box<Dtype> },
    Bitfield { size: usize, order: ByteOrder },
}

/// A [`Dtype`] as a mathematical value.
pub enum DtypeModel {
    Int { size: nat, signed: bool, order: ByteOrder },
    Float { size: nat, order: ByteOrder },
    String { fixed_len: Option<nat>, charset: Charset },
    Compound { fields: Seq<FieldModel> },
    Array { base: Box<DtypeModel>, dims: Seq<int> },
    Enum { base: Box<DtypeModel>, members: Seq<(Seq<char>, i64)> },
    Opaque { size: nat, tag: Seq<char> },
    Reference { ref_type: RefType },
    VarLen { base: Box<DtypeModel> },
    Bitfield { size: nat, order: ByteOrder },
}

/// A [`CompoundField`] as a mathematical value.
pub struct FieldModel {
    pub name: Seq<char>,
    pub offset: nat,
    pub dtype: DtypeModel,
}

impl Dtype {
    pub open spec fn model(self) -> DtypeModel
        decreases self, 0nat,
    {
        match self {
            Dtype::Int { size, signed, order } => DtypeModel::Int {
                size: size as nat,
                signed,
                order,
            },
            Dtype::Float { size, order } => DtypeModel::Float { size: size as nat, order },
            Dtype::String { fixed_len, charset } => DtypeModel::String {
                fixed_len: match fixed_len {
                    Some(n) => Some(n as nat),
                    None => None,
                },
                charset,
            },
            Dtype::Compound { fields } => DtypeModel::Compound {
                fields: fields_model(fields, fields@.len()),
            },
            Dtype::Array { base, dims } => DtypeModel::Array {
                base: Box::new(base.model()),
                dims: ints(dims@),
            },
            Dtype::Enum { base, members } => DtypeModel::Enum {
                base: Box::new(base.model()),
                members: Seq::new(members@.len(), |i: int| (members@[i].0@, members@[i].1)),
            },
            Dtype::Opaque { size, tag } => DtypeModel::Opaque { size: size as nat, tag: tag@ },
            Dtype::Reference { ref_type } => DtypeModel::Reference { ref_type },
            Dtype::VarLen { base } => DtypeModel::VarLen { base: Box::new(base.model()) },
            Dtype::Bitfield { size, order } => DtypeModel::Bitfield { size: size as nat, order },
        }
    }
}

/// The models of the first `n` fields.
pub open spec fn fields_model(fields: Vec<CompoundField>, n: nat) -> Seq<FieldModel>
    decreases fields, n,
{
    if n == 0 || n > fields@.len() {
        Seq::empty()
    } else {
        let field = fields[n - 1];
        fields_model(fields, (n - 1) as nat).push(
            FieldModel {
                name: field.name@,
                offset: field.offset as nat,
                dtype: field.dtype.model(),
            },
        )
    }
}

impl View for Dtype {
    type V = DtypeModel;

    open spec fn view(&self) -> DtypeModel {
        self.model()
    }
}

impl View for CompoundField {
    type V = FieldModel;

    open spec fn view(&self) -> FieldModel {
        FieldModel { name: self.name@, offset: self.offset as nat, dtype: self.dtype@ }
    }
}

/// The views of the elements of a sequence.
pub open spec fn views<T: View>(s: Seq<T>) -> Seq<T::V> {
    Seq::new(s.len(), |i: int| s[i]@)
}

/// The size of one element in bytes; `None` for variable-length types.
///
/// A compound type is as long as its member that reaches furthest.
pub open spec fn size_of(m: DtypeModel) -> Option<nat>
    decreases m,
{
    match m {
        DtypeModel::Int { size, .. } => Some(size),
        DtypeModel::Float { size, .. } => Some(size),
        DtypeModel::Bitfield { size, .. } => Some(size),
        DtypeModel::Opaque { size, .. } => Some(size),
        DtypeModel::String { fixed_len, .. } => fixed_len,
        DtypeModel::Reference { ref_type } => Some(
            match ref_type {
                RefType::Object => 8,
                RefType::Region => 12,
            },
        ),
        DtypeModel::Enum { base, .. } => size_of(*base),
        DtypeModel::Array { base, dims } => match size_of(*base) {
            Some(s) => Some((s * product(dims)) as nat),
            None => None,
        },
        DtypeModel::Compound { fields } => extent_of(fields),
        DtypeModel::VarLen { .. } => None,
    }
}

/// Where the furthest of the fields ends; `None` if one is variable-length.
pub open spec fn extent_of(fields: Seq<FieldModel>) -> Option<nat>
    decreases fields,
{
    if fields.len() == 0 {
        Some(0)
    } else {
        let last = fields.last();
        match (extent_of(fields.drop_last()), size_of(last.dtype)) {
            (Some(reach), Some(s)) => Some(
                if last.offset + s > reach {
                    last.offset + s
                } else {
                    reach
                },
            ),
            _ => None,
        }
    }
}

/// Whether [`Dtype::size`] can form the size in a `usize`, step by step.
pub open spec fn size_fits(m: DtypeModel) -> bool
    decreases m,
{
    match m {
        DtypeModel::Enum { base, .. } => size_fits(*base),
        DtypeModel::Array { base, dims } => {
            &&& product_fits(dims)
            &&& size_fits(*base)
            &&& size_of(*base) is Some ==> size_of(*base)->0 * product(dims) <= usize::MAX
        },
        DtypeModel::Compound { fields } => extent_fits(fields),
        _ => true,
    }
}

/// Whether the end of each field fits in a `usize`, up to the first that is
/// variable-length.
pub open spec fn extent_fits(fields: Seq<FieldModel>) -> bool
    decreases fields,
{
    fields.len() > 0 ==> {
        let front = fields.drop_last();
        let last = fields.last();
        &&& extent_fits(front)
        &&& extent_of(front) is Some ==> {
            &&& size_fits(last.dtype)
            &&& size_of(last.dtype) is Some ==> last.offset + size_of(last.dtype)->0 <= usize::MAX
        }
    }
}

/// Whether every number in the model is one that a [`Dtype`] can hold.
pub open spec fn representable(m: DtypeModel) -> bool
    decreases m,
{
    match m {
        DtypeModel::Int { size, .. } => size <= usize::MAX,
        DtypeModel::Float { size, .. } => size <= usize::MAX,
        DtypeModel::Bitfield { size, .. } => size <= usize::MAX,
        DtypeModel::Opaque { size, .. } => size <= usize::MAX,
        DtypeModel::String { fixed_len, .. } => fixed_len is Some ==> fixed_len->0 <= usize::MAX,
        DtypeModel::Reference { .. } => true,
        DtypeModel::Enum { base, .. } => representable(*base),
        DtypeModel::Array { base, dims } => {
            &&& representable(*base)
            &&& forall|i: int| 0 <= i < dims.len() ==> 0 <= #[trigger] dims[i] <= usize::MAX
        },
        DtypeModel::Compound { fields } => forall|i: int|
            0 <= i < fields.len() ==> representable((#[trigger] fields[i]).dtype)
                && fields[i].offset <= usize::MAX,
        DtypeModel::VarLen { base } => representable(*base),
    }
}

pub proof fn lemma_fields_model(fields: Vec<CompoundField>, n: nat)
    requires
        n <= fields@.len(),
    ensures
        fields_model(fields, n) == views(fields@.take(n as int)),
    decreases n,
{
    if n > 0 {
        lemma_fields_model(fields, (n - 1) as nat);
        assert(fields_model(fields, n) =~= views(fields@.take(n as int)));
    } else {
        assert(fields_model(fields, n) =~= views(fields@.take(n as int)));
    }
}

/// A compound type's members are its fields, one by one.
pub proof fn lemma_compound_model(fields: Vec<CompoundField>)
    ensures
        fields_model(fields, fields@.len()) == views(fields@),
{
    lemma_fields_model(fields, fields@.len());
    assert(fields@.take(fields@.len() as int) =~= fields@);
}

proof fn lemma_size_bounded(m: DtypeModel)
    requires
        size_fits(m),
        representable(m),
    ensures
        size_of(m) is Some ==> size_of(m)->0 <= usize::MAX,
    decreases m,
{
    match m {
        DtypeModel::Enum { base, .. } => lemma_size_bounded(*base),
        DtypeModel::Array { base, dims } => {
            lemma_product_non_negative(dims);
            if size_of(*base) is Some {
                let s = size_of(*base)->0 as int;
                assert(s * product(dims) >= 0) by (nonlinear_arith)
                    requires
                        s >= 0,
                        product(dims) >= 0,
                ;
            }
        },
        DtypeModel::Compound { fields } => lemma_extent_bounded(fields),
        _ => {},
    }
}

proof fn lemma_extent_bounded(fields: Seq<FieldModel>)
    requires
        extent_fits(fields),
    ensures
        extent_of(fields) is Some ==> extent_of(fields)->0 <= usize::MAX,
    decreases fields,
{
    if fields.len() > 0 {
        lemma_extent_bounded(fields.drop_last());
    }
}

/// Once a field is variable-length, so is the whole.
proof fn lemma_extent_none(fields: Seq<FieldModel>, i: int)
    requires
        0 <= i < fields.len(),
        size_of(fields[i].dtype) is None,
    ensures
        extent_of(fields) is None,
    decreases fields.len(),
{
    if i < fields.len() - 1 {
        lemma_extent_none(fields.drop_last(), i);
    }
}

/// A size in bytes that may be unknown or beyond a `usize`.
#[derive(Debug, Clone, Copy)]
pub enum ElemSize {
    Fixed(usize),
    Variable,
    TooLarge,
}

impl ElemSize {
    /// Whether this describes the size `s`.
    pub open spec fn describes(self, s: Option<nat>) -> bool {
        match self {
            ElemSize::Fixed(n) => s == Some(n as nat),
            ElemSize::Variable => s is None,
            ElemSize::TooLarge => s is Some && s->0 > usize::MAX,
        }
    }
}

/// Where the furthest of the fields ends.
pub fn exact_extent(fields: &[CompoundField]) -> (r: ElemSize)
    ensures
        r.describes(extent_of(views(fields@))),
    decreases fields@,
{
    let mut reach: usize = 0;
    let mut too_large: bool = false;
    let ghost all = views(fields@);
    proof {
        assert(all.take(0) =~= Seq::<FieldModel>::empty());
    }
    for i in 0..fields.len()
        invariant
            all == views(fields@),
            extent_of(all.take(i as int)) is Some,
            too_large ==> extent_of(all.take(i as int))->0 > usize::MAX,
            !too_large ==> extent_of(all.take(i as int))->0 == reach,
    {
        proof {
            assert(all.take(i + 1).drop_last() =~= all.take(i as int));
            assert(all.take(i + 1).last() == fields@[i as int]@);
            assert(decreases_to!(fields@ => fields@[i as int]));
        }
        match fields[i].dtype.exact_size() {
            ElemSize::Variable => {
                proof {
                    lemma_extent_none(all, i as int);
                }
                return ElemSize::Variable;
            },
            ElemSize::TooLarge => {
                too_large = true;
            },
            ElemSize::Fixed(s) => {
                if s > usize::MAX - fields[i].offset {
                    too_large = true;
                } else if fields[i].offset + s > reach {
                    reach = fields[i].offset + s;
                }
            },
        }
    }
    proof {
        assert(all.take(fields@.len() as int) =~= all);
    }
    if too_large {
        ElemSize::TooLarge
    } else {
        ElemSize::Fixed(reach)
    }
}

impl Dtype {
    /// The size of one element, whatever it is.
    pub fn exact_size(&self) -> (r: ElemSize)
        ensures
            r.describes(size_of(self@)),
        decreases self,
    {
        match self {
            Dtype::Int { size, .. } => ElemSize::Fixed(*size),
            Dtype::Float { size, .. } => ElemSize::Fixed(*size),
            Dtype::Bitfield { size, .. } => ElemSize::Fixed(*size),
            Dtype::Opaque { size, .. } => ElemSize::Fixed(*size),
            Dtype::String { fixed_len, .. } => match fixed_len {
                Some(n) => ElemSize::Fixed(*n),
                None => ElemSize::Variable,
            },
            Dtype::Reference { ref_type } => match ref_type {
                RefType::Object => ElemSize::Fixed(8),
                RefType::Region => ElemSize::Fixed(12),
            },
            Dtype::Enum { base, .. } => base.exact_size(),
            Dtype::Array { base, dims } => {
                let ghost elems = product(ints(dims@));
                proof {
                    lemma_product_non_negative(ints(dims@));
                }
                let size: ElemSize = base.exact_size();
                let count: Option<usize> = exact_total(dims);
                proof {
                    if size_of(base@) is Some {
                        lemma_scaled(size_of(base@)->0 as int, elems);
                    }
                }
                match (size, count) {
                    (ElemSize::Variable, _) => ElemSize::Variable,
                    (ElemSize::Fixed(0), _) => ElemSize::Fixed(0),
                    (_, Some(0)) => ElemSize::Fixed(0),
                    (ElemSize::Fixed(s), Some(n)) => match s.checked_mul(n) {
                        Some(bytes) => ElemSize::Fixed(bytes),
                        None => ElemSize::TooLarge,
                    },
                    _ => ElemSize::TooLarge,
                }
            },
            Dtype::Compound { fields } => {
                proof {
                    lemma_compound_model(*fields);
                }
                exact_extent(fields)
            },
            Dtype::VarLen { .. } => ElemSize::Variable,
        }
    }

    /// The size of one element in bytes, or `None` for a variable-length type,
    /// whose elements are references of a size that the type does not fix.
    pub fn size(&self) -> (r: Option<usize>)
        requires
            size_fits(self@),
        ensures
            match r {
                Some(n) => size_of(self@) == Some(n as nat),
                None => size_of(self@) is None,
            },
    {
        proof {
            lemma_representable(*self);
            lemma_size_bounded(self@);
        }
        match self.exact_size() {
            ElemSize::Fixed(n) => Some(n),
            ElemSize::Variable => None,
            ElemSize::TooLarge => None,
        }
    }

    /// An equal datatype.
    pub fn duplicate(&self) -> (r: Dtype)
        ensures
            r@ == self@,
        decreases self,
    {
        match self {
            Dtype::Int { size, signed, order } => Dtype::Int {
                size: *size,
                signed: *signed,
                order: *order,
            },
            Dtype::Float { size, order } => Dtype::Float { size: *size, order: *order },
            Dtype::String { fixed_len, charset } => Dtype::String {
                fixed_len: *fixed_len,
                charset: *charset,
            },
            Dtype::Compound { fields } => {
                let mut copied: Vec<CompoundField> = Vec::new();
                for i in 0..fields.len()
                    invariant
                        copied@.len() == i,
                        decreases_to!(self => fields),
                        forall|k: int| 0 <= k < i ==> (#[trigger] copied@[k])@ == fields@[k]@,
                {
                    proof {
                        assert(decreases_to!(fields => fields[i as int]));
                    }
                    copied.push(
                        CompoundField {
                            name: fields[i].name.clone(),
                            offset: fields[i].offset,
                            dtype: fields[i].dtype.duplicate(),
                        },
                    );
                }
                proof {
                    lemma_compound_model(copied);
                    lemma_compound_model(*fields);
                    assert(views(copied@) =~= views(fields@));
                }
                Dtype::Compound { fields: copied }
            },
            Dtype::Array { base, dims } => {
                let copied: Vec<usize> = vstd::slice::slice_to_vec(dims);
                Dtype::Array { base: Box::new(base.duplicate()), dims: copied }
            },
            Dtype::Enum { base, members } => {
                let mut copied: Vec<(std::string::String, i64)> = Vec::new();
                for i in 0..members.len()
                    invariant
                        copied@.len() == i,
                        forall|k: int|
                            0 <= k < i ==> (#[trigger] copied@[k]).0@ == members@[k].0@
                                && copied@[k].1 == members@[k].1,
                {
                    copied.push((members[i].0.clone(), members[i].1));
                }
                let r = Dtype::Enum { base: Box::new(base.duplicate()), members: copied };
                proof {
                    assert(Seq::new(copied@.len(), |i: int| (copied@[i].0@, copied@[i].1))
                        =~= Seq::new(members@.len(), |i: int| (members@[i].0@, members@[i].1)));
                }
                r
            },
            Dtype::Opaque { size, tag } => Dtype::Opaque { size: *size, tag: tag.clone() },
            Dtype::Reference { ref_type } => Dtype::Reference { ref_type: *ref_type },
            Dtype::VarLen { base } => Dtype::VarLen { base: Box::new(base.duplicate()) },
            Dtype::Bitfield { size, order } => Dtype::Bitfield { size: *size, order: *order },
        }
    }
}

impl Clone for Dtype {
    fn clone(&self) -> (r: Dtype)
        ensures
            r@ == self@,
    {
        self.duplicate()
    }
}

impl Clone for CompoundField {
    fn clone(&self) -> (r: CompoundField)
        ensures
            r@ == self@,
    {
        CompoundField {
            name: self.name.clone(),
            offset: self.offset,
            dtype: self.dtype.duplicate(),
        }
    }
}

/// Every datatype's numbers are machine numbers.
proof fn lemma_representable(d: Dtype)
    ensures
        representable(d@),
    decreases d,
{
    match d {
        Dtype::Compound { fields } => {
            lemma_compound_model(fields);
            assert forall|i: int| 0 <= i < fields@.len() implies representable(
                (#[trigger] views(fields@)[i]).dtype,
            ) && views(fields@)[i].offset <= usize::MAX by {
                assert(decreases_to!(fields => fields[i]));
                lemma_representable(fields[i].dtype);
            }
        },
        Dtype::Array { base, .. } => lemma_representable(*base),
        Dtype::Enum { base, .. } => lemma_representable(*base),
        Dtype::VarLen { base } => lemma_representable(*base),
        _ => {},
    }
}

/// How a product of two non-negative integers grows.
proof fn lemma_scaled(s: int, n: int)
    requires
        s >= 0,
        n >= 0,
    ensures
        s * n >= 0,
        s == 0 || n == 0 ==> s * n == 0,
        s >= 1 && n >= 1 ==> s * n >= s && s * n >= n,
{
    assert(s * n >= 0) by (nonlinear_arith)
        requires
            s >= 0,
            n >= 0,
    ;
    if s >= 1 && n >= 1 {
        assert(s * n >= s && s * n >= n) by (nonlinear_arith)
            requires
                s >= 1,
                n >= 1,
        ;
    }
}

} // verus!
