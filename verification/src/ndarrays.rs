//! Integer datasets as `ndarray` arrays.

use vstd::prelude::*;
use crate::dataset::{int_order, mapped, words_in, Dataset};
use crate::bytes::twos_complement;
use crate::dims::{in_box, ints, product, rank};
use crate::error::{ErrorKind, OxiH5Error};

verus! {

/// An `ndarray::ArrayD<i32>`.
#[verifier::external_body]
pub struct IntArray {
    inner: ndarray::ArrayD<i32>,
}

/// The lengths of the axes of an array.
pub uninterp spec fn array_shape(array: IntArray) -> Seq<int>;

/// The elements of an array in row-major order of their indices.
pub uninterp spec fn array_elements(array: IntArray) -> Seq<i32>;

/// The product of the lengths that are not zero.
pub open spec fn nonzero_product(dims: Seq<int>) -> int
    decreases dims.len(),
{
    if dims.len() == 0 {
        1
    } else if dims.last() == 0 {
        nonzero_product(dims.drop_last())
    } else {
        nonzero_product(dims.drop_last()) * dims.last()
    }
}

/// Whether `count` values make up an array of that shape.
pub open spec fn is_shape_of(shape: Seq<int>, count: nat) -> bool {
    nonzero_product(shape) <= isize::MAX && product(shape) == count
}

/// `ndarray::ArrayBase::from_shape_vec` with a shape in row-major order.
///
/// Not proved: that it succeeds exactly where the lengths of the axes multiply to
/// the number of values, without those that are zero to no more than `isize::MAX`,
/// and that the array then has that shape and those values in that order.
#[verifier::external_body]
fn from_shape_vec(shape: &[usize], values: Vec<i32>) -> (r: Option<IntArray>)
    ensures
        r is Some <==> is_shape_of(ints(shape@), values@.len()),
        r is Some ==> array_shape(r->0) == ints(shape@),
        r is Some ==> array_elements(r->0) == values@,
{
    ndarray::ArrayD::from_shape_vec(ndarray::IxDyn(shape), values).ok().map(|inner| IntArray { inner })
}

/// `ndarray::ArrayBase::shape`.
///
/// Not proved: that it gives the lengths of the axes.
#[verifier::external_body]
fn shape_of(array: &IntArray) -> (r: &[usize])
    ensures
        ints(r@) == array_shape(*array),
{
    array.inner.shape()
}

/// `ndarray::ArrayBase::get`.
///
/// Not proved: that it gives the element at an index within the lengths of the
/// axes, and nothing at any other.
#[verifier::external_body]
fn element_of(array: &IntArray, index: &[usize]) -> (r: Option<i32>)
    ensures
        r is Some <==> in_box(array_shape(*array), ints(index@)),
        r is Some ==> r->0 == array_elements(*array)[rank(array_shape(*array), ints(index@))],
{
    array.inner.get(index).copied()
}

impl IntArray {
    /// The lengths of the axes.
    pub fn shape(&self) -> (r: &[usize])
        ensures
            ints(r@) == array_shape(*self),
    {
        shape_of(self)
    }

    /// The element at `index`, if it is within the lengths of the axes.
    pub fn get(&self, index: &[usize]) -> (r: Option<i32>)
        ensures
            r is Some <==> in_box(array_shape(*self), ints(index@)),
            r is Some ==> r->0 == array_elements(*self)[rank(array_shape(*self), ints(index@))],
    {
        element_of(self, index)
    }
}

/// The shape of the array of a dataset: one axis of length 1 for a scalar.
pub open spec fn axes(shape: Seq<int>) -> Seq<int> {
    if shape.len() == 0 {
        seq![1int]
    } else {
        shape
    }
}

impl Dataset {
    /// The elements of a dataset of `i32` as an array of the dataset's shape.
    pub fn to_array_i32(&self) -> (r: Result<IntArray, OxiH5Error>)
        ensures
            match mapped(
                words_in(self@.data, 4, int_order(self@.dtype, 4, true)),
                |v: nat| twos_complement(v, 4) as i32,
            ) {
                Err(kind) => r is Err && r->Err_0@ == kind,
                Ok(values) => if is_shape_of(axes(self@.shape), values.len()) {
                    &&& r is Ok
                    &&& array_shape(r->Ok_0) == axes(self@.shape)
                    &&& array_elements(r->Ok_0) == values
                } else {
                    r is Err && r->Err_0@ == ErrorKind::Format
                },
            },
    {
        let values: Vec<i32> = self.as_i32()?;
        let shape: Vec<usize> = if self.shape.len() == 0 {
            vec![1usize]
        } else {
            vstd::slice::slice_to_vec(&self.shape)
        };
        proof {
            assert(ints(shape@) =~= axes(self@.shape));
        }
        match from_shape_vec(&shape, values) {
            Some(array) => Ok(array),
            None => Err(OxiH5Error::Format("ndarray shape error".to_string())),
        }
    }
}

} // verus!
