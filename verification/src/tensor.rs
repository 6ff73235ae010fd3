//! The view of candle tensors that the rest of the library is stated over, and the candle calls
//! that it makes.
//!
//! A tensor is described by its shape, its elements in row-major order, the type of its elements
//! and the device that it lies on. Elements are given as bit patterns, zero-extended to 64
//! bits, so that a statement about moving elements holds for every element type. The description
//! is that of a tensor whose storage holds all its elements and is not written in place while the
//! library holds it; nothing here writes in place. Where a tensor without elements starts is a matter
//! of its own.

use candle_core::{DType, Device, Error, Tensor};
use core::ops::Range;
use vstd::prelude::*;

use crate::shape::{
    block_fits, block_index, count, fits, in_block, in_shape, lemma_count_zero,
    lemma_span_positive, offset, repeated_index, sized, span,
};

verus! {

/// Declares [`candle_core::Tensor`].
#[verifier::external_type_specification]
#[verifier::external_body]
pub struct ExTensor(candle_core::Tensor);

/// Declares [`candle_core::Device`].
#[verifier::external_type_specification]
#[verifier::external_body]
pub struct ExDevice(candle_core::Device);

/// Declares [`candle_core::DType`].
#[verifier::external_type_specification]
#[verifier::external_body]
pub struct ExDType(candle_core::DType);

/// Declares [`candle_core::Error`].
#[verifier::external_type_specification]
#[verifier::external_body]
pub struct ExError(candle_core::Error);

/// The element types that a tensor can have.
#[derive(Clone, Copy, Debug, PartialEq, Eq, Structural)]
pub enum ElemType {
    U8,
    U32,
    I16,
    I32,
    I64,
    BF16,
    F16,
    F32,
    F64,
    F8E4M3,
    F6E2M3,
    F6E3M2,
    F4,
    F8E8M0,
}

impl ElemType {
    /// The types that every device knows.
    pub open spec fn is_common(self) -> bool {
        self is U8 || self is U32 || self is I64 || self is BF16 || self is F16 || self is F32
            || self is F64
    }

    /// The types of which tensors can be made and moved around in main memory, and between any two of
    /// which elements can be cast there.
    pub open spec fn is_plain(self) -> bool {
        self.is_common() || self is I16 || self is I32 || self is F8E4M3
    }

    /// The number of bytes that an element takes.
    pub open spec fn bytes(self) -> nat {
        match self {
            ElemType::I16 | ElemType::BF16 | ElemType::F16 => 2,
            ElemType::U32 | ElemType::I32 | ElemType::F32 => 4,
            ElemType::I64 | ElemType::F64 => 8,
            _ => 1,
        }
    }

    /// The bit patterns that stand for no number: all bits of the exponent set and a fraction that
    /// is not zero, or, in eight bits, all bits but the sign.
    pub open spec fn is_nan(self, bits: u64) -> bool {
        match self {
            ElemType::BF16 => (bits / 0x80) % 0x100 == 0xff && bits % 0x80 != 0,
            ElemType::F16 => (bits / 0x400) % 0x20 == 0x1f && bits % 0x400 != 0,
            ElemType::F32 => (bits / 0x80_0000) % 0x100 == 0xff && bits % 0x80_0000 != 0,
            ElemType::F64 => (bits / 0x10_0000_0000_0000) % 0x800 == 0x7ff && bits
                % 0x10_0000_0000_0000 != 0,
            ElemType::F8E4M3 => bits % 0x80 == 0x7f,
            _ => false,
        }
    }

    /// Casts that give the same in the main memory of every machine. From double to half precision
    /// some processors round twice, by way of single precision.
    pub open spec fn casts_alike(self, to: ElemType) -> bool {
        self != ElemType::F64 || to != ElemType::F16
    }

    /// Whether a cast to the other type comes to an end in main memory. In the cast from eight bits to
    /// double precision, candle calls itself without end on every element.
    pub open spec fn cast_ends(self, to: ElemType) -> bool {
        self != ElemType::F8E4M3 || to != ElemType::F64
    }

    /// The bit pattern of the number one.
    pub open spec fn one(self) -> u64 {
        match self {
            ElemType::BF16 => 0x3f80,
            ElemType::F16 => 0x3c00,
            ElemType::F32 => 0x3f80_0000,
            ElemType::F64 => 0x3ff0_0000_0000_0000,
            ElemType::F8E4M3 => 0x38,
            _ => 1,
        }
    }

    /// The number of bytes that an element takes.
    pub fn width(self) -> (res: usize)
        ensures
            res == self.bytes(),
            0 < res <= 8,
    {
        match self {
            ElemType::I16 | ElemType::BF16 | ElemType::F16 => 2,
            ElemType::U32 | ElemType::I32 | ElemType::F32 => 4,
            ElemType::I64 | ElemType::F64 => 8,
            _ => 1,
        }
    }
}

/// The size of a tensor along each of its dimensions.
pub uninterp spec fn tensor_shape(t: Tensor) -> Seq<usize>;

/// The elements of a tensor in row-major order, each as its bit pattern.
pub uninterp spec fn tensor_elems(t: Tensor) -> Seq<u64>;

/// The type of the elements of a tensor.
pub uninterp spec fn tensor_type(t: Tensor) -> ElemType;

/// The device that a tensor lies on. Devices are told apart as [`Device::same_device`] does.
pub uninterp spec fn tensor_device(t: Tensor) -> Device;

/// Whether the position at which a tensor starts to read lies in its storage or at its end. A view
/// without elements can start behind the end of an empty storage, and candle panics where it turns to
/// that position.
pub uninterp spec fn starts_in_storage(t: Tensor) -> bool;

/// Whether a device is the processor with its main memory.
pub uninterp spec fn device_on_cpu(d: Device) -> bool;

/// The element type that candle's own tag stands for.
pub uninterp spec fn dtype_elem(d: DType) -> ElemType;

/// What casting one element, given by its bit pattern, from one type to another gives.
pub uninterp spec fn cast_bits(bits: u64, from: ElemType, to: ElemType) -> u64;

/// Whether a tensor lies in main memory.
pub open spec fn tensor_on_cpu(t: Tensor) -> bool {
    device_on_cpu(tensor_device(t))
}

/// The element of a tensor at a multi-index.
pub open spec fn at(t: Tensor, idx: Seq<int>) -> u64 {
    tensor_elems(t)[offset(tensor_shape(t), idx)]
}

/// The number of rows: the size along the first dimension.
pub open spec fn rows(t: Tensor) -> nat {
    if tensor_shape(t).len() == 0 {
        0
    } else {
        tensor_shape(t)[0] as nat
    }
}

/// The number of rows of several tensors together.
pub open spec fn cat_rows(ts: Seq<Tensor>) -> nat
    decreases ts.len(),
{
    if ts.len() == 0 {
        0
    } else {
        cat_rows(ts.drop_last()) + rows(ts.last())
    }
}

/// The elements of several tensors, one tensor after the other.
pub open spec fn cat_elems(ts: Seq<Tensor>) -> Seq<u64>
    decreases ts.len(),
{
    if ts.len() == 0 {
        seq![]
    } else {
        cat_elems(ts.drop_last()) + tensor_elems(ts.last())
    }
}

/// Tensors that differ at most in their number of rows.
pub open spec fn same_rows(a: Tensor, b: Tensor) -> bool {
    &&& tensor_shape(a).len() > 0
    &&& tensor_shape(b).len() > 0
    &&& tensor_shape(a).skip(1) == tensor_shape(b).skip(1)
    &&& tensor_type(a) == tensor_type(b)
}

/// Tensors that can be put one below the other.
pub open spec fn can_cat(ts: Seq<Tensor>) -> bool {
    &&& ts.len() > 0
    &&& ts.len() == 1 || forall|i: int| 0 <= i < ts.len() ==> same_rows(ts[0], #[trigger] ts[i])
}

/// A tensor that holds the rows of several tensors, one tensor after the other. One tensor alone
/// stands for itself.
pub open spec fn is_cat(t: Tensor, ts: Seq<Tensor>) -> bool {
    if ts.len() == 1 {
        t == ts[0]
    } else {
        &&& tensor_shape(t) == seq![cat_rows(ts) as usize] + tensor_shape(ts[0]).skip(1)
        &&& tensor_elems(t) == cat_elems(ts)
        &&& tensor_type(t) == tensor_type(ts[0])
        &&& tensor_device(t) == tensor_device(ts[0])
    }
}

/// What is put one below the other can be addressed. Of a tensor without dimensions there are no
/// rows to put anywhere.
pub open spec fn cat_sized(ts: Seq<Tensor>) -> bool {
    &&& forall|i: int|
        0 <= i < ts.len() ==> sized(tensor_shape(#[trigger] ts[i]), tensor_type(ts[i]).bytes())
    &&& ts.len() > 0 && tensor_shape(ts[0]).len() > 0 ==> cat_rows(ts) * span(
        tensor_shape(ts[0]).skip(1),
    ) * tensor_type(ts[0]).bytes() <= isize::MAX
}

/// What is stacked can be addressed.
pub open spec fn stack_sized(ts: Seq<Tensor>) -> bool {
    &&& forall|i: int|
        0 <= i < ts.len() ==> sized(tensor_shape(#[trigger] ts[i]), tensor_type(ts[i]).bytes())
    &&& ts.len() > 0 ==> ts.len() * span(tensor_shape(ts[0])) * tensor_type(ts[0]).bytes()
        <= isize::MAX
}

/// Tensors that can be stacked along a new first dimension.
pub open spec fn can_stack(ts: Seq<Tensor>) -> bool {
    &&& ts.len() > 0
    &&& forall|i: int|
        0 <= i < ts.len() ==> tensor_shape(#[trigger] ts[i]) == tensor_shape(ts[0]) && tensor_type(
            ts[i],
        ) == tensor_type(ts[0])
}

/// All the tensors lie in main memory and have elements of a plain type.
pub open spec fn all_plain_on_cpu(ts: Seq<Tensor>) -> bool {
    forall|i: int|
        0 <= i < ts.len() ==> tensor_on_cpu(#[trigger] ts[i]) && tensor_type(ts[i]).is_plain()
}

/// All the tensors start in their storage.
pub open spec fn all_start_in_storage(ts: Seq<Tensor>) -> bool {
    forall|i: int| 0 <= i < ts.len() ==> starts_in_storage(#[trigger] ts[i])
}

/// Tensors of one shape with the same elements, of one type and on one device.
pub open spec fn alike(a: Tensor, b: Tensor) -> bool {
    &&& tensor_shape(a) == tensor_shape(b)
    &&& tensor_elems(a) == tensor_elems(b)
    &&& tensor_type(a) == tensor_type(b)
    &&& tensor_device(a) == tensor_device(b)
}

/// Lists of tensors that are alike one by one.
pub open spec fn all_alike(a: Seq<Tensor>, b: Seq<Tensor>) -> bool {
    a.len() == b.len() && forall|i: int| 0 <= i < a.len() ==> alike(#[trigger] a[i], b[i])
}

/// Tensors that are alike have the same rows.
proof fn lemma_alike_rows(a: Seq<Tensor>, b: Seq<Tensor>)
    requires
        all_alike(a, b),
    ensures
        cat_rows(a) == cat_rows(b),
        cat_elems(a) == cat_elems(b),
    decreases a.len(),
{
    if a.len() > 0 {
        let n = a.len() - 1;
        assert(alike(a[n], b[n]));
        assert(all_alike(a.drop_last(), b.drop_last())) by {
            assert forall|i: int| 0 <= i < n implies alike(
                #[trigger] a.drop_last()[i],
                b.drop_last()[i],
            ) by {
                assert(alike(a[i], b[i]));
            }
        }
        lemma_alike_rows(a.drop_last(), b.drop_last());
    }
}

/// Tensors with equally many elements, one after the other: the elements of tensor `i` start at `i`
/// times that number.
pub proof fn lemma_cat_elems(ts: Seq<Tensor>, width: nat)
    requires
        forall|i: int| 0 <= i < ts.len() ==> tensor_elems(#[trigger] ts[i]).len() == width,
    ensures
        cat_elems(ts).len() == ts.len() * width,
        forall|i: int, j: int|
            0 <= i < ts.len() && 0 <= j < width ==> cat_elems(ts)[i * width + j]
                == #[trigger] tensor_elems(ts[i])[j],
    decreases ts.len(),
{
    if ts.len() > 0 {
        let init = ts.drop_last();
        let n = init.len();
        lemma_cat_elems(init, width);
        assert(ts.len() * width == n * width + width) by (nonlinear_arith)
            requires
                ts.len() == n + 1,
        ;
        assert forall|i: int, j: int| 0 <= i < ts.len() && 0 <= j < width implies cat_elems(ts)[i
            * width + j] == #[trigger] tensor_elems(ts[i])[j] by {
            if i < n {
                assert(init[i] == ts[i]);
                assert(0 <= i * width + j < n * width) by (nonlinear_arith)
                    requires
                        0 <= i < n,
                        0 <= j < width,
                ;
            }
        }
    }
}

/// The elements of several tensors, one after the other: those of tensor `i` follow on the elements of
/// the tensors before it.
pub proof fn lemma_cat_elems_at(ts: Seq<Tensor>, i: int, x: int)
    requires
        0 <= i < ts.len(),
        0 <= x < tensor_elems(ts[i]).len(),
    ensures
        0 <= cat_elems(ts.take(i)).len() + x < cat_elems(ts).len(),
        cat_elems(ts)[cat_elems(ts.take(i)).len() + x] == tensor_elems(ts[i])[x],
    decreases ts.len(),
{
    let init = ts.drop_last();
    if i == ts.len() - 1 {
        assert(ts.take(i) =~= init);
    } else {
        assert(init.take(i) =~= ts.take(i));
        lemma_cat_elems_at(init, i, x);
    }
}

/// Several tensors have the rows of the first ones and of the others together.
pub proof fn lemma_cat_parts(a: Seq<Tensor>, b: Seq<Tensor>)
    ensures
        cat_rows(a + b) == cat_rows(a) + cat_rows(b),
        cat_elems(a + b) == cat_elems(a) + cat_elems(b),
        a.len() == 0 ==> cat_rows(a) == 0 && cat_elems(a).len() == 0,
        a.len() == 1 && tensor_shape(a[0]).len() > 0 ==> cat_rows(a) == tensor_shape(a[0])[0],
        a.len() == 1 ==> cat_elems(a) == tensor_elems(a[0]),
    decreases b.len(),
{
    if b.len() == 0 {
        assert(a + b =~= a);
        assert(cat_elems(a) + cat_elems(b) =~= cat_elems(a));
    } else {
        lemma_cat_parts(a, b.drop_last());
        assert((a + b).drop_last() =~= a + b.drop_last());
        assert(cat_elems(a + b) =~= cat_elems(a) + cat_elems(b));
    }
    if a.len() == 1 {
        assert(cat_elems(a.drop_last()) =~= seq![]);
        assert(cat_rows(a.drop_last()) == 0);
        assert(cat_elems(a) =~= tensor_elems(a[0]));
    }
}

/// Tensors can be joined in memory wherever each of them, and all their rows together, fit with eight
/// bytes per element.
pub proof fn lemma_small_tensors_can_be_joined(ts: Seq<Tensor>)
    requires
        forall|i: int|
            0 <= i < ts.len() ==> span(tensor_shape(#[trigger] ts[i])) * 8 <= isize::MAX,
        ts.len() > 0 && tensor_shape(ts[0]).len() > 0 ==> cat_rows(ts) * span(
            tensor_shape(ts[0]).skip(1),
        ) * 8 <= isize::MAX,
    ensures
        cat_sized(ts),
{
    assert forall|i: int| 0 <= i < ts.len() implies sized(
        tensor_shape(#[trigger] ts[i]),
        tensor_type(ts[i]).bytes(),
    ) by {
        let (s, w) = (span(tensor_shape(ts[i])), tensor_type(ts[i]).bytes());
        assert(s * w <= s * 8) by (nonlinear_arith)
            requires
                w <= 8,
        ;
    }
    if ts.len() > 0 {
        let (s, w) = (
            cat_rows(ts) * span(tensor_shape(ts[0]).skip(1)),
            tensor_type(ts[0]).bytes(),
        );
        assert(s * w <= s * 8) by (nonlinear_arith)
            requires
                w <= 8,
        ;
    }
}

/// Tensors that agree in all sizes but the first and in their type can be put one below the other,
/// and so can one tensor alone.
pub proof fn lemma_matching_tensors_can_be_joined(ts: Seq<Tensor>)
    requires
        ts.len() > 0,
        ts.len() == 1 || forall|i: int|
            #![trigger ts[i]]
            0 <= i < ts.len() ==> {
                &&& tensor_shape(ts[i]).len() == tensor_shape(ts[0]).len() > 0
                &&& tensor_type(ts[i]) == tensor_type(ts[0])
                &&& forall|k: int|
                    1 <= k < tensor_shape(ts[0]).len() ==> tensor_shape(ts[i])[k] == tensor_shape(
                        ts[0],
                    )[k]
            },
    ensures
        can_cat(ts),
{
    if ts.len() > 1 {
        assert forall|i: int| 0 <= i < ts.len() implies same_rows(ts[0], #[trigger] ts[i]) by {
            assert(tensor_shape(ts[0]).len() > 0);
            assert(tensor_shape(ts[0]).skip(1) =~= tensor_shape(ts[i]).skip(1));
        }
    }
}

/// Calls [`Tensor::dims`]: the size along each dimension. Their product is the number of elements. A
/// tensor that has elements starts at the first of them, which lies in its storage.
#[verifier::external_body]
pub(crate) fn dims(t: &Tensor) -> (res: Vec<usize>)
    ensures
        res@ == tensor_shape(*t),
        tensor_elems(*t).len() == count(res@),
        count(res@) > 0 ==> starts_in_storage(*t),
{
    t.dims().to_vec()
}

/// Calls [`Tensor::dims2`]: the two sizes of a tensor with two dimensions, and an error for any
/// other tensor.
#[verifier::external_body]
pub(crate) fn dims2(t: &Tensor) -> (res: Result<(usize, usize), Error>)
    ensures
        res is Ok <==> tensor_shape(*t).len() == 2,
        res matches Ok(d) ==> tensor_shape(*t) == seq![d.0, d.1],
{
    t.dims2()
}

/// Calls [`Tensor::dims3`]: the three sizes of a tensor with three dimensions, and an error for any
/// other tensor.
#[verifier::external_body]
pub(crate) fn dims3(t: &Tensor) -> (res: Result<(usize, usize, usize), Error>)
    ensures
        res is Ok <==> tensor_shape(*t).len() == 3,
        res matches Ok(d) ==> tensor_shape(*t) == seq![d.0, d.1, d.2],
{
    t.dims3()
}

/// Calls [`Tensor::dim`]: the size along one dimension, and an error where the tensor has no such
/// dimension.
#[verifier::external_body]
pub(crate) fn dim(t: &Tensor, axis: usize) -> (res: Result<usize, Error>)
    ensures
        res is Ok <==> axis < tensor_shape(*t).len(),
        res matches Ok(d) ==> d == tensor_shape(*t)[axis as int],
{
    t.dim(axis)
}

/// Calls [`Device::is_cpu`].
#[verifier::external_body]
pub(crate) fn is_cpu(device: &Device) -> (res: bool)
    ensures
        res == device_on_cpu(*device),
{
    device.is_cpu()
}

/// Calls [`Tensor::device`] and clones what it refers to: the device that the tensor lies on.
#[verifier::external_body]
pub(crate) fn device(t: &Tensor) -> (res: Device)
    ensures
        res == tensor_device(*t),
{
    t.device().clone()
}

/// The `clone` of [`Tensor`] hands out another reference to the same tensor.
pub assume_specification[ <candle_core::Tensor as Clone>::clone ](t: &candle_core::Tensor) -> (res:
    candle_core::Tensor)
    ensures
        res == *t,
;

/// Calls [`Tensor::dtype`]: the type of the elements.
#[verifier::external_body]
pub(crate) fn elem_type(t: &Tensor) -> (res: ElemType)
    ensures
        res == tensor_type(*t),
{
    match t.dtype() {
        DType::U8 => ElemType::U8, DType::U32 => ElemType::U32, DType::I16 => ElemType::I16,
        DType::I32 => ElemType::I32, DType::I64 => ElemType::I64, DType::BF16 => ElemType::BF16,
        DType::F16 => ElemType::F16, DType::F32 => ElemType::F32, DType::F64 => ElemType::F64,
        DType::F8E4M3 => ElemType::F8E4M3, DType::F6E2M3 => ElemType::F6E2M3,
        DType::F6E3M2 => ElemType::F6E3M2, DType::F4 => ElemType::F4, DType::F8E8M0 => ElemType::F8E8M0,
    }
}

/// Gives candle's own tag, a [`DType`], for an element type.
#[verifier::external_body]
pub(crate) fn dtype(e: ElemType) -> (res: DType)
    ensures
        dtype_elem(res) == e,
{
    match e {
        ElemType::U8 => DType::U8, ElemType::U32 => DType::U32, ElemType::I16 => DType::I16,
        ElemType::I32 => DType::I32, ElemType::I64 => DType::I64, ElemType::BF16 => DType::BF16,
        ElemType::F16 => DType::F16, ElemType::F32 => DType::F32, ElemType::F64 => DType::F64,
        ElemType::F8E4M3 => DType::F8E4M3, ElemType::F6E2M3 => DType::F6E2M3,
        ElemType::F6E3M2 => DType::F6E3M2, ElemType::F4 => DType::F4, ElemType::F8E8M0 => DType::F8E8M0,
    }
}

/// Calls [`Tensor::new`] on a vector: a tensor with one dimension that holds its items. In main
/// memory this does not fail.
#[verifier::external_body]
pub(crate) fn new_row(items: Vec<u32>, device: &Device) -> (res: Result<Tensor, Error>)
    ensures
        device_on_cpu(*device) ==> res is Ok,
        res matches Ok(r) ==> {
            &&& tensor_shape(r) == seq![items@.len() as usize]
            &&& tensor_elems(r) == items@.map_values(|x: u32| x as u64)
            &&& tensor_type(r) == ElemType::U32
            &&& tensor_device(r) == *device
            &&& starts_in_storage(r)
        },
{
    Tensor::new(items, device)
}

/// Calls [`Tensor::from_vec`]: a tensor of the given shape that holds the items in row-major order.
/// In main memory this does not fail.
#[verifier::external_body]
pub(crate) fn from_vec(items: Vec<u32>, shape: Vec<usize>, device: &Device) -> (res: Result<
    Tensor,
    Error,
>)
    requires
        count(shape@) == items@.len(),
        span(shape@) <= usize::MAX,
    ensures
        device_on_cpu(*device) ==> res is Ok,
        res matches Ok(r) ==> {
            &&& tensor_shape(r) == shape@
            &&& tensor_elems(r) == items@.map_values(|x: u32| x as u64)
            &&& tensor_type(r) == ElemType::U32
            &&& tensor_device(r) == *device
            &&& starts_in_storage(r)
        },
{
    Tensor::from_vec(items, shape, device)
}

/// Calls [`Tensor::zeros`]: a tensor with two dimensions whose elements are all zero. In main
/// memory this does not fail for a plain type.
#[verifier::external_body]
pub(crate) fn zeros(d0: usize, d1: usize, dtype: DType, device: &Device) -> (res: Result<
    Tensor,
    Error,
>)
    requires
        sized(seq![d0, d1], dtype_elem(dtype).bytes()),
    ensures
        device_on_cpu(*device) && dtype_elem(dtype).is_plain() ==> res is Ok,
        res matches Ok(r) ==> {
            &&& tensor_shape(r) == seq![d0, d1]
            &&& tensor_elems(r) == Seq::new((d0 * d1) as nat, |i: int| 0u64)
            &&& tensor_type(r) == dtype_elem(dtype)
            &&& tensor_device(r) == *device
            &&& starts_in_storage(r)
        },
{
    Tensor::zeros((d0, d1), dtype, device)
}

/// Calls [`Tensor::zeros_like`]: a tensor of the same shape and type on the same device whose elements
/// are all zero. In main memory this does not fail for a plain type.
#[verifier::external_body]
pub(crate) fn zeros_like(t: &Tensor) -> (res: Result<Tensor, Error>)
    requires
        sized(tensor_shape(*t), tensor_type(*t).bytes()),
    ensures
        tensor_on_cpu(*t) && tensor_type(*t).is_plain() ==> res is Ok,
        res matches Ok(r) ==> {
            &&& tensor_shape(r) == tensor_shape(*t)
            &&& tensor_elems(r) == Seq::new(count(tensor_shape(*t)), |i: int| 0u64)
            &&& tensor_type(r) == tensor_type(*t)
            &&& tensor_device(r) == tensor_device(*t)
            &&& starts_in_storage(r)
        },
{
    t.zeros_like()
}

/// Calls [`Tensor::ones`]: a tensor with two dimensions whose elements are all one. In main memory
/// this does not fail for a common type; for some of the other types candle panics.
#[verifier::external_body]
pub(crate) fn ones(d0: usize, d1: usize, dtype: DType, device: &Device) -> (res: Result<
    Tensor,
    Error,
>)
    requires
        sized(seq![d0, d1], dtype_elem(dtype).bytes()),
        dtype_elem(dtype).is_common(),
    ensures
        device_on_cpu(*device) ==> res is Ok,
        res matches Ok(r) ==> {
            &&& tensor_shape(r) == seq![d0, d1]
            &&& tensor_elems(r) == Seq::new((d0 * d1) as nat, |i: int| dtype_elem(dtype).one())
            &&& tensor_type(r) == dtype_elem(dtype)
            &&& tensor_device(r) == *device
            &&& starts_in_storage(r)
        },
{
    Tensor::ones((d0, d1), dtype, device)
}

/// Calls [`Tensor::arange`] from zero up to `end` over signed 64-bit integers: a tensor with one
/// dimension that holds each number below `end` at its own position. In main memory this does not
/// fail.
#[verifier::external_body]
pub(crate) fn arange(end: usize, device: &Device) -> (res: Result<Tensor, Error>)
    requires
        end * 8 <= isize::MAX,
    ensures
        device_on_cpu(*device) ==> res is Ok,
        res matches Ok(r) ==> {
            &&& tensor_shape(r) == seq![end]
            &&& tensor_elems(r) == Seq::new(end as nat, |i: int| i as u64)
            &&& tensor_type(r) == ElemType::I64
            &&& tensor_device(r) == *device
            &&& starts_in_storage(r)
        },
{
    Tensor::arange(0i64, end as i64, device)
}

/// Calls [`Tensor::unsqueeze`] on dimension zero: the same elements with a first dimension of size
/// one put in front. This does not fail.
#[verifier::external_body]
pub(crate) fn unsqueeze(t: &Tensor) -> (res: Result<Tensor, Error>)
    ensures
        res is Ok,
        res matches Ok(r) ==> {
            &&& tensor_shape(r) == seq![1usize] + tensor_shape(*t)
            &&& tensor_elems(r) == tensor_elems(*t)
            &&& tensor_type(r) == tensor_type(*t)
            &&& tensor_device(r) == tensor_device(*t)
            &&& starts_in_storage(*t) ==> starts_in_storage(r)
        },
{
    t.unsqueeze(0)
}

/// Calls [`Tensor::reshape`] with three sizes whose product is the number of elements: the same
/// elements in the new shape. In main memory this does not fail for a plain type.
#[verifier::external_body]
pub(crate) fn reshape(t: &Tensor, d0: usize, d1: usize, d2: usize) -> (res: Result<Tensor, Error>)
    requires
        sized(tensor_shape(*t), tensor_type(*t).bytes()),
        sized(seq![d0, d1, d2], tensor_type(*t).bytes()),
        count(seq![d0, d1, d2]) == count(tensor_shape(*t)),
    ensures
        tensor_on_cpu(*t) && tensor_type(*t).is_plain() ==> res is Ok,
        res matches Ok(r) ==> {
            &&& tensor_shape(r) == seq![d0, d1, d2]
            &&& tensor_elems(r) == tensor_elems(*t)
            &&& tensor_type(r) == tensor_type(*t)
            &&& tensor_device(r) == tensor_device(*t)
        },
{
    t.reshape((d0, d1, d2))
}

/// Calls [`Tensor::reshape`] with the size of the last of two dimensions and a hole for the first:
/// the same elements in rows of that size. It fails where the size is zero or does not divide the
/// number of elements, and otherwise not in main memory for a plain type.
#[verifier::external_body]
pub(crate) fn reshape_rows(t: &Tensor, last: usize) -> (res: Result<Tensor, Error>)
    requires
        sized(tensor_shape(*t), tensor_type(*t).bytes()),
    ensures
        res is Ok ==> last > 0 && count(tensor_shape(*t)) % (last as nat) == 0,
        tensor_on_cpu(*t) && tensor_type(*t).is_plain() && last > 0 && count(tensor_shape(*t)) % (
        last as nat) == 0 ==> res is Ok,
        res matches Ok(r) ==> {
            &&& tensor_shape(r) == seq![(count(tensor_shape(*t)) / (last as nat)) as usize, last]
            &&& tensor_elems(r) == tensor_elems(*t)
            &&& tensor_type(r) == tensor_type(*t)
            &&& tensor_device(r) == tensor_device(*t)
        },
{
    t.reshape(((), last))
}

/// Calls [`Tensor::broadcast_as`] on a tensor with three dimensions: along a dimension of size one
/// the elements are repeated up to the new size. It fails exactly where a size other than one
/// would change.
#[verifier::external_body]
pub(crate) fn broadcast_as(t: &Tensor, d0: usize, d1: usize, d2: usize) -> (res: Result<
    Tensor,
    Error,
>)
    requires
        tensor_shape(*t).len() == 3,
    ensures
        res is Ok <==> forall|i: int|
            0 <= i < 3 ==> #[trigger] tensor_shape(*t)[i] == 1 || tensor_shape(*t)[i] == seq![
                d0,
                d1,
                d2,
            ][i],
        res matches Ok(r) ==> {
            &&& tensor_shape(r) == seq![d0, d1, d2]
            &&& tensor_elems(r).len() == d0 * d1 * d2
            &&& forall|idx: Seq<int>|
                in_shape(tensor_shape(r), idx) ==> #[trigger] at(r, idx) == at(
                    *t,
                    repeated_index(tensor_shape(*t), idx),
                )
            &&& tensor_type(r) == tensor_type(*t)
            &&& tensor_device(r) == tensor_device(*t)
        },
{
    t.broadcast_as((d0, d1, d2))
}

/// Calls [`Tensor::contiguous`]: the same shape and elements, laid out in row-major order. In main
/// memory this does not fail for a plain type.
#[verifier::external_body]
pub(crate) fn contiguous(t: &Tensor) -> (res: Result<Tensor, Error>)
    requires
        sized(tensor_shape(*t), tensor_type(*t).bytes()),
    ensures
        tensor_on_cpu(*t) && tensor_type(*t).is_plain() ==> res is Ok,
        res matches Ok(r) ==> {
            &&& tensor_shape(r) == tensor_shape(*t)
            &&& tensor_elems(r) == tensor_elems(*t)
            &&& tensor_type(r) == tensor_type(*t)
            &&& tensor_device(r) == tensor_device(*t)
        },
{
    t.contiguous()
}

/// Calls [`Tensor::narrow`] on dimension zero: the rows from `start` on, `len` of them. It fails
/// exactly where the tensor does not have these rows. The tensor has to have
/// elements, so that every position in it lies in its storage, and the end of the rows has to fit in
/// `usize`.
#[verifier::external_body]
pub(crate) fn narrow(t: &Tensor, start: usize, len: usize) -> (res: Result<Tensor, Error>)
    requires
        start + len <= usize::MAX,
        count(tensor_shape(*t)) > 0,
    ensures
        res is Ok <==> (tensor_shape(*t).len() > 0 && start + len <= tensor_shape(*t)[0]),
        res matches Ok(r) ==> {
            &&& tensor_shape(r) == tensor_shape(*t).update(0, len)
            &&& tensor_elems(r) == tensor_elems(*t).subrange(
                start * count(tensor_shape(*t).skip(1)),
                (start + len) * count(tensor_shape(*t).skip(1)),
            )
            &&& tensor_type(r) == tensor_type(*t)
            &&& tensor_device(r) == tensor_device(*t)
        },
{
    t.narrow(0, start, len)
}

/// Calls [`Tensor::cat`] along dimension zero: the rows of the tensors, one tensor after the other.
/// A single tensor comes back as it is; of several each has to start in its storage. It fails where there is no tensor or the tensors do not fit
/// together, and otherwise not in main memory for a plain type.
#[verifier::external_body]
pub(crate) fn cat(ts: &Vec<Tensor>) -> (res: Result<Tensor, Error>)
    requires
        cat_sized(ts@),
        ts@.len() > 1 ==> all_start_in_storage(ts@),
    ensures
        res is Ok ==> can_cat(ts@),
        ts@.len() == 1 || can_cat(ts@) && all_plain_on_cpu(ts@) ==> res is Ok,
        res matches Ok(r) ==> is_cat(r, ts@),
{
    Tensor::cat(ts, 0)
}

/// Calls [`Tensor::stack`] along dimension zero: the tensors as the rows of one tensor. Of several
/// tensors each has to start in its storage. It fails
/// where there is no tensor or the tensors differ in shape or type, and otherwise not in main
/// memory for a plain type.
#[verifier::external_body]
pub(crate) fn stack(ts: &Vec<Tensor>) -> (res: Result<Tensor, Error>)
    requires
        stack_sized(ts@),
        ts@.len() > 1 ==> all_start_in_storage(ts@),
    ensures
        res is Ok ==> can_stack(ts@),
        can_stack(ts@) && all_plain_on_cpu(ts@) ==> res is Ok,
        res matches Ok(r) ==> {
            &&& tensor_shape(r) == seq![ts@.len() as usize] + tensor_shape(ts@[0])
            &&& tensor_elems(r) == cat_elems(ts@)
            &&& tensor_type(r) == tensor_type(ts@[0])
            &&& tensor_device(r) == tensor_device(ts@[0])
        },
{
    Tensor::stack(ts, 0)
}

/// Calls [`Tensor::slice_assign`]: a copy of `t` with a block, given by one range per dimension,
/// replaced by the elements of `src`. The block has to lie in `t` and to have the shape of `src`.
/// It fails where the types differ, and otherwise not in main memory for a plain type.
#[verifier::external_body]
pub(crate) fn slice_assign(t: &Tensor, ranges: &Vec<Range<usize>>, src: &Tensor) -> (res: Result<
    Tensor,
    Error,
>)
    requires
        sized(tensor_shape(*t), tensor_type(*t).bytes()),
        sized(tensor_shape(*t), tensor_type(*src).bytes()),
        block_fits(tensor_shape(*t), ranges@, tensor_shape(*src)),
    ensures
        res is Ok ==> tensor_type(*t) == tensor_type(*src),
        tensor_on_cpu(*t) && tensor_on_cpu(*src) && tensor_type(*t).is_plain() && tensor_type(*t)
            == tensor_type(*src) ==> res is Ok,
        res matches Ok(r) ==> {
            &&& tensor_shape(r) == tensor_shape(*t)
            &&& tensor_elems(r).len() == tensor_elems(*t).len()
            &&& forall|idx: Seq<int>|
                in_shape(tensor_shape(*t), idx) ==> #[trigger] at(r, idx) == if in_block(
                    ranges@,
                    idx,
                ) {
                    at(*src, block_index(ranges@, idx))
                } else {
                    at(*t, idx)
                }
            &&& tensor_type(r) == tensor_type(*t)
            &&& tensor_device(*src) == tensor_device(*t) ==> tensor_device(r) == tensor_device(*t)
            &&& tensor_on_cpu(*src) && tensor_on_cpu(*t) ==> tensor_on_cpu(r)
            &&& starts_in_storage(r)
        },
{
    t.slice_assign(ranges, src)
}

/// Calls [`Tensor::to_dtype`]: the same shape with each element cast to another type. A tensor that is
/// cast has to start in its storage, and the cast of its elements has to come to an end. Between equal types nothing changes; between common types, and in
/// main memory between plain ones, zero stays zero and one stays one. In main memory a cast
/// between plain types does not fail, and what becomes of an element that stands for a number
/// depends on that element and the two types alone. What the casts of other devices make of a number
/// that the new type does not hold, what a cast from double to half precision makes of one, and which
/// of the patterns for no number comes out, is not stated: it differs between machines.
#[verifier::external_body]
pub(crate) fn to_dtype(t: &Tensor, dtype: DType) -> (res: Result<Tensor, Error>)
    requires
        sized(tensor_shape(*t), tensor_type(*t).bytes()),
        sized(tensor_shape(*t), dtype_elem(dtype).bytes()),
        tensor_type(*t) != dtype_elem(dtype) ==> starts_in_storage(*t),
        tensor_on_cpu(*t) && count(tensor_shape(*t)) > 0 ==> tensor_type(*t).cast_ends(
            dtype_elem(dtype),
        ),
    ensures
        tensor_type(*t) == dtype_elem(dtype) ==> res is Ok && res->Ok_0 == *t,
        tensor_on_cpu(*t) && tensor_type(*t).is_plain() && dtype_elem(dtype).is_plain()
            ==> res is Ok,
        res matches Ok(r) ==> {
            &&& tensor_shape(r) == tensor_shape(*t)
            &&& tensor_elems(r).len() == tensor_elems(*t).len()
            &&& tensor_type(*t).is_common() && dtype_elem(dtype).is_common() || tensor_on_cpu(*t)
                && tensor_type(*t).is_plain() && dtype_elem(dtype).is_plain()
                ==> forall|i: int|
                0 <= i < tensor_elems(*t).len() ==> {
                    &&& tensor_elems(*t)[i] == 0 ==> #[trigger] tensor_elems(r)[i] == 0
                    &&& tensor_elems(*t)[i] == tensor_type(*t).one() ==> tensor_elems(r)[i]
                        == dtype_elem(dtype).one()
                    &&& tensor_on_cpu(*t) && tensor_type(*t).casts_alike(dtype_elem(dtype))
                        && !tensor_type(*t).is_nan(tensor_elems(*t)[i]) ==> tensor_elems(r)[i]
                        == cast_bits(
                        tensor_elems(*t)[i],
                        tensor_type(*t),
                        dtype_elem(dtype),
                    )
                }
            &&& tensor_type(r) == dtype_elem(dtype)
            &&& tensor_device(r) == tensor_device(*t)
            &&& tensor_type(*t) != dtype_elem(dtype) ==> starts_in_storage(r)
        },
{
    t.to_dtype(dtype)
}

/// Calls [`Tensor::to_device`]: the same shape, elements and type on another device. From main
/// memory to main memory this does not fail.
#[verifier::external_body]
pub(crate) fn to_device(t: &Tensor, device: &Device) -> (res: Result<Tensor, Error>)
    ensures
        tensor_on_cpu(*t) && device_on_cpu(*device) ==> res is Ok && res->Ok_0 == *t,
        res matches Ok(r) ==> {
            &&& tensor_shape(r) == tensor_shape(*t)
            &&& tensor_elems(r) == tensor_elems(*t)
            &&& tensor_type(r) == tensor_type(*t)
            &&& tensor_device(r) == *device
            &&& starts_in_storage(*t) ==> starts_in_storage(r)
        },
{
    t.to_device(device)
}

/// Whether a device is the processor with its main memory, where nothing fails that fits together.
pub fn device_in_main_memory(device: &Device) -> (res: bool)
    ensures
        res == device_on_cpu(*device),
{
    is_cpu(device)
}

/// Whether a tensor lies in main memory.
pub fn tensor_in_main_memory(t: &Tensor) -> (res: bool)
    ensures
        res == tensor_on_cpu(*t),
{
    is_cpu(&device(t))
}

/// Whether a tensor of this shape has elements.
pub(crate) fn has_elements(shape: &Vec<usize>) -> (res: bool)
    ensures
        res == (count(shape@) > 0),
{
    let mut i: usize = shape.len();
    assert(shape@.skip(i as int) =~= seq![]);
    while i > 0
        invariant
            i <= shape@.len(),
            count(shape@.skip(i as int)) > 0,
        decreases i,
    {
        i = i - 1;
        assert(shape@.skip(i as int).skip(1) =~= shape@.skip(i + 1));
        let ghost (size, rest) = (shape@[i as int] as int, count(shape@.skip(i + 1)) as int);
        if shape[i] == 0 {
            proof {
                assert(0 * rest == 0);
                lemma_count_zero(shape@, i as int);
            }
            return false;
        }
        assert(size * rest > 0) by (nonlinear_arith)
            requires
                size > 0,
                rest > 0,
        ;
    }
    assert(shape@.skip(0) =~= shape@);
    true
}

/// A tensor that is alike and starts in its storage. One that has elements does so as it is; one
/// without is made anew.
pub(crate) fn grounded(t: &Tensor) -> (res: Result<Tensor, Error>)
    requires
        sized(tensor_shape(*t), tensor_type(*t).bytes()),
    ensures
        tensor_on_cpu(*t) && tensor_type(*t).is_plain() ==> res is Ok,
        res matches Ok(r) ==> alike(r, *t) && starts_in_storage(r),
{
    if has_elements(&dims(t)) {
        Ok(t.clone())
    } else {
        let made = zeros_like(t);
        assert(made matches Ok(r) ==> tensor_elems(r) =~= tensor_elems(*t));
        made
    }
}

/// The rows of the tensors, one tensor after the other. A single tensor comes back as it is. It fails
/// where there is no tensor or the tensors do not fit together, and otherwise not in main memory for
/// a plain type.
pub(crate) fn join(ts: &Vec<Tensor>) -> (res: Result<Tensor, Error>)
    requires
        cat_sized(ts@),
    ensures
        res is Ok ==> can_cat(ts@),
        ts@.len() == 1 || can_cat(ts@) && all_plain_on_cpu(ts@) ==> res is Ok,
        res matches Ok(r) ==> is_cat(r, ts@),
{
    if ts.len() == 1 {
        return cat(ts);
    }
    let mut parts: Vec<Tensor> = Vec::with_capacity(ts.len());
    for i in 0..ts.len()
        invariant
            ts@.len() != 1,
            cat_sized(ts@),
            all_alike(parts@, ts@.take(i as int)),
            all_start_in_storage(parts@),
    {
        match grounded(&ts[i]) {
            Ok(t) => parts.push(t),
            Err(e) => {
                assert(!all_plain_on_cpu(ts@)) by {
                    assert(!(tensor_on_cpu(ts@[i as int]) && tensor_type(ts@[i as int]).is_plain()));
                }
                return Err(e);
            },
        }
    }
    proof {
        assert(ts@.take(ts@.len() as int) =~= ts@);
        lemma_alike_rows(parts@, ts@);
        assert forall|i: int| 0 <= i < ts@.len() implies alike(parts@[i], #[trigger] ts@[i]) by {
            assert(alike(#[trigger] parts@[i], ts@[i]));
        }
        assert(can_cat(parts@) == can_cat(ts@)) by {
            if can_cat(ts@) {
                assert forall|i: int| 0 <= i < parts@.len() implies same_rows(
                    parts@[0],
                    #[trigger] parts@[i],
                ) by {
                    assert(same_rows(ts@[0], ts@[i]));
                }
            }
            if can_cat(parts@) {
                assert forall|i: int| 0 <= i < ts@.len() implies same_rows(
                    ts@[0],
                    #[trigger] ts@[i],
                ) by {
                    assert(same_rows(parts@[0], parts@[i]));
                }
            }
        }
        if all_plain_on_cpu(ts@) {
            assert forall|i: int| 0 <= i < parts@.len() implies tensor_on_cpu(
                #[trigger] parts@[i],
            ) && tensor_type(parts@[i]).is_plain() by {
                assert(tensor_on_cpu(ts@[i]) && tensor_type(ts@[i]).is_plain());
            }
        }
    }
    cat(&parts)
}

/// Whether a tensor could be addressed if its elements were of the given type.
pub(crate) fn fits_as(t: &Tensor, elem: ElemType) -> (res: bool)
    ensures
        res == sized(tensor_shape(*t), elem.bytes()),
{
    fits(&dims(t), elem.width())
}

/// The first of several tensors have no more rows than all of them.
proof fn lemma_rows_monotone(ts: Seq<Tensor>, n: int)
    requires
        0 <= n <= ts.len(),
    ensures
        cat_rows(ts.take(n)) <= cat_rows(ts),
    decreases ts.len(),
{
    if n == ts.len() {
        assert(ts.take(n) =~= ts);
    } else {
        lemma_rows_monotone(ts.drop_last(), n);
        assert(ts.drop_last().take(n) =~= ts.take(n));
    }
}

/// The number of rows of several tensors together, unless it leaves the range of `usize`.
fn count_rows(ts: &Vec<Tensor>) -> (res: Option<usize>)
    ensures
        match res {
            Some(n) => n == cat_rows(ts@),
            None => cat_rows(ts@) > usize::MAX,
        },
{
    let mut total: usize = 0;
    for i in 0..ts.len()
        invariant
            total == cat_rows(ts@.take(i as int)),
    {
        proof {
            assert(ts@.take(i + 1).drop_last() =~= ts@.take(i as int));
            lemma_rows_monotone(ts@, i + 1);
        }
        let shape = dims(&ts[i]);
        if shape.len() > 0 {
            total = match total.checked_add(shape[0]) {
                Some(total) => total,
                None => return None,
            };
        }
    }
    assert(ts@.take(ts@.len() as int) =~= ts@);
    Some(total)
}

/// Whether what is put one below the other can be addressed.
pub(crate) fn cat_fits(ts: &Vec<Tensor>) -> (res: bool)
    ensures
        res == cat_sized(ts@),
{
    for i in 0..ts.len()
        invariant
            forall|k: int|
                0 <= k < i ==> sized(
                    tensor_shape(#[trigger] ts@[k]),
                    tensor_type(ts@[k]).bytes(),
                ),
    {
        if !fits_as(&ts[i], elem_type(&ts[i])) {
            assert(!sized(tensor_shape(ts@[i as int]), tensor_type(ts@[i as int]).bytes()));
            return false;
        }
    }
    if ts.len() == 0 {
        return true;
    }
    let mut shape = dims(&ts[0]);
    if shape.len() == 0 {
        return true;
    }
    let elem = elem_type(&ts[0]);
    let ghost (rest, width) = (span(shape@.skip(1)) as int, elem.bytes() as int);
    proof {
        lemma_span_positive(shape@.skip(1));
    }
    let total = match count_rows(ts) {
        Some(total) => total,
        None => {
            assert(cat_rows(ts@) <= cat_rows(ts@) * rest * width) by (nonlinear_arith)
                requires
                    rest >= 1,
                    width >= 1,
            ;
            return false;
        },
    };
    if total == 0 {
        assert(0 * rest * width == 0) by (nonlinear_arith);
        return true;
    }
    shape[0] = total;
    assert(shape@.skip(1) =~= tensor_shape(ts@[0]).skip(1));
    fits(&shape, elem.width())
}

} // verus!
