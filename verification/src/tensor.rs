use vstd::prelude::*;

use crate::error::{bad_request, TCError};
use crate::number::{IntType, NumberType, UIntType};
use crate::transform::{valid_coord, Coord, Shape};

verus! {

/// The number of scalar values a dense block holds.
pub const PER_BLOCK: u64 = 131072;

/// The number of cells of the first `upto` axes together.
pub open spec fn prod_of(shape: Seq<u64>, upto: int) -> int
    decreases upto,
{
    if upto <= 0 {
        1
    } else {
        prod_of(shape, upto - 1) * shape[upto - 1]
    }
}

/// The row-major offset of the first `upto` axes of `coord`, in Horner
/// form.
pub open spec fn offset_of(coord: Seq<u64>, shape: Seq<u64>, upto: int) -> int
    decreases upto,
{
    if upto <= 0 {
        0
    } else {
        offset_of(coord, shape, upto - 1) * shape[upto - 1] + coord[upto - 1]
    }
}

/// The products of the axes are non-negative, and positive while every
/// dimension is.
pub proof fn lemma_prod_nonneg(shape: Seq<u64>, upto: int)
    ensures
        prod_of(shape, upto) >= 0,
        (forall|k: int| 0 <= k < upto ==> shape[k] > 0) ==> prod_of(shape, upto) >= 1,
    decreases upto,
{
    if upto > 0 {
        lemma_prod_nonneg(shape, upto - 1);
        let p = prod_of(shape, upto - 1);
        let d = shape[upto - 1] as int;
        assert(p * d >= 0) by (nonlinear_arith)
            requires
                p >= 0,
                d >= 0,
        ;
        if forall|k: int| 0 <= k < upto ==> shape[k] > 0 {
            assert(p * d >= 1) by (nonlinear_arith)
                requires
                    p >= 1,
                    d >= 1,
            ;
        }
    }
}

/// A valid coordinate's offset lies inside the cell count.
pub proof fn lemma_offset_bound(coord: Seq<u64>, shape: Seq<u64>, upto: int)
    requires
        0 <= upto <= shape.len(),
        coord.len() == shape.len(),
        forall|k: int| 0 <= k < coord.len() ==> coord[k] < shape[k],
    ensures
        0 <= offset_of(coord, shape, upto) < prod_of(shape, upto) || prod_of(shape, upto) == 0,
        0 <= offset_of(coord, shape, upto),
    decreases upto,
{
    if upto > 0 {
        lemma_offset_bound(coord, shape, upto - 1);
        lemma_prod_nonneg(shape, upto - 1);
        let h = offset_of(coord, shape, upto - 1);
        let p = prod_of(shape, upto - 1);
        let d = shape[upto - 1] as int;
        let c = coord[upto - 1] as int;
        assert(d > 0);
        assert(h * d >= 0) by (nonlinear_arith)
            requires
                h >= 0,
                d >= 0,
        ;
        if p == 0 {
            assert(p * d == 0) by (nonlinear_arith)
                requires
                    p == 0,
            ;
        } else {
            assert(h < p);
            assert(h * d + c < p * d) by (nonlinear_arith)
                requires
                    h < p,
                    0 <= c < d,
                    h >= 0,
                    p >= 1,
            ;
        }
    }
}

/// Two valid coordinates with one offset are the same coordinate: the
/// row-major layout is a bijection between coordinates and offsets.
pub proof fn lemma_offset_injective(c1: Seq<u64>, c2: Seq<u64>, shape: Seq<u64>, upto: int)
    requires
        0 <= upto <= shape.len(),
        c1.len() == shape.len(),
        c2.len() == shape.len(),
        forall|k: int| 0 <= k < c1.len() ==> c1[k] < shape[k],
        forall|k: int| 0 <= k < c2.len() ==> c2[k] < shape[k],
        offset_of(c1, shape, upto) == offset_of(c2, shape, upto),
    ensures
        forall|k: int| 0 <= k < upto ==> c1[k] == c2[k],
    decreases upto,
{
    if upto > 0 {
        let h1 = offset_of(c1, shape, upto - 1);
        let h2 = offset_of(c2, shape, upto - 1);
        let d = shape[upto - 1] as int;
        let a1 = c1[upto - 1] as int;
        let a2 = c2[upto - 1] as int;
        lemma_offset_bound(c1, shape, upto - 1);
        lemma_offset_bound(c2, shape, upto - 1);
        assert(h1 * d + a1 == h2 * d + a2);
        assert(h1 == h2 && a1 == a2) by (nonlinear_arith)
            requires
                h1 * d + a1 == h2 * d + a2,
                0 <= a1 < d,
                0 <= a2 < d,
                h1 >= 0,
                h2 >= 0,
        ;
        lemma_offset_injective(c1, c2, shape, upto - 1);
    }
}

/// Whether every prefix and suffix cell-product of `shape` fits a machine
/// word. A zero axis can hide an overflowing partial product behind a
/// small total, so each partial product is bounded on its own.
pub open spec fn dims_bounded(shape: Seq<u64>) -> bool {
    &&& forall|k: int| 0 <= k <= shape.len() ==> prod_of(shape, k) <= usize::MAX
    &&& forall|k: int| 0 <= k <= shape.len() ==> suffix_prod(shape, k) <= usize::MAX
}

/// The sum of the values of a sequence.
pub open spec fn sum_seq(s: Seq<i64>) -> int
    decreases s.len(),
{
    if s.len() == 0 {
        0
    } else {
        sum_seq(s.drop_last()) + s.last()
    }
}

/// Partial sums stay within `len * i64` bounds, so an `i128` accumulator
/// cannot overflow.
pub proof fn lemma_sum_seq_bound(s: Seq<i64>)
    ensures
        -(s.len() as int) * (i64::MAX as int + 1) <= sum_seq(s) <= (s.len() as int) * (
        i64::MAX as int),
    decreases s.len(),
{
    if s.len() > 0 {
        lemma_sum_seq_bound(s.drop_last());
        let n = s.len() as int;
        assert((n - 1) * (i64::MAX as int) + (i64::MAX as int) == n * (i64::MAX as int))
            by (nonlinear_arith);
        assert(-(n - 1) * (i64::MAX as int + 1) - (i64::MAX as int + 1) == -n * (
        i64::MAX as int + 1)) by (nonlinear_arith);
    } else {
        assert(-(s.len() as int) * (i64::MAX as int + 1) == 0) by (nonlinear_arith)
            requires
                s.len() == 0,
        ;
        assert((s.len() as int) * (i64::MAX as int) == 0) by (nonlinear_arith)
            requires
                s.len() == 0,
        ;
    }
}

/// The sum along the reduced axis for one output cell: the values at
/// `(pre * d + k) * suffix + s` for `k` below `d`.
pub open spec fn axis_sum(v: Seq<i64>, d: int, suffix: int, pre: int, s: int, k: int) -> int
    decreases k,
{
    if k <= 0 {
        0
    } else {
        axis_sum(v, d, suffix, pre, s, k - 1) + v[(pre * d + (k - 1)) * suffix + s]
    }
}

/// The product along the reduced axis for one output cell.
pub open spec fn axis_prod(v: Seq<i64>, d: int, suffix: int, pre: int, s: int, k: int) -> int
    decreases k,
{
    if k <= 0 {
        1
    } else {
        axis_prod(v, d, suffix, pre, s, k - 1) * v[(pre * d + (k - 1)) * suffix + s]
    }
}

/// The product of the values of a sequence.
pub open spec fn prod_seq(s: Seq<i64>) -> int
    decreases s.len(),
{
    if s.len() == 0 {
        1
    } else {
        prod_seq(s.drop_last()) * s.last()
    }
}

/// Whether every running product of the fold stays within the cell type;
/// a later zero cannot excuse an overflowing partial product.
pub open spec fn prod_prefixes_bounded(s: Seq<i64>) -> bool {
    forall|i: int| 0 <= i <= s.len() ==> i64::MIN <= prod_seq(#[trigger] s.take(i)) <= i64::MAX
}

/// The value `v` takes in a cell of class `dtype`: booleans collapse to
/// zero and one, and the integer classes wrap through their own width.
/// Every cell is stored in the widest signed width.
pub open spec fn cast_spec(dtype: NumberType, v: i64) -> i64 {
    match dtype {
        NumberType::Bool => if v != 0 {
            1i64
        } else {
            0i64
        },
        NumberType::Int(IntType::I16) => v as i16 as i64,
        NumberType::Int(IntType::I32) => v as i32 as i64,
        NumberType::Int(IntType::I64) => v,
        NumberType::UInt(UIntType::U8) => v as u8 as i64,
        NumberType::UInt(UIntType::U16) => v as u16 as i64,
        NumberType::UInt(UIntType::U32) => v as u32 as i64,
        NumberType::UInt(UIntType::U64) => v as u64 as i64,
    }
}

/// A dense tensor: the row-major sequence of its cells, each of the
/// tensor's number class, partitioned logically into blocks of
/// `PER_BLOCK` values.
pub struct DenseTensor {
    shape: Shape,
    dtype: NumberType,
    values: Vec<i64>,
}

impl DenseTensor {
    pub closed spec fn spec_shape(&self) -> Seq<u64> {
        self.shape@
    }

    /// The class of this tensor's cells.
    pub closed spec fn spec_dtype(&self) -> NumberType {
        self.dtype
    }

    pub fn dtype(&self) -> (r: NumberType)
        ensures
            r == self.spec_dtype(),
    {
        self.dtype
    }

    /// The same tensor with every cell taken through the class `dtype`.
    pub fn cast(&self, dtype: NumberType) -> (r: DenseTensor)
        requires
            self.wf(),
        ensures
            r.wf(),
            r.spec_dtype() == dtype,
            r.spec_shape() == self.spec_shape(),
            r.spec_values().len() == self.spec_values().len(),
            forall|i: int| 0 <= i < r.spec_values().len() ==> r.spec_values()[i] == cast_spec(
                dtype,
                self.spec_values()[i],
            ),
    {
        let n = self.values.len();
        let mut values: Vec<i64> = Vec::new();
        for i in 0..n
            invariant
                n == self.spec_values().len(),
                values@.len() == i,
                forall|j: int| 0 <= j < i ==> values@[j] == cast_spec(
                    dtype,
                    self.spec_values()[j],
                ),
        {
            let v = self.values[i];
            let c: i64 = match dtype {
                NumberType::Bool => if v != 0 {
                    1
                } else {
                    0
                },
                NumberType::Int(IntType::I16) => v as i16 as i64,
                NumberType::Int(IntType::I32) => v as i32 as i64,
                NumberType::Int(IntType::I64) => v,
                NumberType::UInt(UIntType::U8) => v as u8 as i64,
                NumberType::UInt(UIntType::U16) => v as u16 as i64,
                NumberType::UInt(UIntType::U32) => v as u32 as i64,
                NumberType::UInt(UIntType::U64) => v as u64 as i64,
            };
            values.push(c);
        }
        DenseTensor { shape: self.shape.clone(), dtype, values }
    }

    pub closed spec fn spec_values(&self) -> Seq<i64> {
        self.values@
    }

    /// The value a coordinate names.
    pub open spec fn spec_at(&self, coord: Seq<u64>) -> i64 {
        self.spec_values()[offset_of(coord, self.spec_shape(), self.spec_shape().len() as int)]
    }

    pub closed spec fn wf(&self) -> bool {
        self.values@.len() == prod_of(self.shape@, self.shape@.len() as int)
    }

    /// A tensor of `shape` with every cell holding `value`, in the widest
    /// signed cell class.
    pub fn constant(shape: Shape, value: i64) -> (r: Result<DenseTensor, TCError>)
        ensures
            r matches Ok(t) ==> {
                &&& t.wf()
                &&& t.spec_shape() == shape@
                &&& t.spec_dtype() == NumberType::Int(IntType::I64)
                &&& forall|i: int| 0 <= i < t.spec_values().len() ==> t.spec_values()[i] == value
            },
            r.is_ok() <==> prod_of(shape@, shape@.len() as int) <= usize::MAX,
            r.is_err() ==> r->Err_0.spec_kind() == crate::error::ErrorKind::BadRequest,
    {
        let size = match Self::cell_count(&shape) {
            Some(c) => c,
            None => {
                return Err(bad_request("the shape holds more cells than fit in memory".to_owned()),
                );
            },
        };
        let mut values: Vec<i64> = Vec::new();
        let mut i: usize = 0;
        while i < size
            invariant
                i <= size,
                values@.len() == i,
                forall|j: int| 0 <= j < i ==> values@[j] == value,
            decreases size - i,
        {
            values.push(value);
            i = i + 1;
        }
        Ok(DenseTensor { shape, dtype: NumberType::Int(IntType::I64), values })
    }

    /// A tensor of `shape` filled from the row-major `values`; rejected
    /// when the count does not match the shape.
    pub fn from_values(shape: Shape, values: Vec<i64>) -> (r: Result<DenseTensor, TCError>)
        ensures
            r.is_ok() <==> values@.len() == prod_of(shape@, shape@.len() as int),
            r matches Ok(t) ==> {
                &&& t.wf()
                &&& t.spec_shape() == shape@
                &&& t.spec_dtype() == NumberType::Int(IntType::I64)
                &&& t.spec_values() == values@
            },
            r.is_err() ==> r->Err_0.spec_kind() == crate::error::ErrorKind::BadRequest,
    {
        let t = DenseTensor { shape, dtype: NumberType::Int(IntType::I64), values };
        let ghost n = t.shape@.len() as int;
        let expected = match Self::cell_count(&t.shape) {
            Some(c) => c,
            None => {
                proof {
                    assert(vstd::std_specs::vec::spec_vec_len(&t.values) == t.values@.len());
                }
                return Err(bad_request("the values do not fill the shape".to_owned()));
            },
        };
        if t.values.len() != expected {
            return Err(bad_request("the values do not fill the shape".to_owned()));
        }
        Ok(t)
    }

    /// The number of cells of `shape`, where it fits a machine word.
    fn cell_count(shape: &Shape) -> (r: Option<usize>)
        ensures
            r matches Some(c) ==> c == prod_of(shape@, shape@.len() as int),
            r is None ==> prod_of(shape@, shape@.len() as int) > usize::MAX,
    {
        let n = shape.len();
        for k in 0..n
            invariant
                n == shape@.len(),
                forall|j: int| 0 <= j < k ==> shape@[j] >= 1,
        {
            if shape.dim(k) == 0 {
                proof {
                    lemma_prod_zero_axis(shape@, k as int, n as int);
                }
                return Some(0);
            }
        }
        let mut size: usize = 1;
        for k in 0..n
            invariant
                n == shape@.len(),
                forall|j: int| 0 <= j < n ==> shape@[j] >= 1,
                size == prod_of(shape@, k as int),
                prod_of(shape@, k as int) <= usize::MAX,
                size >= 1,
        {
            proof {
                lemma_prod_nonneg(shape@, k as int);
            }
            let d = shape.dim(k);
            proof {
                assert(d >= 1);
            }
            if d > usize::MAX as u64 {
                proof {
                    assert(prod_of(shape@, k as int + 1) > usize::MAX) by (nonlinear_arith)
                        requires
                            prod_of(shape@, k as int + 1) == prod_of(shape@, k as int) * (
                            shape@[k as int] as int),
                            prod_of(shape@, k as int) >= 1,
                            shape@[k as int] > usize::MAX,
                    ;
                    lemma_prod_monotone(shape@, k as int + 1, n as int);
                }
                return None;
            }
            proof {
                lemma_mul_div_bound(size as int, d as int, usize::MAX as int);
            }
            if size > usize::MAX / (d as usize) {
                proof {
                    assert(prod_of(shape@, k as int + 1) > usize::MAX);
                    lemma_prod_monotone(shape@, k as int + 1, n as int);
                }
                return None;
            }
            let wide: usize = size * (d as usize);
            proof {
                lemma_prod_monotone(shape@, k as int + 1, n as int);
                assert(wide >= 1) by (nonlinear_arith)
                    requires
                        wide == (size as int) * (d as int),
                        size >= 1,
                        d >= 1,
                ;
            }
            size = wide;
        }
        Some(size)
    }

    pub fn shape(&self) -> (r: &Shape)
        ensures
            r@ == self.spec_shape(),
    {
        &self.shape
    }

    pub fn ndim(&self) -> (r: usize)
        ensures
            r == self.spec_shape().len(),
    {
        self.shape.len()
    }

    /// The row-major offset of `coord`, with the dense block that holds it
    /// and the position inside that block.
    pub fn locate(&self, coord: &Coord) -> (r: Result<(u64, u64, u64), TCError>)
        requires
            self.wf(),
            self.spec_values().len() <= u64::MAX,
        ensures
            r.is_ok() <==> valid_coord(coord@, self.spec_shape()),
            r matches Ok(loc) ==> {
                let off = offset_of(coord@, self.spec_shape(), self.spec_shape().len() as int);
                &&& loc.0 == off
                &&& loc.1 == off / (PER_BLOCK as int)
                &&& loc.2 == off % (PER_BLOCK as int)
            },
            r.is_err() ==> r->Err_0.spec_kind() == crate::error::ErrorKind::BadRequest,
    {
        let off = match self.offset(coord) {
            Some(o) => o,
            None => {
                return Err(bad_request("the coordinate lies outside the tensor".to_owned()));
            },
        };
        Ok((off, off / PER_BLOCK, off % PER_BLOCK))
    }

    /// The row-major offset of `coord`, when the coordinate is valid.
    fn offset(&self, coord: &Coord) -> (r: Option<u64>)
        requires
            self.wf(),
            self.spec_values().len() <= u64::MAX,
        ensures
            r is Some <==> valid_coord(coord@, self.spec_shape()),
            r matches Some(o) ==> o == offset_of(
                coord@,
                self.spec_shape(),
                self.spec_shape().len() as int,
            ) && o < self.spec_values().len(),
    {
        let n = self.shape.len();
        if coord.len() != n {
            return None;
        }
        for k in 0..n
            invariant
                n == self.spec_shape().len() == coord@.len(),
                forall|j: int| 0 <= j < k ==> coord@[j] < self.spec_shape()[j],
        {
            if coord[k] >= self.shape.dim(k) {
                proof {
                    assert(!valid_coord(coord@, self.spec_shape()));
                }
                return None;
            }
        }
        proof {
            assert(valid_coord(coord@, self.spec_shape()));
            assert forall|j: int| 0 <= j < n implies self.spec_shape()[j] >= 1 by {
                assert(coord@[j] < self.spec_shape()[j]);
            }
        }
        let mut off: u64 = 0;
        for k in 0..n
            invariant
                n == self.spec_shape().len() == coord@.len(),
                self.wf(),
                self.spec_values().len() <= u64::MAX,
                valid_coord(coord@, self.spec_shape()),
                forall|j: int| 0 <= j < n ==> self.spec_shape()[j] >= 1,
                off == offset_of(coord@, self.spec_shape(), k as int),
                0 <= offset_of(coord@, self.spec_shape(), k as int) < prod_of(
                    self.spec_shape(),
                    k as int,
                ),
            decreases n - k,
        {
            proof {
                let shp = self.spec_shape();
                let h = offset_of(coord@, shp, k as int);
                let p = prod_of(shp, k as int);
                let d = shp[k as int] as int;
                let c = coord@[k as int] as int;
                lemma_prod_monotone(shp, k as int + 1, n as int);
                assert(h * d + c < p * d) by (nonlinear_arith)
                    requires
                        h < p,
                        0 <= c < d,
                        h >= 0,
                        p >= 1,
                ;
                assert(h * d >= 0) by (nonlinear_arith)
                    requires
                        h >= 0,
                        d >= 0,
                ;
                assert(prod_of(shp, k as int + 1) <= prod_of(shp, n as int));
            }
            off = off * self.shape.dim(k) + coord[k];
        }
        Some(off)
    }

    /// The value at `coord`; a coordinate outside the tensor is rejected.
    pub fn read_value(&self, coord: &Coord) -> (r: Result<i64, TCError>)
        requires
            self.wf(),
            self.spec_values().len() <= u64::MAX,
        ensures
            r.is_ok() <==> valid_coord(coord@, self.spec_shape()),
            r matches Ok(v) ==> v == self.spec_at(coord@),
            r.is_err() ==> r->Err_0.spec_kind() == crate::error::ErrorKind::BadRequest,
    {
        proof {
            assert(vstd::std_specs::vec::spec_vec_len(&self.values) == self.values@.len());
        }
        match self.offset(coord) {
            Some(o) => Ok(self.values[o as usize]),
            None => Err(bad_request("the coordinate lies outside the tensor".to_owned())),
        }
    }

    /// Set the value at `coord`; every other cell keeps its value.
    pub fn write_value_at(&mut self, coord: &Coord, value: i64) -> (r: Result<(), TCError>)
        requires
            old(self).wf(),
            old(self).spec_values().len() <= u64::MAX,
        ensures
            final(self).wf(),
            final(self).spec_shape() == old(self).spec_shape(),
            r.is_ok() <==> valid_coord(coord@, old(self).spec_shape()),
            r.is_err() ==> *final(self) == *old(self) && r->Err_0.spec_kind()
                == crate::error::ErrorKind::BadRequest,
            r.is_ok() ==> final(self).spec_values() == old(self).spec_values().update(
                offset_of(coord@, old(self).spec_shape(), old(self).spec_shape().len() as int),
                value,
            ),
    {
        proof {
            assert(vstd::std_specs::vec::spec_vec_len(&self.values) == self.values@.len());
        }
        match self.offset(coord) {
            Some(o) => {
                self.values[o as usize] = value;
                Ok(())
            },
            None => Err(bad_request("the coordinate lies outside the tensor".to_owned())),
        }
    }

    /// The product of every cell. Every running product of the fold must
    /// fit the cell type: a later zero cannot excuse an overflowing
    /// partial product.
    pub fn product_all(&self) -> (r: i64)
        requires
            prod_prefixes_bounded(self.spec_values()),
        ensures
            r == prod_seq(self.spec_values()),
    {
        let n = self.values.len();
        let mut acc: i64 = 1;
        for i in 0..n
            invariant
                n == self.spec_values().len(),
                prod_prefixes_bounded(self.spec_values()),
                acc == prod_seq(self.spec_values().take(i as int)),
        {
            proof {
                lemma_prod_take_step(self.spec_values(), i as int);
                assert(i64::MIN <= prod_seq(self.spec_values().take(i as int + 1)) <= i64::MAX);
            }
            acc = acc * self.values[i];
        }
        proof {
            assert(self.spec_values().take(n as int) =~= self.spec_values());
        }
        acc
    }

    /// Fold the given axis away by multiplication: the output cell for a
    /// prefix and suffix coordinate holds the product over the folded
    /// axis. Every running product of each cell's fold must fit the cell
    /// type.
    pub fn product(&self, axis: usize) -> (r: Result<DenseTensor, TCError>)
        requires
            self.wf(),
            dims_bounded(self.spec_shape()),
            ({
                let n = self.spec_shape().len() as int;
                let d = self.spec_shape()[axis as int] as int;
                let suffix = suffix_prod(self.spec_shape(), axis as int + 1);
                axis < n ==> forall|pre: int, s: int, k: int|
                    0 <= pre < prod_of(self.spec_shape(), axis as int) && 0 <= s < suffix && 0
                        <= k <= d ==> i64::MIN <= #[trigger] axis_prod(
                        self.spec_values(),
                        d,
                        suffix,
                        pre,
                        s,
                        k,
                    ) <= i64::MAX
            }),
        ensures
            r.is_ok() <==> axis < self.spec_shape().len(),
            r.is_err() ==> r->Err_0.spec_kind() == crate::error::ErrorKind::BadRequest,
            r matches Ok(t) ==> {
                let n = self.spec_shape().len() as int;
                let d = self.spec_shape()[axis as int] as int;
                let suffix = suffix_prod(self.spec_shape(), axis as int + 1);
                &&& t.wf()
                &&& t.spec_shape() == self.spec_shape().remove(axis as int)
                &&& t.spec_dtype() == self.spec_dtype()
                &&& t.spec_values().len() == prod_of(self.spec_shape(), axis as int) * suffix
                &&& forall|pre: int, s: int|
                    0 <= pre < prod_of(self.spec_shape(), axis as int) && 0 <= s < suffix
                        ==> t.spec_values()[pre * suffix + s] == #[trigger] axis_prod(
                        self.spec_values(),
                        d,
                        suffix,
                        pre,
                        s,
                        d,
                    )
            },
    {
        let n = self.shape.len();
        if axis >= n {
            return Err(bad_request("the tensor has no such axis".to_owned()));
        }
        let ghost shp = self.spec_shape();
        let ghost v = self.spec_values();
        let ghost dd = shp[axis as int] as int;
        let ghost suf = suffix_prod(shp, axis as int + 1);
        let ghost pres = prod_of(shp, axis as int);

        proof {
            lemma_values_split(shp, axis as int, v.len() as int);
            lemma_prod_nonneg(shp, axis as int);
            lemma_suffix_nonneg(shp, axis as int + 1);
        }

        let mut out: Vec<i64> = Vec::new();
        let mut pre: usize = 0;
        let pre_count = count_below(&self.shape, axis);
        let suffix = count_from(&self.shape, axis + 1);
        let d = self.shape.dim(axis);
        while pre < pre_count
            invariant
                n == shp.len(),
                axis < n,
                self.wf(),
                shp == self.spec_shape(),
                v == self.spec_values(),
                v.len() == pres * (dd * suf),
                dd == shp[axis as int],
                suf == suffix_prod(shp, axis as int + 1),
                pres == prod_of(shp, axis as int),
                pre_count == pres,
                suffix == suf,
                d == dd,
                pre <= pre_count,
                out@.len() == pre * suf,
                suf >= 0,
                pres >= 0,
                forall|p2: int, s2: int| 0 <= p2 < pre && 0 <= s2 < suf ==> out@[p2 * suf + s2]
                    == #[trigger] axis_prod(v, dd, suf, p2, s2, dd),
                forall|p2: int, s2: int, k: int|
                    0 <= p2 < pres && 0 <= s2 < suf && 0 <= k <= dd ==> i64::MIN
                        <= #[trigger] axis_prod(v, dd, suf, p2, s2, k) <= i64::MAX,
            decreases pre_count - pre,
        {
            let mut s: usize = 0;
            while s < suffix
                invariant
                    n == shp.len(),
                    axis < n,
                    self.wf(),
                    shp == self.spec_shape(),
                    v == self.spec_values(),
                    v.len() == pres * (dd * suf),
                    dd == shp[axis as int],
                    suf == suffix_prod(shp, axis as int + 1),
                    pres == prod_of(shp, axis as int),
                    pre_count == pres,
                    suffix == suf,
                    d == dd,
                    pre < pre_count,
                    s <= suffix,
                    out@.len() == pre * suf + s,
                    forall|p2: int, s2: int| 0 <= p2 < pre && 0 <= s2 < suf ==> out@[p2 * suf
                        + s2] == #[trigger] axis_prod(v, dd, suf, p2, s2, dd),
                    forall|s2: int| 0 <= s2 < s ==> out@[pre * suf + s2] == #[trigger] axis_prod(
                        v, dd, suf, pre as int, s2, dd,
                    ),
                    forall|p2: int, s2: int, k: int|
                        0 <= p2 < pres && 0 <= s2 < suf && 0 <= k <= dd ==> i64::MIN
                            <= #[trigger] axis_prod(v, dd, suf, p2, s2, k) <= i64::MAX,
                decreases suffix - s,
            {
                let mut acc: i64 = 1;
                let mut k: u64 = 0;
                while k < d
                    invariant
                        n == shp.len(),
                        axis < n,
                        self.wf(),
                        shp == self.spec_shape(),
                        v == self.spec_values(),
                        v.len() == pres * (dd * suf),
                        dd == shp[axis as int],
                        suf == suffix_prod(shp, axis as int + 1),
                        pres == prod_of(shp, axis as int),
                        d == dd,
                        suffix == suf,
                        pre < pres,
                        s < suf,
                        k <= d,
                        acc == axis_prod(v, dd, suf, pre as int, s as int, k as int),
                        forall|p2: int, s2: int, k2: int|
                            0 <= p2 < pres && 0 <= s2 < suf && 0 <= k2 <= dd ==> i64::MIN
                                <= #[trigger] axis_prod(v, dd, suf, p2, s2, k2) <= i64::MAX,
                    decreases d - k,
                {
                    proof {
                        lemma_index_in_range(
                            pres,
                            dd,
                            suf,
                            pre as int,
                            k as int,
                            s as int,
                        );
                        assert(v.len() <= usize::MAX) by {
                            assert(vstd::std_specs::vec::spec_vec_len(&self.values)
                                == self.values@.len());
                        }
                        assert(i64::MIN <= axis_prod(v, dd, suf, pre as int, s as int,
                            k as int + 1) <= i64::MAX);
                    }
                    let idx = index_of_cell(pre, k, s, d, suffix);
                    acc = acc * self.values[idx];
                    k = k + 1;
                }
                proof {
                    assert(axis_prod(v, dd, suf, pre as int, s as int, dd) == acc);
                }
                let ghost prev = out@;
                out.push(acc);
                proof {
                    assert(forall|i: int| 0 <= i < prev.len() ==> #[trigger] out@[i] == prev[i]);
                    assert forall|p2: int, s2: int| 0 <= p2 < pre && 0 <= s2 < suf implies out@[
                        p2 * suf + s2] == #[trigger] axis_prod(v, dd, suf, p2, s2, dd) by {
                        assert(p2 * suf + s2 < pre * suf) by (nonlinear_arith)
                            requires
                                0 <= p2 < pre as int,
                                0 <= s2 < suf,
                        ;
                        assert(0 <= p2 * suf + s2) by (nonlinear_arith)
                            requires
                                0 <= p2,
                                0 <= s2,
                                suf >= 0,
                        ;
                        assert(pre * suf <= prev.len());
                        assert(out@[p2 * suf + s2] == prev[p2 * suf + s2]);
                    }
                    assert forall|s2: int| 0 <= s2 < s + 1 implies out@[(pre as int) * suf + s2]
                        == #[trigger] axis_prod(v, dd, suf, pre as int, s2, dd) by {
                        if s2 < s {
                            assert((pre as int) * suf + s2 < prev.len());
                            assert(out@[(pre as int) * suf + s2] == prev[(pre as int) * suf
                                + s2]);
                        } else {
                            assert(out@[(pre as int) * suf + s2] == out@.last());
                        }
                    }
                }
                s = s + 1;
            }
            pre = pre + 1;
            proof {
                assert((pre - 1) * suf + suf == pre * suf) by (nonlinear_arith);
            }
        }
        let mut dims = self.shape.to_vec();
        dims.remove(axis);
        let out_shape = Shape::new(dims);
        let t = DenseTensor { shape: out_shape, dtype: self.dtype, values: out };
        proof {
            lemma_prod_remove(shp, axis as int);
            assert(t.wf());
        }
        Ok(t)
    }

    /// Set every cell of the region `bounds` selects to `value`; every
    /// other cell keeps its value. Bounds that lie outside the shape are
    /// rejected, and a refusal changes nothing. A selection shorter than
    /// the shape is padded with full ranges first.
    pub fn write_value(&mut self, bounds: &crate::transform::Bounds, value: i64) -> (r: Result<
        (),
        TCError,
    >)
        requires
            old(self).wf(),
            dims_bounded(old(self).spec_shape()),
        ensures
            final(self).wf(),
            final(self).spec_shape() == old(self).spec_shape(),
            final(self).spec_dtype() == old(self).spec_dtype(),
            r.is_ok() <==> crate::transform::bounds_in_shape(bounds@, old(self).spec_shape()),
            r.is_err() ==> *final(self) == *old(self) && r->Err_0.spec_kind()
                == crate::error::ErrorKind::BadRequest,
            r.is_ok() ==> forall|c: Seq<u64>| valid_coord(c, old(self).spec_shape())
                ==> final(self).spec_at(c) == (if crate::transform::bounds_select(
                crate::transform::normalized_bounds(bounds@, old(self).spec_shape()),
                c,
            ) {
                value
            } else {
                old(self).spec_at(c)
            }),
    {
        if !self.shape.contains_bounds(bounds) {
            return Err(bad_request("the bounds lie outside the tensor".to_owned()));
        }
        let mut nb = bounds.clone();
        nb.normalize(&self.shape);
        let ghost nbv = nb@;
        let ghost shp = self.spec_shape();
        let ghost oldv = self.spec_values();
        proof {
            assert(nbv =~= crate::transform::normalized_bounds(bounds@, shp));
            assert(crate::transform::bounds_in_shape(nbv, shp)) by {
                assert forall|a: int| 0 <= a < nbv.len() implies crate::transform::axis_in_dim(
                    #[trigger] nbv[a],
                    shp[a],
                ) by {
                    if a >= bounds@.len() {
                        assert(nbv[a] == (crate::transform::AxisBoundsView::In {
                            start: 0u64,
                            end: shp[a],
                        }));
                    }
                }
            }
        }
        let len = self.values.len();
        for t in 0..len
            invariant
                len == self.spec_values().len(),
                self.wf(),
                shp == self.spec_shape(),
                oldv.len() == len,
                dims_bounded(shp),
                nbv.len() == shp.len(),
                nb@ == nbv,
                self.spec_dtype() == old(self).spec_dtype(),
                forall|u: int| 0 <= u < t ==> self.spec_values()[u] == (if offset_selected(
                    nbv,
                    shp,
                    u,
                ) {
                    value
                } else {
                    oldv[u]
                }),
                forall|u: int| t <= u < len ==> #[trigger] self.spec_values()[u] == oldv[u],
        {
            proof {
                assert(self.spec_values().len() == prod_of(shp, shp.len() as int));
                assert forall|k: int| 0 <= k < shp.len() implies shp[k] >= 1 by {
                    if shp[k] == 0 {
                        lemma_prod_zero_axis(shp, k, shp.len() as int);
                    }
                }
            }
            let sel = offset_matches(&self.shape, &nb, t);
            if sel {
                self.values[t] = value;
            }
        }
        proof {
            assert forall|c: Seq<u64>| valid_coord(c, shp) implies self.spec_at(c) == (
            if crate::transform::bounds_select(nbv, c) {
                value
            } else {
                oldv[offset_of(c, shp, shp.len() as int)]
            }) by {
                let n = shp.len() as int;
                let h = offset_of(c, shp, n);
                lemma_offset_bound(c, shp, n);
                lemma_prod_pos_coord(shp, n, c);
                assert(0 <= h < oldv.len());
                assert forall|k: int| 0 <= k < n implies (crate::transform::axis_selects(
                    #[trigger] nbv[k],
                    ((h / suffix_prod(shp, k + 1)) % (shp[k] as int)) as u64,
                ) <==> crate::transform::axis_selects(nbv[k], c[k])) by {
                    lemma_offset_extract(c, shp, k);
                }
                assert(offset_selected(nbv, shp, h) <==> crate::transform::bounds_select(
                    nbv,
                    c,
                ));
            }
        }
        Ok(())
    }

    /// Writes through a broadcast view are refused: a broadcast is not a
    /// bijection, so there is no single source cell behind an output cell.
    pub fn write_through_broadcast(
        &mut self,
        view: &crate::transform::Broadcast,
        bounds: &crate::transform::Bounds,
        value: i64,
    ) -> (r: Result<(), TCError>)
        ensures
            *final(self) == *old(self),
            r.is_err() && r->Err_0.spec_kind() == crate::error::ErrorKind::Unsupported,
    {
        Err(crate::error::unsupported(
            "a broadcast view cannot be written through".to_owned(),
        ))
    }

    /// The sum of every cell, exactly, in a wide accumulator no tensor can
    /// overflow.
    pub fn sum_all(&self) -> (r: i128)
        ensures
            r == sum_seq(self.spec_values()),
    {
        let n = self.values.len();
        let mut acc: i128 = 0;
        for i in 0..n
            invariant
                n == self.spec_values().len(),
                acc == sum_seq(self.spec_values().take(i as int)),
        {
            proof {
                lemma_sum_seq_bound(self.spec_values().take(i as int));
                lemma_sum_take_step(self.spec_values(), i as int);
                assert((i as int) * (i64::MAX as int) <= (u64::MAX as int) * (i64::MAX as int))
                    by (nonlinear_arith)
                    requires
                        0 <= i as int <= u64::MAX as int,
                ;
                assert(-(i as int) * (i64::MAX as int + 1) >= -(u64::MAX as int) * (
                i64::MAX as int + 1)) by (nonlinear_arith)
                    requires
                        0 <= i as int <= u64::MAX as int,
                ;
            }
            acc = acc + (self.values[i] as i128);
        }
        proof {
            assert(self.spec_values().take(n as int) =~= self.spec_values());
        }
        acc
    }

    /// Fold the given axis away by summation: the output cell for a prefix
    /// and suffix coordinate holds the sum over the folded axis. The
    /// mathematical sums must fit the cell type.
    pub fn sum(&self, axis: usize) -> (r: Result<DenseTensor, TCError>)
        requires
            self.wf(),
            dims_bounded(self.spec_shape()),
            ({
                let n = self.spec_shape().len() as int;
                let d = self.spec_shape()[axis as int] as int;
                let suffix = suffix_prod(self.spec_shape(), axis as int + 1);
                axis < n ==> forall|pre: int, s: int|
                    0 <= pre < prod_of(self.spec_shape(), axis as int) && 0 <= s < suffix
                        ==> i64::MIN <= #[trigger] axis_sum(
                        self.spec_values(),
                        d,
                        suffix,
                        pre,
                        s,
                        d,
                    ) <= i64::MAX
            }),
        ensures
            r.is_ok() <==> axis < self.spec_shape().len(),
            r.is_err() ==> r->Err_0.spec_kind() == crate::error::ErrorKind::BadRequest,
            r matches Ok(t) ==> {
                let n = self.spec_shape().len() as int;
                let d = self.spec_shape()[axis as int] as int;
                let suffix = suffix_prod(self.spec_shape(), axis as int + 1);
                &&& t.spec_shape() == self.spec_shape().remove(axis as int)
                &&& t.spec_dtype() == self.spec_dtype()
                &&& t.spec_values().len() == prod_of(self.spec_shape(), axis as int) * suffix
                &&& forall|pre: int, s: int|
                    0 <= pre < prod_of(self.spec_shape(), axis as int) && 0 <= s < suffix
                        ==> t.spec_values()[pre * suffix + s] == #[trigger] axis_sum(
                        self.spec_values(),
                        d,
                        suffix,
                        pre,
                        s,
                        d,
                    )
            },
    {
        let n = self.shape.len();
        if axis >= n {
            return Err(bad_request("the tensor has no such axis".to_owned()));
        }
        let ghost shp = self.spec_shape();
        let ghost v = self.spec_values();
        let ghost dd = shp[axis as int] as int;
        let ghost suf = suffix_prod(shp, axis as int + 1);
        let ghost pres = prod_of(shp, axis as int);

        proof {
            lemma_values_split(shp, axis as int, v.len() as int);
            lemma_prod_nonneg(shp, axis as int);
            lemma_suffix_nonneg(shp, axis as int + 1);
        }

        let mut out: Vec<i64> = Vec::new();
        let mut pre: usize = 0;
        let pre_count = count_below(&self.shape, axis);
        let suffix = count_from(&self.shape, axis + 1);
        let d = self.shape.dim(axis);
        while pre < pre_count
            invariant
                n == shp.len(),
                axis < n,
                self.wf(),
                shp == self.spec_shape(),
                v == self.spec_values(),
                v.len() == pres * (dd * suf),
                dd == shp[axis as int],
                suf == suffix_prod(shp, axis as int + 1),
                pres == prod_of(shp, axis as int),
                pre_count == pres,
                suffix == suf,
                d == dd,
                pre <= pre_count,
                out@.len() == pre * suf,
                suf >= 0,
                pres >= 0,
                forall|p2: int, s2: int| 0 <= p2 < pre && 0 <= s2 < suf ==> out@[p2 * suf + s2]
                    == #[trigger] axis_sum(v, dd, suf, p2, s2, dd),
                forall|p2: int, s2: int|
                    0 <= p2 < pres && 0 <= s2 < suf ==> i64::MIN <= #[trigger] axis_sum(
                        v, dd, suf, p2, s2, dd,
                    ) <= i64::MAX,
            decreases pre_count - pre,
        {
            let mut s: usize = 0;
            while s < suffix
                invariant
                    n == shp.len(),
                    axis < n,
                    self.wf(),
                    shp == self.spec_shape(),
                    v == self.spec_values(),
                    v.len() == pres * (dd * suf),
                    dd == shp[axis as int],
                    suf == suffix_prod(shp, axis as int + 1),
                    pres == prod_of(shp, axis as int),
                    pre_count == pres,
                    suffix == suf,
                    d == dd,
                    pre < pre_count,
                    s <= suffix,
                    out@.len() == pre * suf + s,
                    forall|p2: int, s2: int| 0 <= p2 < pre && 0 <= s2 < suf ==> out@[p2 * suf
                        + s2] == #[trigger] axis_sum(v, dd, suf, p2, s2, dd),
                    forall|s2: int| 0 <= s2 < s ==> out@[pre * suf + s2] == #[trigger] axis_sum(
                        v, dd, suf, pre as int, s2, dd,
                    ),
                    forall|p2: int, s2: int|
                        0 <= p2 < pres && 0 <= s2 < suf ==> i64::MIN <= #[trigger] axis_sum(
                            v, dd, suf, p2, s2, dd,
                        ) <= i64::MAX,
                decreases suffix - s,
            {
                let mut acc: i128 = 0;
                let mut k: u64 = 0;
                while k < d
                    invariant
                        n == shp.len(),
                        axis < n,
                        self.wf(),
                        shp == self.spec_shape(),
                        v == self.spec_values(),
                        v.len() == pres * (dd * suf),
                        dd == shp[axis as int],
                        suf == suffix_prod(shp, axis as int + 1),
                        pres == prod_of(shp, axis as int),
                        d == dd,
                        suffix == suf,
                        pre < pres,
                        s < suf,
                        k <= d,
                        acc == axis_sum(v, dd, suf, pre as int, s as int, k as int),
                        -(k as int) * (i64::MAX as int + 1) <= acc <= (k as int) * (
                        i64::MAX as int),
                    decreases d - k,
                {
                    proof {
                        lemma_index_in_range(
                            pres,
                            dd,
                            suf,
                            pre as int,
                            k as int,
                            s as int,
                        );
                        assert(v.len() <= usize::MAX) by {
                            assert(vstd::std_specs::vec::spec_vec_len(&self.values)
                                == self.values@.len());
                        }
                        assert((k as int) * (i64::MAX as int) + (i64::MAX as int) == (k as int
                            + 1) * (i64::MAX as int)) by (nonlinear_arith);
                        assert(-(k as int) * (i64::MAX as int + 1) - (i64::MAX as int + 1) == -(
                        k as int + 1) * (i64::MAX as int + 1)) by (nonlinear_arith);
                        assert((k as int + 1) * (i64::MAX as int) <= (u64::MAX as int) * (
                        i64::MAX as int)) by (nonlinear_arith)
                            requires
                                0 <= k as int + 1 <= u64::MAX as int,
                        ;
                        assert(-(k as int + 1) * (i64::MAX as int + 1) >= -(u64::MAX as int) * (
                        i64::MAX as int + 1)) by (nonlinear_arith)
                            requires
                                0 <= k as int + 1 <= u64::MAX as int,
                        ;
                    }
                    let idx = index_of_cell(pre, k, s, d, suffix);
                    acc = acc + (self.values[idx] as i128);
                    k = k + 1;
                }
                proof {
                    assert(axis_sum(v, dd, suf, pre as int, s as int, dd) == acc);
                    assert(i64::MIN <= acc <= i64::MAX);
                }
                let ghost prev = out@;
                out.push(acc as i64);
                proof {
                    assert(forall|i: int| 0 <= i < prev.len() ==> #[trigger] out@[i] == prev[i]);
                    assert forall|p2: int, s2: int| 0 <= p2 < pre && 0 <= s2 < suf implies out@[
                        p2 * suf + s2] == #[trigger] axis_sum(v, dd, suf, p2, s2, dd) by {
                        assert(p2 * suf + s2 < pre * suf) by (nonlinear_arith)
                            requires
                                0 <= p2 < pre as int,
                                0 <= s2 < suf,
                        ;
                        assert(0 <= p2 * suf + s2) by (nonlinear_arith)
                            requires
                                0 <= p2,
                                0 <= s2,
                                suf >= 0,
                        ;
                        assert(pre * suf <= prev.len());
                        assert(out@[p2 * suf + s2] == prev[p2 * suf + s2]);
                    }
                    assert forall|s2: int| 0 <= s2 < s + 1 implies out@[(pre as int) * suf + s2]
                        == #[trigger] axis_sum(v, dd, suf, pre as int, s2, dd) by {
                        if s2 < s {
                            assert((pre as int) * suf + s2 < prev.len());
                            assert(out@[(pre as int) * suf + s2] == prev[(pre as int) * suf
                                + s2]);
                        } else {
                            assert(out@[(pre as int) * suf + s2] == out@.last());
                        }
                    }
                }
                s = s + 1;
            }
            pre = pre + 1;
            proof {
                assert((pre - 1) * suf + suf == pre * suf) by (nonlinear_arith);
                assert forall|p2: int, s2: int| 0 <= p2 < pre && 0 <= s2 < suf implies out@[p2
                    * suf + s2] == #[trigger] axis_sum(v, dd, suf, p2, s2, dd) by {
                    if p2 < pre - 1 {
                        assert(p2 * suf + s2 < (pre - 1) * suf) by (nonlinear_arith)
                            requires
                                0 <= p2 < pre - 1,
                                0 <= s2 < suf,
                        ;
                    } else {
                        assert(p2 * suf + s2 == (pre - 1) * suf + s2);
                    }
                }
            }
        }
        let mut dims = self.shape.to_vec();
        dims.remove(axis);
        let out_shape = Shape::new(dims);
        let t = DenseTensor { shape: out_shape, dtype: self.dtype, values: out };
        proof {
            lemma_prod_remove(shp, axis as int);
            assert(t.wf());
        }
        Ok(t)
    }
}

/// The exec index of the cell `(pre, k, s)` in the split layout.
fn index_of_cell(pre: usize, k: u64, s: usize, d: u64, suffix: usize) -> (r: usize)
    requires
        0 <= (pre as int) * ((d as int) * (suffix as int)),
        ((pre as int) * (d as int) + (k as int)) * (suffix as int) + (s as int) < usize::MAX,
        0 <= ((pre as int) * (d as int) + (k as int)) * (suffix as int) + (s as int),
        k < d,
        s < suffix,
        pre >= 0,
    ensures
        r == ((pre as int) * (d as int) + (k as int)) * (suffix as int) + (s as int),
{
    proof {
        assert((pre as int) * (d as int) >= 0) by (nonlinear_arith)
            requires
                pre as int >= 0,
                d as int >= 0,
        ;
        assert(((pre as int) * (d as int) + (k as int)) * (suffix as int) >= 0)
            by (nonlinear_arith)
            requires
                (pre as int) * (d as int) + (k as int) >= 0,
                suffix as int >= 0,
        ;
        assert((pre as int) * (d as int) + (k as int) <= ((pre as int) * (d as int) + (
        k as int)) * (suffix as int)) by (nonlinear_arith)
            requires
                (pre as int) * (d as int) + (k as int) >= 0,
                suffix as int >= 1,
        ;
    }
    let a: usize = (((pre as u128) * (d as u128) + (k as u128)) * (suffix as u128) + (
    s as u128)) as usize;
    proof {
        assert(((pre as int) * (d as int) + (k as int)) * (suffix as int) + (s as int) == (((
        pre as u128) * (d as u128) + (k as u128)) * (suffix as u128) + (s as u128)) as int)
            by (nonlinear_arith)
            requires
                pre as int >= 0,
                d as int >= 0,
                k as int >= 0,
                s as int >= 0,
                suffix as int >= 0,
                ((pre as int) * (d as int) + (k as int)) * (suffix as int) + (s as int)
                    < usize::MAX,
        ;
    }
    a
}

/// The number of cells of the axes before `upto`.
fn count_below(shape: &Shape, upto: usize) -> (r: usize)
    requires
        upto <= shape@.len(),
        dims_bounded(shape@),
    ensures
        r == prod_of(shape@, upto as int),
{
    let mut size: usize = 1;
    for k in 0..upto
        invariant
            upto <= shape@.len(),
            dims_bounded(shape@),
            size == prod_of(shape@, k as int),
    {
        proof {
            lemma_prod_nonneg(shape@, k as int);
            assert(prod_of(shape@, k as int + 1) <= usize::MAX);
        }
        let wide: u128 = (size as u128) * (shape.dim(k) as u128);
        proof {
            assert(wide == prod_of(shape@, k as int + 1)) by (nonlinear_arith)
                requires
                    wide == (size as int) * (shape@[k as int] as int),
                    prod_of(shape@, k as int + 1) == prod_of(shape@, k as int) * (
                    shape@[k as int] as int),
                    size == prod_of(shape@, k as int),
            ;
        }
        size = wide as usize;
    }
    size
}

/// The number of cells of the axes from `from` on.
fn count_from(shape: &Shape, from: usize) -> (r: usize)
    requires
        from <= shape@.len(),
        dims_bounded(shape@),
    ensures
        r == suffix_prod(shape@, from as int),
{
    let n = shape.len();
    let mut size: usize = 1;
    let mut k: usize = n;
    while k > from
        invariant
            from <= k <= n,
            n == shape@.len(),
            dims_bounded(shape@),
            size == suffix_prod(shape@, k as int),
        decreases k,
    {
        k = k - 1;
        proof {
            lemma_suffix_nonneg(shape@, k as int + 1);
            assert(suffix_prod(shape@, k as int) <= usize::MAX);
        }
        let wide: u128 = (shape.dim(k) as u128) * (size as u128);
        proof {
            assert(wide == suffix_prod(shape@, k as int)) by (nonlinear_arith)
                requires
                    wide == (shape@[k as int] as int) * (size as int),
                    suffix_prod(shape@, k as int) == (shape@[k as int] as int) * suffix_prod(
                        shape@,
                        k as int + 1,
                    ),
                    size == suffix_prod(shape@, k as int + 1),
            ;
        }
        size = wide as usize;
    }
    size
}

/// Whether the cell at offset `t` satisfies every axis selection, read
/// off the offset one axis at a time.
fn offset_matches(shape: &Shape, nb: &crate::transform::Bounds, t: usize) -> (r: bool)
    requires
        nb@.len() == shape@.len(),
        dims_bounded(shape@),
        forall|k: int| 0 <= k < shape@.len() ==> shape@[k] >= 1,
    ensures
        r == offset_selected(nb@, shape@, t as int),
{
    let n = shape.len();
    for k in 0..n
        invariant
            n == shape@.len() == nb@.len(),
            dims_bounded(shape@),
            forall|j: int| 0 <= j < n ==> shape@[j] >= 1,
            forall|j: int| 0 <= j < k ==> crate::transform::axis_selects(
                #[trigger] nb@[j],
                ((t as int / suffix_prod(shape@, j + 1)) % (shape@[j] as int)) as u64,
            ),
    {
        let stride = count_from(shape, k + 1);
        proof {
            lemma_suffix_pos(shape@, k as int + 1);
        }
        let d = shape.dim(k);
        let ck = ((t / stride) as u64) % d;
        let ok = match nb.axis(k) {
            crate::transform::AxisBounds::At(c) => ck == *c,
            crate::transform::AxisBounds::In { start, end } => *start <= ck && ck < *end,
            crate::transform::AxisBounds::Of(ids) => contains_index(ids, ck),
        };
        if !ok {
            proof {
                assert(!crate::transform::axis_selects(
                    nb@[k as int],
                    ((t as int / suffix_prod(shape@, k as int + 1)) % (
                    shape@[k as int] as int)) as u64,
                ));
            }
            return false;
        }
    }
    true
}

/// Whether the enumeration holds `v`.
fn contains_index(ids: &Vec<u64>, v: u64) -> (r: bool)
    ensures
        r == (exists|j: int| 0 <= j < ids@.len() && ids@[j] == v),
{
    let n = ids.len();
    for j in 0..n
        invariant
            n == ids@.len(),
            forall|i: int| 0 <= i < j ==> ids@[i] != v,
    {
        if ids[j] == v {
            return true;
        }
    }
    false
}

/// With every axis of positive extent, each suffix product is positive.
proof fn lemma_suffix_pos(shape: Seq<u64>, from: int)
    requires
        0 <= from <= shape.len(),
        forall|k: int| 0 <= k < shape.len() ==> shape[k] >= 1,
    ensures
        suffix_prod(shape, from) >= 1,
    decreases shape.len() - from,
{
    if from < shape.len() {
        lemma_suffix_pos(shape, from + 1);
        let d = shape[from] as int;
        let p = suffix_prod(shape, from + 1);
        assert(d * p >= 1) by (nonlinear_arith)
            requires
                d >= 1,
                p >= 1,
        ;
    }
}

/// The number of cells of the axes after `from`.
pub open spec fn suffix_prod(shape: Seq<u64>, from: int) -> int
    decreases shape.len() - from,
{
    if from >= shape.len() {
        1
    } else {
        (shape[from] as int) * suffix_prod(shape, from + 1)
    }
}

proof fn lemma_suffix_nonneg(shape: Seq<u64>, from: int)
    ensures
        suffix_prod(shape, from) >= 0,
    decreases shape.len() - from,
{
    if from < shape.len() {
        lemma_suffix_nonneg(shape, from + 1);
        assert((shape[from] as int) * suffix_prod(shape, from + 1) >= 0) by (nonlinear_arith)
            requires
                shape[from] as int >= 0,
                suffix_prod(shape, from + 1) >= 0,
        ;
    }
}

/// The cell count splits at any axis into the prefix product, the axis
/// extent, and the suffix product.
proof fn lemma_values_split(shape: Seq<u64>, axis: int, len: int)
    requires
        0 <= axis < shape.len(),
        len == prod_of(shape, shape.len() as int),
    ensures
        len == prod_of(shape, axis) * ((shape[axis] as int) * suffix_prod(shape, axis + 1)),
    decreases shape.len() - axis,
{
    lemma_prod_suffix(shape, axis);
    lemma_prod_suffix(shape, axis + 1);
    let p = prod_of(shape, axis);
    let d = shape[axis] as int;
    let suf = suffix_prod(shape, axis + 1);
    assert(prod_of(shape, shape.len() as int) == p * suffix_prod(shape, axis));
    assert(suffix_prod(shape, axis) == d * suf);
    assert(p * (d * suf) == p * suffix_prod(shape, axis)) by (nonlinear_arith)
        requires
            suffix_prod(shape, axis) == d * suf,
    ;
}

/// The full product equals any prefix product times the matching suffix
/// product.
proof fn lemma_prod_suffix(shape: Seq<u64>, at: int)
    requires
        0 <= at <= shape.len(),
    ensures
        prod_of(shape, shape.len() as int) == prod_of(shape, at) * suffix_prod(shape, at),
    decreases shape.len() - at,
{
    if at == shape.len() {
        assert(suffix_prod(shape, at) == 1);
    } else {
        lemma_prod_suffix(shape, at + 1);
        let p = prod_of(shape, at);
        let d = shape[at] as int;
        let suf = suffix_prod(shape, at + 1);
        assert(prod_of(shape, at + 1) == p * d);
        assert((p * d) * suf == p * (d * suf)) by (nonlinear_arith);
    }
}

/// Removing one axis leaves the product of the others.
proof fn lemma_prod_remove(shape: Seq<u64>, axis: int)
    requires
        0 <= axis < shape.len(),
    ensures
        prod_of(shape.remove(axis), shape.len() as int - 1) == prod_of(shape, axis)
            * suffix_prod(shape, axis + 1),
{
    let r = shape.remove(axis);
    lemma_prod_suffix_gen(r, axis, r.len() as int);
    lemma_prod_eq_prefix(shape, r, axis);
    lemma_suffix_eq_tail(shape, r, axis);
}

/// Prefix products agree on equal prefixes.
proof fn lemma_prod_eq_prefix(shape: Seq<u64>, r: Seq<u64>, axis: int)
    requires
        0 <= axis < shape.len(),
        r == shape.remove(axis),
    ensures
        prod_of(r, axis) == prod_of(shape, axis),
    decreases axis,
{
    if axis > 0 {
        lemma_prod_eq_prefix_rec(shape, r, axis, axis);
    }
}

proof fn lemma_prod_eq_prefix_rec(shape: Seq<u64>, r: Seq<u64>, axis: int, upto: int)
    requires
        0 <= axis < shape.len(),
        r == shape.remove(axis),
        0 <= upto <= axis,
    ensures
        prod_of(r, upto) == prod_of(shape, upto),
    decreases upto,
{
    if upto > 0 {
        lemma_prod_eq_prefix_rec(shape, r, axis, upto - 1);
        assert(r[upto - 1] == shape[upto - 1]);
    }
}

/// Suffix products agree on equal tails.
proof fn lemma_suffix_eq_tail(shape: Seq<u64>, r: Seq<u64>, axis: int)
    requires
        0 <= axis < shape.len(),
        r == shape.remove(axis),
    ensures
        suffix_prod(r, axis) == suffix_prod(shape, axis + 1),
    decreases shape.len() - axis,
{
    if axis < r.len() {
        assert(r[axis] == shape[axis + 1]);
        lemma_suffix_eq_tail_rec(shape, r, axis, axis);
    } else {
        assert(suffix_prod(r, axis) == 1);
        assert(suffix_prod(shape, axis + 1) == 1);
    }
}

proof fn lemma_suffix_eq_tail_rec(shape: Seq<u64>, r: Seq<u64>, axis: int, from: int)
    requires
        0 <= axis < shape.len(),
        r == shape.remove(axis),
        axis <= from <= r.len(),
    ensures
        suffix_prod(r, from) == suffix_prod(shape, from + 1),
    decreases r.len() - from,
{
    if from < r.len() {
        assert(r[from] == shape[from + 1]);
        lemma_suffix_eq_tail_rec(shape, r, axis, from + 1);
    }
}

/// The full product as a prefix-times-suffix split, for the reduced shape.
proof fn lemma_prod_suffix_gen(r: Seq<u64>, at: int, n: int)
    requires
        0 <= at <= n == r.len(),
    ensures
        prod_of(r, n) == prod_of(r, at) * suffix_prod(r, at),
{
    lemma_prod_suffix(r, at);
}

/// One step of the prefix-product recursion for `prod_seq`.
proof fn lemma_prod_take_step(s: Seq<i64>, i: int)
    requires
        0 <= i < s.len(),
    ensures
        prod_seq(s.take(i + 1)) == prod_seq(s.take(i)) * s[i],
{
    assert(s.take(i + 1).drop_last() =~= s.take(i));
    assert(s.take(i + 1).last() == s[i]);
}

/// One step of the prefix-sum recursion for `sum_seq`.
proof fn lemma_sum_take_step(s: Seq<i64>, i: int)
    requires
        0 <= i < s.len(),
    ensures
        sum_seq(s.take(i + 1)) == sum_seq(s.take(i)) + s[i],
{
    assert(s.take(i + 1).drop_last() =~= s.take(i));
    assert(s.take(i + 1).last() == s[i]);
}

/// The cell `(pre, k, s)` lies inside the split layout.
proof fn lemma_index_in_range(pres: int, d: int, suf: int, pre: int, k: int, s: int)
    requires
        0 <= pre < pres,
        0 <= k < d,
        0 <= s < suf,
    ensures
        0 <= (pre * d + k) * suf + s < pres * (d * suf),
        (pre * d + k) * suf + s < usize::MAX || pres * (d * suf) >= usize::MAX,
{
    assert(0 <= (pre * d + k) * suf + s < pres * (d * suf)) by (nonlinear_arith)
        requires
            0 <= pre < pres,
            0 <= k < d,
            0 <= s < suf,
    ;
}

/// With no zero axis, the running product never shrinks.
proof fn lemma_prod_monotone(shape: Seq<u64>, a: int, b: int)
    requires
        0 <= a <= b <= shape.len(),
        forall|j: int| 0 <= j < shape.len() ==> shape[j] >= 1,
    ensures
        prod_of(shape, a) <= prod_of(shape, b),
        prod_of(shape, a) >= 1,
    decreases b - a,
{
    lemma_prod_nonneg(shape, a);
    if a < b {
        lemma_prod_monotone(shape, a + 1, b);
        let p = prod_of(shape, a);
        let d = shape[a] as int;
        assert(p <= p * d) by (nonlinear_arith)
            requires
                p >= 0,
                d >= 1,
        ;
    }
}

/// A zero axis collapses the whole cell count to zero.
proof fn lemma_prod_zero_axis(shape: Seq<u64>, z: int, n: int)
    requires
        0 <= z < n <= shape.len(),
        shape[z] == 0,
    ensures
        prod_of(shape, n) == 0,
    decreases n - z,
{
    if z == n - 1 {
        assert(prod_of(shape, n) == prod_of(shape, n - 1) * 0);
        assert(prod_of(shape, n - 1) * 0 == 0) by (nonlinear_arith);
    } else {
        lemma_prod_zero_axis(shape, z, n - 1);
        assert(prod_of(shape, n) == 0 * (shape[n - 1] as int)) by {
            assert(prod_of(shape, n - 1) == 0);
        }
        assert(0 * (shape[n - 1] as int) == 0) by (nonlinear_arith);
    }
}

/// Passing the quotient bound forces the product past the bound, and
/// staying at or under it keeps the product within it.
proof fn lemma_mul_div_bound(size: int, d: int, bound: int)
    requires
        d >= 1,
        size >= 0,
        bound >= 0,
    ensures
        size > bound / d ==> size * d > bound,
        size <= bound / d ==> size * d <= bound,
{
    vstd::arithmetic::div_mod::lemma_fundamental_div_mod(bound, d);
    let q = bound / d;
    let r = bound % d;
    assert(bound == d * q + r);
    assert(d * q == q * d) by (nonlinear_arith);
    if size > q {
        assert(size * d >= (q + 1) * d) by (nonlinear_arith)
            requires
                size >= q + 1,
                d >= 1,
        ;
        assert((q + 1) * d == q * d + d) by (nonlinear_arith);
    } else if size <= q {
        assert(size * d <= q * d) by (nonlinear_arith)
            requires
                size <= q,
                d >= 1,
                size >= 0,
        ;
        assert(q * d <= bound);
    }
}



/// The product of the axes in the window `[m, j)`.
pub open spec fn prod_range(shape: Seq<u64>, m: int, j: int) -> int
    decreases j - m,
{
    if j <= m {
        1
    } else {
        prod_range(shape, m, j - 1) * shape[j - 1]
    }
}

/// The Horner offset of the window `[m, j)` of `coord`, from a zero base.
pub open spec fn tail_offset(coord: Seq<u64>, shape: Seq<u64>, m: int, j: int) -> int
    decreases j - m,
{
    if j <= m {
        0
    } else {
        tail_offset(coord, shape, m, j - 1) * shape[j - 1] + coord[j - 1]
    }
}

/// The Horner recursion splits at any axis: the full offset is the prefix
/// offset scaled by the window product, plus the window offset.
proof fn lemma_horner_split(coord: Seq<u64>, shape: Seq<u64>, m: int, j: int)
    requires
        0 <= m <= j,
    ensures
        offset_of(coord, shape, j) == offset_of(coord, shape, m) * prod_range(shape, m, j)
            + tail_offset(coord, shape, m, j),
    decreases j - m,
{
    if j == m {
        assert(offset_of(coord, shape, m) * 1 == offset_of(coord, shape, m))
            by (nonlinear_arith);
    } else {
        lemma_horner_split(coord, shape, m, j - 1);
        let om = offset_of(coord, shape, m);
        let pr = prod_range(shape, m, j - 1);
        let tl = tail_offset(coord, shape, m, j - 1);
        let d = shape[j - 1] as int;
        assert((om * pr + tl) * d == om * (pr * d) + tl * d) by (nonlinear_arith);
    }
}

/// A window product from the left equals the same window folded from the
/// right.
proof fn lemma_prod_range_suffix(shape: Seq<u64>, m: int)
    requires
        0 <= m <= shape.len(),
    ensures
        prod_range(shape, m, shape.len() as int) == suffix_prod(shape, m),
    decreases shape.len() - m,
{
    let n = shape.len() as int;
    if m < n {
        lemma_prod_range_suffix(shape, m + 1);
        lemma_prod_range_head(shape, m, n);
    }
}

/// Peeling the head of a window product.
proof fn lemma_prod_range_head(shape: Seq<u64>, m: int, j: int)
    requires
        0 <= m < j,
    ensures
        prod_range(shape, m, j) == (shape[m] as int) * prod_range(shape, m + 1, j),
    decreases j - m,
{
    if j == m + 1 {
        assert(prod_range(shape, m, m) == 1);
        assert(prod_range(shape, m + 1, m + 1) == 1);
        assert(prod_range(shape, m, j) == 1 * (shape[m] as int));
        assert((shape[m] as int) * 1 == shape[m] as int) by (nonlinear_arith);
        assert(1 * (shape[m] as int) == shape[m] as int) by (nonlinear_arith);
    } else {
        lemma_prod_range_head(shape, m, j - 1);
        let d = shape[j - 1] as int;
        let h = shape[m] as int;
        let pr = prod_range(shape, m + 1, j - 1);
        assert((h * pr) * d == h * (pr * d)) by (nonlinear_arith);
    }
}

/// Equal windows of coordinates and shapes have equal window offsets.
proof fn lemma_tail_window_eq(
    c1: Seq<u64>,
    s1: Seq<u64>,
    m1: int,
    c2: Seq<u64>,
    s2: Seq<u64>,
    m2: int,
    len: int,
)
    requires
        0 <= len,
        0 <= m1,
        0 <= m2,
        m1 + len <= c1.len() && m1 + len <= s1.len(),
        m2 + len <= c2.len() && m2 + len <= s2.len(),
        c1.subrange(m1, m1 + len) == c2.subrange(m2, m2 + len),
        s1.subrange(m1, m1 + len) == s2.subrange(m2, m2 + len),
    ensures
        tail_offset(c1, s1, m1, m1 + len) == tail_offset(c2, s2, m2, m2 + len),
        prod_range(s1, m1, m1 + len) == prod_range(s2, m2, m2 + len),
    decreases len,
{
    if len > 0 {
        assert(c1.subrange(m1, m1 + len - 1) =~= c1.subrange(m1, m1 + len).subrange(
            0,
            len - 1,
        ));
        assert(c2.subrange(m2, m2 + len - 1) =~= c2.subrange(m2, m2 + len).subrange(
            0,
            len - 1,
        ));
        assert(s1.subrange(m1, m1 + len - 1) =~= s1.subrange(m1, m1 + len).subrange(
            0,
            len - 1,
        ));
        assert(s2.subrange(m2, m2 + len - 1) =~= s2.subrange(m2, m2 + len).subrange(
            0,
            len - 1,
        ));
        lemma_tail_window_eq(c1, s1, m1, c2, s2, m2, len - 1);
        assert(c1[m1 + (len - 1)] == c1.subrange(m1, m1 + len)[len - 1]);
        assert(c2[m2 + (len - 1)] == c2.subrange(m2, m2 + len)[len - 1]);
        assert(s1[m1 + (len - 1)] == s1.subrange(m1, m1 + len)[len - 1]);
        assert(s2[m2 + (len - 1)] == s2.subrange(m2, m2 + len)[len - 1]);
    }
}

/// Equal prefixes of coordinates and shapes have equal prefix offsets.
proof fn lemma_prefix_offset_eq(c1: Seq<u64>, s1: Seq<u64>, c2: Seq<u64>, s2: Seq<u64>, m: int)
    requires
        0 <= m,
        m <= c1.len() && m <= s1.len() && m <= c2.len() && m <= s2.len(),
        c1.subrange(0, m) == c2.subrange(0, m),
        s1.subrange(0, m) == s2.subrange(0, m),
    ensures
        offset_of(c1, s1, m) == offset_of(c2, s2, m),
    decreases m,
{
    if m > 0 {
        assert(c1.subrange(0, m - 1) =~= c1.subrange(0, m).subrange(0, m - 1));
        assert(c2.subrange(0, m - 1) =~= c2.subrange(0, m).subrange(0, m - 1));
        assert(s1.subrange(0, m - 1) =~= s1.subrange(0, m).subrange(0, m - 1));
        assert(s2.subrange(0, m - 1) =~= s2.subrange(0, m).subrange(0, m - 1));
        lemma_prefix_offset_eq(c1, s1, c2, s2, m - 1);
        assert(c1[m - 1] == c1.subrange(0, m)[m - 1]);
        assert(c2[m - 1] == c2.subrange(0, m)[m - 1]);
        assert(s1[m - 1] == s1.subrange(0, m)[m - 1]);
        assert(s2[m - 1] == s2.subrange(0, m)[m - 1]);
    }
}

/// The window offset of a valid window lies inside the window product.
proof fn lemma_tail_bound(c: Seq<u64>, s: Seq<u64>, m: int, j: int)
    requires
        0 <= m <= j,
        forall|t: int| m <= t < j ==> c[t] < s[t],
    ensures
        0 <= tail_offset(c, s, m, j) < prod_range(s, m, j) || prod_range(s, m, j) == 0,
        0 <= tail_offset(c, s, m, j),
        prod_range(s, m, j) >= 0,
    decreases j - m,
{
    if j > m {
        lemma_tail_bound(c, s, m, j - 1);
        let h = tail_offset(c, s, m, j - 1);
        let p = prod_range(s, m, j - 1);
        let d = s[j - 1] as int;
        let cc = c[j - 1] as int;
        assert(d > cc >= 0);
        assert(h >= 0);
        assert(p >= 0);
        assert(tail_offset(c, s, m, j) == h * d + cc);
        assert(prod_range(s, m, j) == p * d);
        assert(h * d >= 0) by (nonlinear_arith)
            requires
                h >= 0,
                d >= 0,
        ;
        assert(p * d >= 0) by (nonlinear_arith)
            requires
                p >= 0,
                d >= 0,
        ;
        if p == 0 {
            assert(p * d == 0) by (nonlinear_arith)
                requires
                    p == 0,
            ;
        } else {
            assert(p >= 1);
            assert(h < p);
            assert(h * d + cc < p * d) by (nonlinear_arith)
                requires
                    h < p,
                    0 <= cc < d,
                    h >= 0,
                    p >= 1,
            ;
        }
    }
}

/// How a reduction reads its source, coordinate by coordinate: the output
/// cell at a coordinate of the reduced shape holds the sum over the folded
/// axis, and the term for each index `k` of that axis is exactly the
/// source cell at the coordinate with `k` spliced back in.
pub proof fn lemma_reduce_at_coord(
    shape: Seq<u64>,
    v: Seq<i64>,
    out_shape: Seq<u64>,
    out_values: Seq<i64>,
    axis: int,
    oc: Seq<u64>,
    k: u64,
)
    requires
        0 <= axis < shape.len(),
        out_shape == shape.remove(axis),
        valid_coord(oc, out_shape),
        k < shape[axis],
        v.len() == prod_of(shape, shape.len() as int),
        out_values.len() == prod_of(shape, axis) * suffix_prod(shape, axis + 1),
        // what `sum` ensures of the output cells
        forall|pre: int, s: int|
            0 <= pre < prod_of(shape, axis) && 0 <= s < suffix_prod(shape, axis + 1)
                ==> out_values[pre * suffix_prod(shape, axis + 1) + s] == #[trigger] axis_sum(
                v,
                shape[axis] as int,
                suffix_prod(shape, axis + 1),
                pre,
                s,
                shape[axis] as int,
            ),
    ensures
        ({
            let c = oc.insert(axis, k);
            let d = shape[axis] as int;
            let suf = suffix_prod(shape, axis + 1);
            let pre = offset_of(oc, out_shape, axis);
            let s = tail_offset(oc, out_shape, axis, out_shape.len() as int);
            &&& valid_coord(c, shape)
            &&& out_values[offset_of(oc, out_shape, out_shape.len() as int)] == axis_sum(
                v,
                d,
                suf,
                pre,
                s,
                d,
            )
            &&& offset_of(c, shape, shape.len() as int) == (pre * d + k) * suf + s
        }),
{
    let n = shape.len() as int;
    let c = oc.insert(axis, k);
    let d = shape[axis] as int;
    let suf = suffix_prod(shape, axis + 1);
    let pre = offset_of(oc, out_shape, axis);
    let s = tail_offset(oc, out_shape, axis, n - 1);

    assert(valid_coord(c, shape)) by {
        assert forall|t: int| 0 <= t < c.len() implies c[t] < shape[t] by {
            if t < axis {
                assert(c[t] == oc[t] && out_shape[t] == shape[t]);
            } else if t == axis {
            } else {
                assert(c[t] == oc[t - 1] && out_shape[t - 1] == shape[t]);
            }
        }
    }

    // the prefixes agree
    assert(c.subrange(0, axis) =~= oc.subrange(0, axis));
    assert(shape.subrange(0, axis) =~= out_shape.subrange(0, axis));
    lemma_prefix_offset_eq(c, shape, oc, out_shape, axis);
    assert(offset_of(c, shape, axis) == pre);

    // the source offset splits after the folded axis
    lemma_horner_split(c, shape, axis + 1, n);
    lemma_prod_range_suffix(shape, axis + 1);
    assert(offset_of(c, shape, axis + 1) == pre * d + k);
    // the tails agree
    assert(c.subrange(axis + 1, n) =~= oc.subrange(axis, n - 1));
    assert(shape.subrange(axis + 1, n) =~= out_shape.subrange(axis, n - 1));
    lemma_tail_window_eq(c, shape, axis + 1, oc, out_shape, axis, n - 1 - axis);
    assert(tail_offset(c, shape, axis + 1, n) == s);
    assert(offset_of(c, shape, n) == (pre * d + k) * suf + s);

    // the output offset splits at the same place
    lemma_horner_split(oc, out_shape, axis, n - 1);
    lemma_prod_range_suffix(out_shape, axis);
    assert(suffix_prod(out_shape, axis) == suf) by {
        lemma_prod_range_suffix(out_shape, axis);
        lemma_prod_range_suffix(shape, axis + 1);
    }
    assert(offset_of(oc, out_shape, n - 1) == pre * suf + s);

    // the output cell holds the axis sum
    lemma_offset_bound(oc, out_shape, axis);
    lemma_prod_pos_coord(out_shape, n - 1, oc);
    assert(prod_of(out_shape, axis) >= 1) by {
        lemma_prod_monotone_gen(out_shape, axis, n - 1);
    }
    assert(prod_of(out_shape, axis) == prod_of(shape, axis)) by {
        lemma_prefix_prod_eq(out_shape, shape, axis);
    }
    assert(0 <= pre < prod_of(shape, axis));
    lemma_tail_bound(oc, out_shape, axis, n - 1);
    assert(prod_range(out_shape, axis, n - 1) == suf);
    assert(suf >= 1) by {
        if suf == 0 {
            assert(prod_range(out_shape, axis, n - 1) == 0);
        }
        lemma_tail_window_bound(oc, out_shape, axis, n - 1);
    }
    assert(0 <= s < suf);
    assert(out_values[pre * suf + s] == axis_sum(v, d, suf, pre, s, d));
}

/// A valid window has a positive window product.
proof fn lemma_tail_window_bound(c: Seq<u64>, shp: Seq<u64>, m: int, j: int)
    requires
        0 <= m <= j,
        forall|t: int| m <= t < j ==> c[t] < shp[t],
    ensures
        prod_range(shp, m, j) >= 1,
    decreases j - m,
{
    if j > m {
        lemma_tail_window_bound(c, shp, m, j - 1);
        let p = prod_range(shp, m, j - 1);
        let d = shp[j - 1] as int;
        assert(d >= 1);
        assert(p * d >= 1) by (nonlinear_arith)
            requires
                p >= 1,
                d >= 1,
        ;
    }
}

/// All axes positive keeps the prefix product at least one up to any point.
proof fn lemma_prod_monotone_gen(shp: Seq<u64>, a: int, n: int)
    requires
        0 <= a <= n <= shp.len(),
        forall|t: int| 0 <= t < n ==> shp[t] >= 1,
    ensures
        prod_of(shp, a) >= 1,
    decreases a,
{
    if a > 0 {
        lemma_prod_monotone_gen(shp, a - 1, n);
        let p = prod_of(shp, a - 1);
        let d = shp[a - 1] as int;
        assert(p * d >= 1) by (nonlinear_arith)
            requires
                p >= 1,
                d >= 1,
        ;
    }
}

/// Equal prefixes have equal prefix products.
proof fn lemma_prefix_prod_eq(s1: Seq<u64>, s2: Seq<u64>, m: int)
    requires
        0 <= m,
        forall|t: int| 0 <= t < m ==> s1[t] == s2[t],
    ensures
        prod_of(s1, m) == prod_of(s2, m),
    decreases m,
{
    if m > 0 {
        lemma_prefix_prod_eq(s1, s2, m - 1);
    }
}


/// Whether the cell at offset `t` lies inside the region `bounds`
/// selects: each axis's index, read off the offset, must satisfy that
/// axis's selection.
pub open spec fn offset_selected(
    bounds: Seq<crate::transform::AxisBoundsView>,
    shape: Seq<u64>,
    t: int,
) -> bool {
    forall|k: int| 0 <= k < shape.len() ==> crate::transform::axis_selects(
        #[trigger] bounds[k],
        ((t / suffix_prod(shape, k + 1)) % (shape[k] as int)) as u64,
    )
}

/// Each axis of a valid coordinate is recovered from its row-major
/// offset by dividing out the finer axes and reducing by the extent.
pub proof fn lemma_offset_extract(coord: Seq<u64>, shape: Seq<u64>, k: int)
    requires
        coord.len() == shape.len(),
        forall|j: int| 0 <= j < coord.len() ==> coord[j] < shape[j],
        0 <= k < shape.len(),
    ensures
        (offset_of(coord, shape, shape.len() as int) / suffix_prod(shape, k + 1)) % (
        shape[k] as int) == coord[k],
{
    let n = shape.len() as int;
    let h = offset_of(coord, shape, n);
    let suf = suffix_prod(shape, k + 1);
    lemma_horner_split(coord, shape, k + 1, n);
    lemma_prod_range_suffix(shape, k + 1);
    let tl = tail_offset(coord, shape, k + 1, n);
    lemma_tail_bound(coord, shape, k + 1, n);
    assert(prod_range(shape, k + 1, n) == suf);
    assert(h == offset_of(coord, shape, k + 1) * suf + tl);
    lemma_tail_window_pos(coord, shape, k + 1, n);
    assert(suf >= 1);
    assert(0 <= tl < suf);
    lemma_offset_bound(coord, shape, k + 1);
    vstd::arithmetic::div_mod::lemma_fundamental_div_mod_converse(
        h,
        suf,
        offset_of(coord, shape, k + 1),
        tl,
    );
    assert(h / suf == offset_of(coord, shape, k + 1));
    let q = offset_of(coord, shape, k);
    let d = shape[k] as int;
    let c = coord[k] as int;
    assert(offset_of(coord, shape, k + 1) == q * d + c);
    lemma_offset_bound(coord, shape, k);
    assert(d >= 1);
    vstd::arithmetic::div_mod::lemma_fundamental_div_mod_converse(q * d + c, d, q, c);
    assert((q * d + c) % d == c);
}

/// A valid window has a positive window product.
proof fn lemma_tail_window_pos(c: Seq<u64>, shp: Seq<u64>, m: int, j: int)
    requires
        0 <= m <= j <= shp.len(),
        c.len() == shp.len(),
        forall|t: int| 0 <= t < c.len() ==> c[t] < shp[t],
    ensures
        prod_range(shp, m, j) >= 1,
    decreases j - m,
{
    if j > m {
        lemma_tail_window_pos(c, shp, m, j - 1);
        let p = prod_range(shp, m, j - 1);
        let d = shp[j - 1] as int;
        assert(c[j - 1] < shp[j - 1]);
        assert(d >= 1);
        assert(p * d >= 1) by (nonlinear_arith)
            requires
                p >= 1,
                d >= 1,
        ;
    }
}

/// The first entry of `entries` at coordinate `c`, if one exists.
pub open spec fn sparse_at(entries: Seq<(Coord, i64)>, c: Seq<u64>) -> Option<i64>
    decreases entries.len(),
{
    if entries.len() == 0 {
        None
    } else if entries[0].0@ == c {
        Some(entries[0].1)
    } else {
        sparse_at(entries.skip(1), c)
    }
}

/// The sum of the stored values.
pub open spec fn sum_entries(entries: Seq<(Coord, i64)>) -> int
    decreases entries.len(),
{
    if entries.len() == 0 {
        0
    } else {
        sum_entries(entries.drop_last()) + entries.last().1
    }
}

/// The stored entries as contracts see them: each coordinate with its
/// value, in storage order.
pub open spec fn sparse_view(entries: Seq<(Coord, i64)>) -> Seq<(Seq<u64>, i64)> {
    Seq::new(entries.len(), |i: int| (entries[i].0@, entries[i].1))
}

/// The position of the entry at coordinate `c`, if one is stored.
pub open spec fn sview_index(vs: Seq<(Seq<u64>, i64)>, c: Seq<u64>) -> Option<int>
    decreases vs.len(),
{
    if vs.len() == 0 {
        None
    } else if vs[0].0 == c {
        Some(0)
    } else {
        match sview_index(vs.skip(1), c) {
            Some(i) => Some(i + 1),
            None => None,
        }
    }
}

/// The list with the entry at coordinate `c` dropped, if one is stored.
pub open spec fn sview_remove(vs: Seq<(Seq<u64>, i64)>, c: Seq<u64>) -> Seq<(Seq<u64>, i64)> {
    match sview_index(vs, c) {
        Some(i) => if 0 <= i < vs.len() {
            vs.remove(i)
        } else {
            vs
        },
        None => vs,
    }
}

/// The sum of the listed values.
pub open spec fn sum_view(vs: Seq<(Seq<u64>, i64)>) -> int
    decreases vs.len(),
{
    if vs.len() == 0 {
        0
    } else {
        sum_view(vs.drop_last()) + vs.last().1
    }
}

/// Both renderings of the stored entries add the same values.
pub proof fn lemma_sum_view_eq(entries: Seq<(Coord, i64)>)
    ensures
        sum_view(sparse_view(entries)) == sum_entries(entries),
    decreases entries.len(),
{
    if entries.len() > 0 {
        assert(sparse_view(entries).drop_last() =~= sparse_view(entries.drop_last()));
        lemma_sum_view_eq(entries.drop_last());
    }
}

/// A sparse tensor: the coordinates that hold a value, every other cell
/// being zero, each of the tensor's number class.
pub struct SparseTensor {
    shape: Shape,
    dtype: NumberType,
    entries: Vec<(Coord, i64)>,
}

impl SparseTensor {
    pub closed spec fn spec_shape(&self) -> Seq<u64> {
        self.shape@
    }

    /// The class of this tensor's cells.
    pub closed spec fn spec_dtype(&self) -> NumberType {
        self.dtype
    }

    pub fn dtype(&self) -> (r: NumberType)
        ensures
            r == self.spec_dtype(),
    {
        self.dtype
    }

    pub closed spec fn spec_entries(&self) -> Seq<(Coord, i64)> {
        self.entries@
    }

    /// The value a coordinate names: the stored value, or zero.
    pub open spec fn spec_at(&self, c: Seq<u64>) -> i64 {
        match sparse_at(self.spec_entries(), c) {
            Some(v) => v,
            None => 0i64,
        }
    }

    /// Every stored coordinate is valid and distinct, and no stored value
    /// is zero.
    pub closed spec fn wf(&self) -> bool {
        &&& forall|i: int| 0 <= i < self.entries@.len() ==> valid_coord(
            (#[trigger] self.entries@[i]).0@,
            self.shape@,
        )
        &&& forall|i: int| 0 <= i < self.entries@.len() ==> (#[trigger] self.entries@[i]).1
            != 0
        &&& forall|i: int, j: int| 0 <= i < j < self.entries@.len() ==> (
        #[trigger] self.entries@[i]).0@ != (#[trigger] self.entries@[j]).0@
    }

    /// An empty sparse tensor of `shape`, in the widest signed cell class.
    pub fn new(shape: Shape) -> (r: SparseTensor)
        ensures
            r.wf(),
            r.spec_shape() == shape@,
            r.spec_dtype() == NumberType::Int(IntType::I64),
            r.spec_entries().len() == 0,
            forall|c: Seq<u64>| r.spec_at(c) == 0,
    {
        SparseTensor { shape, dtype: NumberType::Int(IntType::I64), entries: Vec::new() }
    }

    pub fn shape(&self) -> (r: &Shape)
        ensures
            r@ == self.spec_shape(),
    {
        &self.shape
    }

    /// The stored value at `coord`, or zero; a coordinate outside the
    /// tensor is rejected.
    pub fn read_value(&self, coord: &Coord) -> (r: Result<i64, TCError>)
        requires
            self.wf(),
        ensures
            r.is_ok() <==> valid_coord(coord@, self.spec_shape()),
            r matches Ok(v) ==> v == self.spec_at(coord@),
            r.is_err() ==> r->Err_0.spec_kind() == crate::error::ErrorKind::BadRequest,
    {
        if !self.coord_valid(coord) {
            return Err(bad_request("the coordinate lies outside the tensor".to_owned()));
        }
        match self.position(coord) {
            Some(i) => Ok(self.entries[i].1),
            None => Ok(0),
        }
    }

    /// Store `value` at `coord`: a zero write deletes the entry, any other
    /// write inserts or replaces it. Every other cell keeps its value.
    pub fn write_value(&mut self, coord: &Coord, value: i64) -> (r: Result<(), TCError>)
        requires
            old(self).wf(),
        ensures
            final(self).wf(),
            final(self).spec_shape() == old(self).spec_shape(),
            r.is_ok() <==> valid_coord(coord@, old(self).spec_shape()),
            r.is_err() ==> *final(self) == *old(self) && r->Err_0.spec_kind()
                == crate::error::ErrorKind::BadRequest,
            r.is_ok() ==> {
                &&& final(self).spec_at(coord@) == value
                &&& forall|c: Seq<u64>| c != coord@ ==> final(self).spec_at(c) == old(
                    self,
                ).spec_at(c)
                &&& (value != 0 ==> sparse_view(final(self).spec_entries()) == sview_remove(
                    sparse_view(old(self).spec_entries()),
                    coord@,
                ).push((coord@, value)))
                &&& (value == 0 ==> sparse_view(final(self).spec_entries()) == sview_remove(
                    sparse_view(old(self).spec_entries()),
                    coord@,
                ))
            },
    {
        if !self.coord_valid(coord) {
            return Err(bad_request("the coordinate lies outside the tensor".to_owned()));
        }
        let ghost orig = self.entries@;
        match self.position(coord) {
            Some(i) => {
                let removed = self.entries.remove(i);
                proof {
                    lemma_sparse_remove(orig, self.entries@, i as int, coord@);
                    assert(sparse_view(self.entries@) =~= sparse_view(orig).remove(i as int));
                    assert(sparse_view(self.entries@) == sview_remove(
                        sparse_view(orig),
                        coord@,
                    ));
                }
            },
            None => {
                proof {
                    assert(sparse_view(self.entries@) == sview_remove(
                        sparse_view(orig),
                        coord@,
                    ));
                }
            },
        }
        let ghost pruned = self.entries@;
        if value != 0 {
            let c2 = clone_coord(coord);
            self.entries.push((c2, value));
            proof {
                lemma_sparse_push(pruned, self.entries@, coord@);
                assert forall|i: int| 0 <= i < self.entries@.len() implies valid_coord(
                    (#[trigger] self.entries@[i]).0@,
                    self.shape@,
                ) by {
                    if i < pruned.len() {
                        assert(self.entries@[i] == pruned[i]);
                    }
                }
                assert(sparse_view(self.entries@) =~= sparse_view(pruned).push((coord@, value)));
            }
        }
        Ok(())
    }

    /// The sum of every cell of the tensor: only the stored values
    /// contribute.
    pub fn sum_all(&self) -> (r: i128)
        ensures
            r == sum_entries(self.spec_entries()),
            r == sum_view(sparse_view(self.spec_entries())),
    {
        proof {
            lemma_sum_view_eq(self.spec_entries());
        }
        let n = self.entries.len();
        let mut acc: i128 = 0;
        for i in 0..n
            invariant
                n == self.spec_entries().len(),
                acc == sum_entries(self.spec_entries().take(i as int)),
                -(i as int) * (i64::MAX as int + 1) <= acc <= (i as int) * (i64::MAX as int),
        {
            proof {
                assert(self.spec_entries().take(i as int + 1).drop_last() =~= self.spec_entries(
                ).take(i as int));
                assert(self.spec_entries().take(i as int + 1).last() == self.spec_entries()[
                    i as int]);
                assert((i as int) * (i64::MAX as int) + (i64::MAX as int) == (i as int + 1) * (
                i64::MAX as int)) by (nonlinear_arith);
                assert(-(i as int) * (i64::MAX as int + 1) - (i64::MAX as int + 1) == -(
                i as int + 1) * (i64::MAX as int + 1)) by (nonlinear_arith);
                assert((i as int + 1) * (i64::MAX as int) <= (u64::MAX as int) * (
                i64::MAX as int)) by (nonlinear_arith)
                    requires
                        0 <= i as int + 1 <= u64::MAX as int,
                ;
                assert(-(i as int + 1) * (i64::MAX as int + 1) >= -(u64::MAX as int) * (
                i64::MAX as int + 1)) by (nonlinear_arith)
                    requires
                        0 <= i as int + 1 <= u64::MAX as int,
                ;
            }
            acc = acc + (self.entries[i].1 as i128);
        }
        proof {
            assert(self.spec_entries().take(n as int) =~= self.spec_entries());
        }
        acc
    }

    /// The same tensor as a dense tensor: the stored values scattered into
    /// a zero-filled layout, so both tensors map every coordinate to the
    /// same value.
    pub fn to_dense(&self) -> (r: Result<DenseTensor, TCError>)
        requires
            self.wf(),
        ensures
            r.is_ok() <==> prod_of(self.spec_shape(), self.spec_shape().len() as int)
                <= usize::MAX,
            r.is_err() ==> r->Err_0.spec_kind() == crate::error::ErrorKind::BadRequest,
            r matches Ok(t) ==> {
                &&& t.wf()
                &&& t.spec_shape() == self.spec_shape()
                &&& forall|c: Seq<u64>| valid_coord(c, self.spec_shape())
                    ==> t.spec_at(c) == self.spec_at(c)
            },
    {
        let shape2 = self.shape.clone();
        let mut dense = match DenseTensor::constant(shape2, 0) {
            Ok(t) => t,
            Err(e) => {
                return Err(e);
            },
        };
        let ghost shp = self.spec_shape();
        let ghost n = shp.len() as int;
        let ghost es = self.spec_entries();
        let m = self.entries.len();
        proof {
            assert(vstd::std_specs::vec::spec_vec_len(&self.entries) == es.len());
        }
        for i in 0..m
            invariant
                m == es.len(),
                es == self.spec_entries(),
                self.wf(),
                shp == self.spec_shape(),
                n == shp.len(),
                dense.wf(),
                dense.spec_shape() == shp,
                dense.spec_values().len() <= usize::MAX,
                forall|j: int| 0 <= j < i ==> dense.spec_values()[offset_of(
                    (#[trigger] es[j]).0@,
                    shp,
                    n,
                )] == es[j].1,
                forall|t: int| 0 <= t < dense.spec_values().len() && (forall|j: int|
                    0 <= j < i ==> offset_of((#[trigger] es[j]).0@, shp, n) != t)
                    ==> dense.spec_values()[t] == 0,
        {
            let coord = &self.entries[i].0;
            let value = self.entries[i].1;
            let ghost before = dense.spec_values();
            let res = dense.write_value_at(coord, value);
            proof {
                assert(valid_coord(es[i as int].0@, shp));
                assert(res.is_ok());
                let offi = offset_of(es[i as int].0@, shp, n);
                lemma_offset_bound(es[i as int].0@, shp, n);
                assert(dense.spec_values() == before.update(offi, value));
                lemma_prod_pos_coord(shp, n, es[i as int].0@);
                assert forall|j: int| 0 <= j < i + 1 implies dense.spec_values()[offset_of(
                    (#[trigger] es[j]).0@,
                    shp,
                    n,
                )] == es[j].1 by {
                    if j < i {
                        let offj = offset_of(es[j].0@, shp, n);
                        lemma_offset_bound(es[j].0@, shp, n);
                        lemma_prod_pos_coord(shp, n, es[j].0@);
                        if offj == offi {
                            lemma_offset_injective(es[j].0@, es[i as int].0@, shp, n);
                            assert(es[j].0@ =~= es[i as int].0@);
                        } else {
                            assert(dense.spec_values()[offj] == before[offj]);
                        }
                    } else {
                        assert(dense.spec_values()[offi] == value);
                    }
                }
            }
        }
        proof {
            assert forall|c: Seq<u64>| valid_coord(c, shp) implies dense.spec_at(c)
                == self.spec_at(c) by {
                lemma_offset_bound(c, shp, n);
                lemma_sparse_lookup(es, c, shp, n, dense.spec_values(), m as int);
            }
        }
        Ok(dense)
    }

    /// Whether `coord` is a valid index into this tensor.
    fn coord_valid(&self, coord: &Coord) -> (r: bool)
        ensures
            r == valid_coord(coord@, self.spec_shape()),
    {
        let n = self.shape.len();
        if coord.len() != n {
            return false;
        }
        for k in 0..n
            invariant
                n == self.spec_shape().len() == coord@.len(),
                forall|j: int| 0 <= j < k ==> coord@[j] < self.spec_shape()[j],
        {
            if coord[k] >= self.shape.dim(k) {
                return false;
            }
        }
        true
    }

    /// The position of the entry at `coord`, if one is stored.
    fn position(&self, coord: &Coord) -> (r: Option<usize>)
        ensures
            r is Some <==> sparse_at(self.spec_entries(), coord@) is Some,
            r matches Some(i) ==> {
                &&& i < self.spec_entries().len()
                &&& self.spec_entries()[i as int].0@ == coord@
                &&& Some(self.spec_entries()[i as int].1) == sparse_at(
                    self.spec_entries(),
                    coord@,
                )
                &&& sview_index(sparse_view(self.spec_entries()), coord@) == Some(i as int)
            },
            r is None ==> sview_index(sparse_view(self.spec_entries()), coord@) is None,
    {
        let n = self.entries.len();
        proof {
            assert(self.spec_entries().skip(0) =~= self.spec_entries());
        }
        for i in 0..n
            invariant
                n == self.spec_entries().len(),
                sparse_at(self.spec_entries(), coord@) == sparse_at(
                    self.spec_entries().skip(i as int),
                    coord@,
                ),
                forall|j: int| 0 <= j < i ==> (#[trigger] self.spec_entries()[j].0@) != coord@,
        {
            proof {
                assert(self.spec_entries().skip(i as int)[0] == self.spec_entries()[i as int]);
                assert(self.spec_entries().skip(i as int).skip(1) =~= self.spec_entries().skip(
                    i as int + 1,
                ));
            }
            if coords_eq(&self.entries[i].0, coord) {
                proof {
                    lemma_sview_index_at(self.spec_entries(), i as int, coord@);
                }
                return Some(i);
            }
        }
        proof {
            assert(self.spec_entries().skip(n as int) =~= Seq::<(Coord, i64)>::empty());
            lemma_sview_index_absent(self.spec_entries(), coord@);
        }
        None
    }
}

/// Whether two coordinates are the same index.
fn coords_eq(a: &Coord, b: &Coord) -> (r: bool)
    ensures
        r == (a@ == b@),
{
    if a.len() != b.len() {
        return false;
    }
    let n = a.len();
    for i in 0..n
        invariant
            n == a@.len() == b@.len(),
            forall|j: int| 0 <= j < i ==> a@[j] == b@[j],
    {
        if a[i] != b[i] {
            return false;
        }
    }
    proof {
        assert(a@ =~= b@);
    }
    true
}

/// A copy of a coordinate.
fn clone_coord(c: &Coord) -> (r: Coord)
    ensures
        r@ == c@,
{
    let n = c.len();
    let mut out: Vec<u64> = Vec::new();
    for i in 0..n
        invariant
            n == c@.len(),
            out@.len() == i,
            forall|j: int| 0 <= j < i ==> out@[j] == c@[j],
    {
        out.push(c[i]);
    }
    proof {
        assert(out@ =~= c@);
    }
    out
}

/// A first match (nothing matching before it) is the stored position.
proof fn lemma_sview_index_at(es: Seq<(Coord, i64)>, i: int, c: Seq<u64>)
    requires
        0 <= i < es.len(),
        es[i].0@ == c,
        forall|j: int| 0 <= j < i ==> (#[trigger] es[j].0@) != c,
    ensures
        sview_index(sparse_view(es), c) == Some(i),
    decreases es.len(),
{
    if i > 0 {
        assert(sparse_view(es).skip(1) =~= sparse_view(es.skip(1)));
        assert(es.skip(1)[i - 1] == es[i]);
        assert(forall|j: int| 0 <= j < i - 1 ==> #[trigger] es.skip(1)[j] == es[j + 1]);
        lemma_sview_index_at(es.skip(1), i - 1, c);
    }
}

/// No match anywhere leaves the position lookup empty.
proof fn lemma_sview_index_absent(es: Seq<(Coord, i64)>, c: Seq<u64>)
    requires
        forall|j: int| 0 <= j < es.len() ==> (#[trigger] es[j].0@) != c,
    ensures
        sview_index(sparse_view(es), c) is None,
    decreases es.len(),
{
    if es.len() > 0 {
        assert(sparse_view(es).skip(1) =~= sparse_view(es.skip(1)));
        assert(forall|j: int| 0 <= j < es.skip(1).len() ==> #[trigger] es.skip(1)[j]
            == es[j + 1]);
        lemma_sview_index_absent(es.skip(1), c);
    }
}

/// Removing the entry at a coordinate leaves no entry there (coordinates
/// being unique) and keeps every other lookup.
proof fn lemma_sparse_remove(
    orig: Seq<(Coord, i64)>,
    cur: Seq<(Coord, i64)>,
    i: int,
    c: Seq<u64>,
)
    requires
        0 <= i < orig.len(),
        cur == orig.remove(i),
        orig[i].0@ == c,
        forall|a: int, b: int| 0 <= a < b < orig.len() ==> (#[trigger] orig[a].0@) != (
        #[trigger] orig[b].0@),
    ensures
        sparse_at(cur, c) is None,
        forall|k: Seq<u64>| k != c ==> sparse_at(cur, k) == sparse_at(orig, k),
        forall|a: int, b: int| 0 <= a < b < cur.len() ==> (#[trigger] cur[a].0@) != (
        #[trigger] cur[b].0@),
        forall|a: int| 0 <= a < cur.len() ==> ((#[trigger] cur[a]) == orig[a] || cur[a] == orig[
            a + 1]),
    decreases orig.len(),
{
    assert forall|a: int, b: int| 0 <= a < b < cur.len() implies (#[trigger] cur[a].0@) != (
    #[trigger] cur[b].0@) by {
        let a2: int = if a < i { a } else { a + 1 };
        let b2: int = if b < i { b } else { b + 1 };
        assert(cur[a] == orig[a2]);
        assert(cur[b] == orig[b2]);
    }
    assert forall|a: int| 0 <= a < cur.len() implies (#[trigger] cur[a].0@) != c by {
        if a < i {
            assert(cur[a] == orig[a]);
        } else {
            assert(cur[a] == orig[a + 1]);
        }
    }
    lemma_sparse_none(cur, c);
    assert forall|k: Seq<u64>| k != c implies sparse_at(cur, k) == sparse_at(orig, k) by {
        lemma_sparse_remove_keeps(orig, cur, i, c, k);
    }
    assert forall|a: int| 0 <= a < cur.len() implies ((#[trigger] cur[a]) == orig[a] || cur[a]
        == orig[a + 1]) by {}
}

/// A lookup misses when no entry carries the coordinate.
proof fn lemma_sparse_none(entries: Seq<(Coord, i64)>, c: Seq<u64>)
    requires
        forall|a: int| 0 <= a < entries.len() ==> (#[trigger] entries[a].0@) != c,
    ensures
        sparse_at(entries, c) is None,
    decreases entries.len(),
{
    if entries.len() > 0 {
        assert(forall|a: int| 0 <= a < entries.skip(1).len() ==> #[trigger] entries.skip(1)[a]
            == entries[a + 1]);
        lemma_sparse_none(entries.skip(1), c);
    }
}

/// Removing one entry keeps the lookup of every other coordinate.
proof fn lemma_sparse_remove_keeps(
    orig: Seq<(Coord, i64)>,
    cur: Seq<(Coord, i64)>,
    i: int,
    c: Seq<u64>,
    k: Seq<u64>,
)
    requires
        0 <= i < orig.len(),
        cur == orig.remove(i),
        orig[i].0@ == c,
        k != c,
    ensures
        sparse_at(cur, k) == sparse_at(orig, k),
    decreases orig.len(),
{
    if i == 0 {
        assert(cur =~= orig.skip(1));
        assert(sparse_at(orig, k) == sparse_at(orig.skip(1), k));
    } else {
        assert(cur[0] == orig[0]);
        assert(cur.skip(1) =~= orig.skip(1).remove(i - 1));
        assert(orig.skip(1)[i - 1] == orig[i]);
        lemma_sparse_remove_keeps(orig.skip(1), cur.skip(1), i - 1, c, k);
        if cur[0].0@ != k {
            assert(sparse_at(cur, k) == sparse_at(cur.skip(1), k));
            assert(sparse_at(orig, k) == sparse_at(orig.skip(1), k));
        }
    }
}

/// Appending an entry for a coordinate that had none makes its lookup find
/// it and keeps every other lookup.
proof fn lemma_sparse_push(pruned: Seq<(Coord, i64)>, cur: Seq<(Coord, i64)>, c: Seq<u64>)
    requires
        sparse_at(pruned, c) is None,
        cur.len() == pruned.len() + 1,
        forall|j: int| 0 <= j < pruned.len() ==> cur[j] == pruned[j],
        cur.last().0@ == c,
        forall|a: int, b: int| 0 <= a < b < pruned.len() ==> (#[trigger] pruned[a].0@) != (
        #[trigger] pruned[b].0@),
    ensures
        sparse_at(cur, c) == Some(cur.last().1),
        forall|k: Seq<u64>| k != c ==> sparse_at(cur, k) == sparse_at(pruned, k),
        forall|a: int, b: int| 0 <= a < b < cur.len() ==> (#[trigger] cur[a].0@) != (
        #[trigger] cur[b].0@),
    decreases pruned.len(),
{
    assert forall|a: int| 0 <= a < pruned.len() implies (#[trigger] pruned[a].0@) != c by {
        if pruned[a].0@ == c {
            lemma_sparse_found(pruned, a, c);
        }
    }
    assert forall|a: int, b: int| 0 <= a < b < cur.len() implies (#[trigger] cur[a].0@) != (
    #[trigger] cur[b].0@) by {
        if b < pruned.len() {
            assert(cur[a] == pruned[a] && cur[b] == pruned[b]);
        } else {
            assert(cur[a] == pruned[a]);
            assert(cur[b].0@ == c);
        }
    }
    lemma_sparse_push_rec(pruned, cur, c);
}

proof fn lemma_sparse_push_rec(pruned: Seq<(Coord, i64)>, cur: Seq<(Coord, i64)>, c: Seq<u64>)
    requires
        sparse_at(pruned, c) is None,
        cur.len() == pruned.len() + 1,
        forall|j: int| 0 <= j < pruned.len() ==> cur[j] == pruned[j],
        cur.last().0@ == c,
    ensures
        sparse_at(cur, c) == Some(cur.last().1),
        forall|k: Seq<u64>| k != c ==> sparse_at(cur, k) == sparse_at(pruned, k),
    decreases pruned.len(),
{
    if pruned.len() == 0 {
        assert(cur[0] == cur.last());
        assert(cur.skip(1) =~= Seq::<(Coord, i64)>::empty());
        assert forall|k: Seq<u64>| k != c implies sparse_at(cur, k) == sparse_at(pruned, k) by {
            assert(sparse_at(cur, k) == sparse_at(cur.skip(1), k));
        }
    } else {
        assert(cur[0] == pruned[0]);
        assert(cur.skip(1) =~= pruned.skip(1).push(cur.last()));
        assert(cur.skip(1).last() == cur.last());
        assert(forall|j: int| 0 <= j < pruned.skip(1).len() ==> #[trigger] cur.skip(1)[j]
            == pruned.skip(1)[j]);
        assert(sparse_at(pruned, c) == sparse_at(pruned.skip(1), c));
        lemma_sparse_push_rec(pruned.skip(1), cur.skip(1), c);
        assert forall|k: Seq<u64>| k != c implies sparse_at(cur, k) == sparse_at(pruned, k) by {
            if cur[0].0@ != k {
                assert(sparse_at(cur, k) == sparse_at(cur.skip(1), k));
                assert(sparse_at(pruned, k) == sparse_at(pruned.skip(1), k));
            }
        }
    }
}

/// A matching entry makes the lookup find something.
proof fn lemma_sparse_found(entries: Seq<(Coord, i64)>, j: int, c: Seq<u64>)
    requires
        0 <= j < entries.len(),
        entries[j].0@ == c,
    ensures
        sparse_at(entries, c) is Some,
    decreases entries.len(),
{
    if entries[0].0@ != c {
        assert(entries.skip(1)[j - 1] == entries[j]);
        lemma_sparse_found(entries.skip(1), j - 1, c);
    }
}

/// The scattered dense layout agrees with the sparse lookup at every valid
/// coordinate: the stored value where an entry names the coordinate, and
/// zero elsewhere.
proof fn lemma_sparse_lookup(
    es: Seq<(Coord, i64)>,
    c: Seq<u64>,
    shp: Seq<u64>,
    n: int,
    values: Seq<i64>,
    m: int,
)
    requires
        n == shp.len(),
        m == es.len(),
        valid_coord(c, shp),
        forall|i: int| 0 <= i < m ==> valid_coord((#[trigger] es[i]).0@, shp),
        forall|a: int, b: int| 0 <= a < b < m ==> (#[trigger] es[a].0@) != (#[trigger] es[b].0@),
        values.len() == prod_of(shp, n),
        forall|j: int| 0 <= j < m ==> values[offset_of((#[trigger] es[j]).0@, shp, n)] == es[
            j].1,
        forall|t: int| 0 <= t < values.len() && (forall|j: int| 0 <= j < m ==> offset_of(
            (#[trigger] es[j]).0@,
            shp,
            n,
        ) != t) ==> values[t] == 0,
    ensures
        values[offset_of(c, shp, n)] == (match sparse_at(es, c) {
            Some(v) => v,
            None => 0i64,
        }),
{
    let off = offset_of(c, shp, n);
    lemma_offset_bound(c, shp, n);
    lemma_prod_pos_coord(shp, n, c);
    match sparse_at(es, c) {
        Some(v) => {
            lemma_sparse_index(es, c);
            let j = choose|j: int| 0 <= j < m && es[j].0@ == c && es[j].1 == sparse_at(es, c)->0;
            assert(values[offset_of(es[j].0@, shp, n)] == es[j].1);
        },
        None => {
            assert forall|j: int| 0 <= j < m implies offset_of((#[trigger] es[j]).0@, shp, n)
                != off by {
                if offset_of(es[j].0@, shp, n) == off {
                    lemma_offset_injective(es[j].0@, c, shp, n);
                    assert(es[j].0@ =~= c);
                    lemma_sparse_found(es, j, c);
                }
            }
        },
    }
}

/// A found lookup names a matching entry.
proof fn lemma_sparse_index(es: Seq<(Coord, i64)>, c: Seq<u64>)
    requires
        sparse_at(es, c) is Some,
    ensures
        exists|j: int| 0 <= j < es.len() && (#[trigger] es[j].0@) == c && es[j].1 == sparse_at(
            es,
            c,
        )->0,
    decreases es.len(),
{
    if es[0].0@ == c {
        assert(es[0].0@ == c && es[0].1 == sparse_at(es, c)->0);
    } else {
        lemma_sparse_index(es.skip(1), c);
        let j = choose|j: int|
            0 <= j < es.skip(1).len() && (#[trigger] es.skip(1)[j].0@) == c && es.skip(1)[j].1
                == sparse_at(es.skip(1), c)->0;
        assert(es[j + 1].0@ == c && es[j + 1].1 == sparse_at(es, c)->0);
    }
}

/// A shape that admits a valid coordinate has a positive cell count.
proof fn lemma_prod_pos_coord(shp: Seq<u64>, n: int, c: Seq<u64>)
    requires
        n == shp.len(),
        valid_coord(c, shp),
    ensures
        prod_of(shp, n) >= 1,
{
    assert forall|k: int| 0 <= k < n implies shp[k] > 0 by {
        assert(c[k] < shp[k]);
    }
    lemma_prod_nonneg(shp, n);
}

} // verus!
