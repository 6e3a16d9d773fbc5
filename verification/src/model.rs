//! The mathematical model of a tensor, and what the view operations do to it.

use vstd::prelude::*;
use crate::layout::{
    all_positive, contiguous, element_count, last_offset, lemma_contiguous_extent,
    lemma_contiguous_is_row_major, lemma_element_count_positive, lemma_extent_nonnegative,
    lemma_extent_skip_one, lemma_offset_within_extent, lemma_suffix_product_skip, offset_of,
    representable, row_major, suffix_product, unravel, valid_index,
};
use crate::permutation::{
    is_permutation, lemma_last_offset_permuted, lemma_product_permuted, permuted,
};

verus! {

/// What a tensor is, mathematically: the elements of its buffer, who owns
/// them, and the shape, strides and label through which they are seen.
#[verifier::ext_equal]
pub struct TensorModel<T> {
    pub data: Seq<T>,
    pub owned: bool,
    pub shape: Seq<usize>,
    pub strides: Seq<usize>,
    pub name: Option<Seq<char>>,
}

impl<T> TensorModel<T> {
    /// The tensor that the validating constructor makes of a buffer and a
    /// shape: row-major strides and no label.
    pub open spec fn fresh(data: Seq<T>, owned: bool, shape: Seq<usize>) -> Self {
        TensorModel { data, owned, shape, strides: row_major(shape), name: None }
    }

    /// The number of dimensions.
    pub open spec fn rank(self) -> nat {
        self.shape.len()
    }

    /// The number of logical elements: the product of the extents.
    pub open spec fn len(self) -> nat {
        element_count(self.shape)
    }

    /// Whether the strides are the row-major strides of the shape.
    pub open spec fn is_contiguous(self) -> bool {
        contiguous(self.shape, self.strides)
    }

    /// There is one stride for each dimension.
    pub open spec fn strides_match(self) -> bool {
        self.strides.len() == self.shape.len()
    }

    /// What every operation that reads elements asks of a tensor: one stride
    /// per dimension, a countable number of elements, and no valid index that
    /// addresses past the buffer.
    ///
    /// Every constructor gives it and every view keeps it, with one
    /// exception: transposing by a list that names an axis twice may give a
    /// tensor whose indices reach past the buffer.
    pub open spec fn wf(self) -> bool {
        &&& self.strides_match()
        &&& self.len() <= usize::MAX
        &&& self.len() > 0 ==> last_offset(self.shape, self.strides) < self.data.len()
    }

    /// The buffer offset of the element at `index`.
    pub open spec fn offset(self, index: Seq<usize>) -> int {
        offset_of(index, self.strides)
    }

    /// The element at `index`.
    pub open spec fn element(self, index: Seq<usize>) -> T {
        self.data[self.offset(index)]
    }

    /// Where the chunk at `pos` starts in the buffer.
    pub open spec fn chunk_start(self, pos: Seq<usize>) -> int {
        offset_of(pos, self.strides)
    }

    /// Where the chunk at `pos` ends in the buffer: one stride of the last
    /// dimension that `pos` fixes behind its start.
    pub open spec fn chunk_end(self, pos: Seq<usize>) -> int {
        self.chunk_start(pos) + self.strides[pos.len() - 1]
    }

    /// Whether `pos` names a chunk: the tensor is contiguous, `pos` fixes at
    /// least one leading dimension and leaves at least one free, and the
    /// range it addresses lies inside the buffer.
    pub open spec fn has_chunk(self, pos: Seq<usize>) -> bool {
        &&& self.is_contiguous()
        &&& 0 < pos.len() < self.rank()
        &&& self.chunk_end(pos) <= self.data.len()
    }

    /// The elements of the chunk at `pos`.
    pub open spec fn chunk(self, pos: Seq<usize>) -> Seq<T> {
        self.data.subrange(self.chunk_start(pos), self.chunk_end(pos))
    }

    /// The tensor with the chunk at `pos` replaced by `items`.
    pub open spec fn with_chunk(self, pos: Seq<usize>, items: Seq<T>) -> Self {
        TensorModel {
            data: self.data.subrange(0, self.chunk_start(pos)) + items + self.data.subrange(
                self.chunk_end(pos),
                self.data.len() as int,
            ),
            ..self
        }
    }

    /// The tensor with its whole buffer replaced by `items`.
    pub open spec fn with_data(self, items: Seq<T>) -> Self {
        TensorModel { data: items, ..self }
    }

    /// The same tensor under another label.
    pub open spec fn named(self, name: Seq<char>) -> Self {
        TensorModel { name: Some(name), ..self }
    }

    /// The same buffer with the axes rearranged: dimension `i` of the result
    /// is dimension `perm[i]` of this tensor.
    pub open spec fn transposed(self, perm: Seq<usize>) -> Self {
        TensorModel {
            shape: permuted(self.shape, perm),
            strides: permuted(self.strides, perm),
            ..self
        }
    }

    /// The same buffer seen through another shape, with row-major strides
    /// and without a label.
    pub open spec fn reshaped(self, shape: Seq<usize>) -> Self {
        TensorModel::fresh(self.data, self.owned, shape)
    }

    /// Where the buffer of row `row` starts: at the offset of the row, or at
    /// the end of the buffer where that offset lies beyond it (which happens
    /// only in a tensor without elements).
    pub open spec fn row_start(self, row: int) -> int {
        if row * self.strides[0] <= self.data.len() {
            row * self.strides[0]
        } else {
            self.data.len() as int
        }
    }

    /// Where the buffer of row `row` ends: one stride behind its start in a
    /// contiguous tensor, at the end of the whole buffer in any other.
    pub open spec fn row_end(self, row: int) -> int {
        if self.is_contiguous() {
            self.row_start(row) + self.strides[0]
        } else {
            self.data.len() as int
        }
    }

    /// Row `row` of the leading dimension as a tensor of its own.
    pub open spec fn subtensor(self, row: int) -> Self {
        TensorModel {
            data: self.data.subrange(self.row_start(row), self.row_end(row)),
            owned: self.owned,
            shape: self.shape.skip(1),
            strides: self.strides.skip(1),
            name: self.name,
        }
    }

    /// The elements copied, in row-major order, into a buffer of their own
    /// with row-major strides. The copy is owned and has no label.
    pub open spec fn materialized(self) -> Self {
        TensorModel::fresh(self.elements(), true, self.shape)
    }

    /// All elements in row-major order of their indices.
    pub open spec fn elements(self) -> Seq<T> {
        Seq::new(self.len(), |pos: int| self.element(unravel(pos as nat, self.shape)))
    }
}

/// A well-formed tensor never addresses past its buffer with a valid index.
pub proof fn lemma_valid_index_in_bounds<T>(t: TensorModel<T>, index: Seq<usize>)
    requires
        t.wf(),
        valid_index(index, t.shape),
    ensures
        t.len() > 0,
        0 <= t.offset(index) <= last_offset(t.shape, t.strides) < t.data.len(),
{
    assert forall|i: int| 0 <= i < t.shape.len() implies #[trigger] t.shape[i] > 0 by {
        assert(index[i] < t.shape[i]);
    }
    lemma_element_count_positive(t.shape);
    lemma_offset_within_extent(index, t.shape, t.strides, 0);
}

/// A fresh tensor over a buffer that holds exactly the elements of its shape
/// is well formed and contiguous.
pub proof fn lemma_fresh_wf<T>(data: Seq<T>, owned: bool, shape: Seq<usize>)
    requires
        data.len() == element_count(shape),
        data.len() <= usize::MAX,
        representable(shape),
    ensures
        TensorModel::fresh(data, owned, shape).wf(),
        TensorModel::fresh(data, owned, shape).is_contiguous(),
{
    let t = TensorModel::fresh(data, owned, shape);
    lemma_contiguous_is_row_major(shape, t.strides);
    lemma_element_count_positive(shape);
    if element_count(shape) > 0 {
        lemma_contiguous_extent(shape, t.strides, 0);
    }
}

/// Rearranging the axes of a well-formed tensor keeps it well formed and
/// keeps its number of elements.
pub proof fn lemma_transposed_wf<T>(t: TensorModel<T>, perm: Seq<usize>)
    requires
        t.wf(),
        is_permutation(perm, t.rank()),
    ensures
        t.transposed(perm).wf(),
        t.transposed(perm).len() == t.len(),
{
    lemma_product_permuted(t.shape, perm);
    if t.len() > 0 {
        lemma_element_count_positive(t.shape);
        lemma_last_offset_permuted(t.shape, t.strides, perm);
    }
}

/// A contiguous tensor can be seen through any representable shape with as
/// many elements.
pub proof fn lemma_reshaped_wf<T>(t: TensorModel<T>, shape: Seq<usize>)
    requires
        t.wf(),
        t.is_contiguous(),
        element_count(shape) == t.len(),
        representable(shape),
    ensures
        t.reshaped(shape).wf(),
        t.reshaped(shape).is_contiguous(),
{
    let r = t.reshaped(shape);
    lemma_contiguous_is_row_major(shape, r.strides);
    lemma_element_count_positive(shape);
    lemma_element_count_positive(t.shape);
    if t.len() > 0 {
        lemma_contiguous_extent(shape, r.strides, 0);
        lemma_contiguous_extent(t.shape, t.strides, 0);
    }
}

/// Each row of a well-formed tensor of rank 2 or more is a well-formed
/// tensor, and a row of a contiguous tensor is contiguous and fills its
/// buffer.
pub proof fn lemma_subtensor_wf<T>(t: TensorModel<T>, row: int)
    requires
        t.wf(),
        t.rank() > 1,
        0 <= row < t.shape[0],
    ensures
        t.subtensor(row).wf(),
        0 <= t.row_start(row) <= t.row_end(row) <= t.data.len(),
        t.len() > 0 || t.is_contiguous() ==> t.row_start(row) == row * t.strides[0],
        t.is_contiguous() ==> t.subtensor(row).is_contiguous() && t.subtensor(row).data.len()
            == t.subtensor(row).len(),
{
    let sub = t.subtensor(row);
    let d0 = t.shape[0] as int;
    let s0 = t.strides[0] as int;
    let rest = suffix_product(t.shape, 1) as int;
    lemma_suffix_product_skip(t.shape, 1, 0);
    lemma_extent_skip_one(t.shape, t.strides, 0);
    lemma_element_count_positive(t.shape);
    lemma_element_count_positive(sub.shape);
    assert(t.len() == d0 * rest);
    assert(0 <= row * s0) by (nonlinear_arith)
        requires
            0 <= row,
            0 <= s0,
    ;
    if t.len() > 0 {
        assert(all_positive(t.shape));
        lemma_extent_nonnegative(t.shape, t.strides, 0);
        lemma_extent_nonnegative(t.shape, t.strides, 1);
        assert(row * s0 <= (d0 - 1) * s0) by (nonlinear_arith)
            requires
                0 <= row <= d0 - 1,
                0 <= s0,
        ;
        assert(rest <= d0 * rest) by (nonlinear_arith)
            requires
                1 <= d0,
                0 <= rest,
        ;
    } else {
        assert(d0 * rest == 0 && d0 > 0 ==> rest == 0) by (nonlinear_arith);
    }
    if t.is_contiguous() {
        lemma_contiguous_is_row_major(t.shape, t.strides);
        assert(s0 == rest);
        assert forall|i: int| 0 <= i < sub.shape.len() - 1 implies (#[trigger] sub.strides[i])
            == sub.strides[i + 1] * sub.shape[i + 1] by {
            assert(t.strides[i + 1] == t.strides[(i + 1) + 1] * t.shape[(i + 1) + 1]);
        }
        assert(sub.is_contiguous());
        if t.len() > 0 {
            lemma_contiguous_extent(t.shape, t.strides, 0);
            lemma_contiguous_extent(sub.shape, sub.strides, 0);
            assert(row * s0 + s0 <= d0 * s0) by (nonlinear_arith)
                requires
                    0 <= row <= d0 - 1,
                    0 <= s0,
            ;
        } else {
            assert(row * s0 == 0) by (nonlinear_arith)
                requires
                    s0 == 0,
            ;
        }
    }
}

} // verus!
