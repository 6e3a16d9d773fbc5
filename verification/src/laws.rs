//! What holds of every tensor, whatever its shape and its elements.
//!
//! Each law is stated over the mathematical model of a tensor, in the terms
//! that the contracts of the operations use, and proved from the definitions.

use vstd::prelude::*;
use crate::layout::{
    contiguous, dot_from, element_count, fits, lemma_contiguous_extent,
    lemma_contiguous_is_row_major, lemma_contiguous_offset_is_linear,
    lemma_counted_is_representable, lemma_dot_nonnegative, lemma_dot_skip_one,
    lemma_element_count_positive,
    lemma_linear_of_unravel, lemma_suffix_product_skip, lemma_unravel_of_linear, linear_from,
    linear_index, representable,
    suffix_product, unravel, valid_index,
};
use crate::model::{
    lemma_fresh_wf, lemma_reshaped_wf, lemma_subtensor_wf, lemma_transposed_wf,
    lemma_valid_index_in_bounds, TensorModel,
};
use crate::permutation::{
    identity, inverts, is_permutation, lemma_dot_permuted, lemma_identity, lemma_inverts, permuted,
};

verus! {

/// A shape that has elements fits every buffer that holds exactly that many:
/// only a shape with an extent of 0 can have strides that are too large.
pub proof fn law_matching_length_fits(len: nat, shape: Seq<usize>)
    requires
        len == element_count(shape),
        len <= usize::MAX,
        len > 0 || representable(shape),
    ensures
        fits(len, shape),
{
    if len > 0 {
        lemma_counted_is_representable(shape);
    }
}

/// A fresh tensor has as many logical elements as its buffer holds, and its
/// strides obey the row-major law: the last stride is 1 and every other
/// stride is the next stride times the next extent.
pub proof fn law_fresh_is_row_major<T>(data: Seq<T>, owned: bool, shape: Seq<usize>)
    requires
        fits(data.len(), shape),
        data.len() <= usize::MAX,
    ensures
        ({
            let t = TensorModel::fresh(data, owned, shape);
            &&& t.wf()
            &&& t.len() == data.len()
            &&& t.is_contiguous()
            &&& t.rank() > 0 ==> t.strides[t.rank() - 1] == 1
            &&& forall|i: int|
                0 <= i < t.rank() - 1 ==> (#[trigger] t.strides[i]) == t.strides[i + 1] * shape[i
                    + 1]
        }),
{
    lemma_fresh_wf(data, owned, shape);
}

/// Transposing by the identity permutation changes nothing: not the shape,
/// not the strides, not the order of the elements.
pub proof fn law_transpose_identity<T>(t: TensorModel<T>)
    requires
        t.wf(),
        t.rank() <= usize::MAX,
    ensures
        is_permutation(identity(t.rank()), t.rank()),
        t.transposed(identity(t.rank())) == t,
        t.transposed(identity(t.rank())).elements() == t.elements(),
{
    lemma_identity(t.shape);
    lemma_identity(t.strides);
}

/// Transposing by a permutation and then by what undoes it gives the tensor
/// back: the same shape, the same strides, the same order of the elements.
pub proof fn law_transpose_round_trip<T>(t: TensorModel<T>, perm: Seq<usize>, back: Seq<usize>)
    requires
        t.wf(),
        is_permutation(perm, t.rank()),
        inverts(back, perm),
    ensures
        is_permutation(back, t.rank()),
        t.transposed(perm).wf(),
        t.transposed(perm).transposed(back) == t,
        t.transposed(perm).transposed(back).elements() == t.elements(),
{
    lemma_inverts(t.shape, perm, back);
    lemma_inverts(t.strides, perm, back);
    lemma_transposed_wf(t, perm);
}

/// A transposed tensor holds at a rearranged index what the tensor holds at
/// the index: transposing moves no element.
pub proof fn law_transposed_element<T>(t: TensorModel<T>, perm: Seq<usize>, index: Seq<usize>)
    requires
        t.wf(),
        is_permutation(perm, t.rank()),
        valid_index(index, t.shape),
    ensures
        valid_index(permuted(index, perm), t.transposed(perm).shape),
        t.transposed(perm).element(permuted(index, perm)) == t.element(index),
{
    lemma_dot_permuted(index, t.strides, perm);
    assert forall|i: int| 0 <= i < perm.len() implies (#[trigger] permuted(index, perm)[i])
        < t.transposed(perm).shape[i] by {
        assert(index[perm[i] as int] < t.shape[perm[i] as int]);
    }
}

/// The elements of a tensor, in order, are its elements at every index in
/// row-major order: the position of an index in that order is where the
/// element at the index stands.
pub proof fn law_elements_follow_indices<T>(t: TensorModel<T>, index: Seq<usize>)
    requires
        t.wf(),
        valid_index(index, t.shape),
    ensures
        0 <= linear_index(index, t.shape) < t.len(),
        t.elements()[linear_index(index, t.shape)] == t.element(index),
{
    lemma_unravel_of_linear(index, t.shape);
}

/// Every position below the number of elements is the position of exactly
/// one valid index, and the element there is the element at that index.
pub proof fn law_elements_cover_indices<T>(t: TensorModel<T>, pos: nat)
    requires
        t.wf(),
        pos < t.len(),
    ensures
        valid_index(unravel(pos, t.shape), t.shape),
        linear_index(unravel(pos, t.shape), t.shape) == pos,
        t.elements()[pos as int] == t.element(unravel(pos, t.shape)),
        0 <= t.offset(unravel(pos, t.shape)) < t.data.len(),
{
    lemma_linear_of_unravel(pos, t.shape);
    lemma_valid_index_in_bounds(t, unravel(pos, t.shape));
}

/// The elements of a contiguous tensor, in order, are the leading elements
/// of its buffer, in order; they are the whole buffer where the buffer holds
/// no more than the tensor has, as in every fresh tensor.
pub proof fn law_contiguous_elements<T>(t: TensorModel<T>)
    requires
        t.wf(),
        t.is_contiguous(),
    ensures
        t.len() <= t.data.len(),
        t.elements() == t.data.take(t.len() as int),
        t.data.len() == t.len() ==> t.elements() == t.data,
{
    lemma_element_count_positive(t.shape);
    if t.len() > 0 {
        lemma_contiguous_extent(t.shape, t.strides, 0);
    }
    assert forall|pos: int| 0 <= pos < t.len() implies t.elements()[pos] == t.data[pos] by {
        let index = unravel(pos as nat, t.shape);
        lemma_linear_of_unravel(pos as nat, t.shape);
        lemma_contiguous_offset_is_linear(index, t.shape, t.strides, 0);
    }
    assert(t.elements() =~= t.data.take(t.len() as int));
    if t.data.len() == t.len() {
        assert(t.data.take(t.len() as int) =~= t.data);
    }
}

/// Seeing a contiguous tensor through another shape with as many elements
/// keeps the elements and their order.
pub proof fn law_reshaped_elements<T>(t: TensorModel<T>, shape: Seq<usize>)
    requires
        t.wf(),
        t.is_contiguous(),
        fits(t.len(), shape),
    ensures
        t.reshaped(shape).wf(),
        t.reshaped(shape).is_contiguous(),
        t.reshaped(shape).elements() == t.elements(),
{
    lemma_reshaped_wf(t, shape);
    law_contiguous_elements(t);
    law_contiguous_elements(t.reshaped(shape));
}

/// Materializing a tensor gives a contiguous tensor with the same elements
/// in the same order.
pub proof fn law_materialized_elements<T>(t: TensorModel<T>)
    requires
        t.wf(),
        representable(t.shape),
    ensures
        t.materialized().wf(),
        t.materialized().is_contiguous(),
        t.materialized().shape == t.shape,
        t.materialized().elements() == t.elements(),
{
    lemma_fresh_wf(t.elements(), true, t.shape);
    law_contiguous_elements(t.materialized());
}

/// In a contiguous tensor, every position that fixes some leading
/// coordinates below their extents names a chunk. The chunk holds as many
/// elements as the free dimensions span, and they are the elements of the
/// tensor at the same positions.
pub proof fn law_valid_position_has_chunk<T>(t: TensorModel<T>, pos: Seq<usize>)
    requires
        t.wf(),
        t.is_contiguous(),
        0 < pos.len() < t.rank(),
        forall|i: int| 0 <= i < pos.len() ==> (#[trigger] pos[i]) < t.shape[i],
    ensures
        t.has_chunk(pos),
        t.chunk(pos).len() == suffix_product(t.shape, pos.len() as int),
        0 <= t.chunk_start(pos) <= t.chunk_end(pos) <= t.len(),
        t.chunk(pos) == t.elements().subrange(t.chunk_start(pos), t.chunk_end(pos)),
{
    lemma_contiguous_is_row_major(t.shape, t.strides);
    lemma_chunk_bound(t.shape, t.strides, pos, 0);
    assert(t.strides[pos.len() - 1] == suffix_product(t.shape, (pos.len() - 1) + 1));
    law_contiguous_elements(t);
    assert(t.chunk(pos) =~= t.elements().subrange(t.chunk_start(pos), t.chunk_end(pos)));
}

/// The coordinates of `pos` from `from` on, followed by one whole block of
/// the free dimensions, stay inside the block that the dimensions from
/// `from` on span.
proof fn lemma_chunk_bound(shape: Seq<usize>, strides: Seq<usize>, pos: Seq<usize>, from: int)
    requires
        contiguous(shape, strides),
        pos.len() <= shape.len(),
        0 <= from <= pos.len(),
        forall|i: int| 0 <= i < pos.len() ==> (#[trigger] pos[i]) < shape[i],
    ensures
        0 <= dot_from(pos, strides, from),
        dot_from(pos, strides, from) + suffix_product(shape, pos.len() as int) <= suffix_product(
            shape,
            from,
        ),
    decreases pos.len() - from,
{
    if from < pos.len() {
        lemma_chunk_bound(shape, strides, pos, from + 1);
        lemma_contiguous_is_row_major(shape, strides);
        let c = pos[from] as int;
        let d = shape[from] as int;
        let rest = suffix_product(shape, from + 1) as int;
        assert(strides[from] == rest);
        assert(0 <= c * rest && c * rest + rest <= d * rest) by (nonlinear_arith)
            requires
                0 <= c < d,
                0 <= rest,
        ;
    }
}

/// What is written to a chunk is what a later read of the chunk finds, and
/// nothing outside the chunk changes.
pub proof fn law_chunk_write_is_read<T>(t: TensorModel<T>, pos: Seq<usize>, items: Seq<T>)
    requires
        t.wf(),
        t.has_chunk(pos),
        items.len() == t.chunk(pos).len(),
    ensures
        t.with_chunk(pos, items).wf(),
        t.with_chunk(pos, items).has_chunk(pos),
        t.with_chunk(pos, items).chunk(pos) == items,
        t.with_chunk(pos, items).data.len() == t.data.len(),
        forall|i: int|
            0 <= i < t.data.len() && !(t.chunk_start(pos) <= i < t.chunk_end(pos)) ==> (
            #[trigger] t.with_chunk(pos, items).data[i]) == t.data[i],
{
    let w = t.with_chunk(pos, items);
    lemma_dot_nonnegative(pos, t.strides, 0);
    assert(w.chunk(pos) =~= items);
}

/// The elements of a row, in order, are the elements of the tensor that
/// stand in the row's block of positions, in order.
pub proof fn law_subtensor_elements<T>(t: TensorModel<T>, row: usize)
    requires
        t.wf(),
        t.rank() > 1,
        row < t.shape[0],
    ensures
        ({
            let block = suffix_product(t.shape, 1) as int;
            &&& t.subtensor(row as int).len() == block
            &&& 0 <= row * block <= row * block + block <= t.len()
            &&& t.subtensor(row as int).elements() == t.elements().subrange(
                row * block,
                row * block + block,
            )
        }),
{
    let sub = t.subtensor(row as int);
    let block = suffix_product(t.shape, 1) as int;
    let d = t.shape[0] as int;
    lemma_suffix_product_skip(t.shape, 1, 0);
    assert(t.len() == d * block);
    assert(0 <= row * block && row * block + block <= d * block) by (nonlinear_arith)
        requires
            0 <= row < d,
            0 <= block,
    ;
    assert forall|pos: int| 0 <= pos < block implies sub.elements()[pos] == t.elements()[row
        * block + pos] by {
        let index = unravel(pos as nat, sub.shape);
        let whole = seq![row] + index;
        lemma_linear_of_unravel(pos as nat, sub.shape);
        law_subtensor_element(t, row, index);
        lemma_unravel_of_linear(whole, t.shape);
        lemma_linear_skip_one(whole, t.shape, 0);
        assert(whole.skip(1) =~= index);
        assert(linear_index(whole, t.shape) == row * block + linear_from(whole, t.shape, 1));
    }
    assert(sub.elements() =~= t.elements().subrange(row * block, row * block + block));
}

/// Dropping the leading coordinate and the leading extent drops the
/// leading term from the row-major position.
proof fn lemma_linear_skip_one(index: Seq<usize>, shape: Seq<usize>, from: int)
    requires
        0 < index.len() <= shape.len(),
        0 <= from,
    ensures
        linear_from(index.skip(1), shape.skip(1), from) == linear_from(index, shape, from + 1),
    decreases index.len() - from,
{
    if from < index.len() - 1 {
        lemma_linear_skip_one(index, shape, from + 1);
        lemma_suffix_product_skip(shape, 1, from + 1);
    }
}

/// A row of a tensor holds at an index what the tensor holds at the row
/// followed by that index.
pub proof fn law_subtensor_element<T>(t: TensorModel<T>, row: usize, index: Seq<usize>)
    requires
        t.wf(),
        t.rank() > 1,
        row < t.shape[0],
        valid_index(index, t.shape.skip(1)),
    ensures
        valid_index(seq![row] + index, t.shape),
        t.subtensor(row as int).element(index) == t.element(seq![row] + index),
{
    let whole = seq![row] + index;
    let sub = t.subtensor(row as int);
    assert forall|i: int| 0 <= i < whole.len() implies (#[trigger] whole[i]) < t.shape[i] by {
        if i > 0 {
            assert(index[i - 1] < t.shape.skip(1)[i - 1]);
        }
    }
    lemma_subtensor_wf(t, row as int);
    lemma_valid_index_in_bounds(t, whole);
    lemma_valid_index_in_bounds(sub, index);
    lemma_dot_skip_one(whole, t.strides, 0);
    assert(whole.skip(1) =~= index);
}

} // verus!
