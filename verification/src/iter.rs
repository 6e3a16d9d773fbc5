//! A forward-only cursor over the elements of a tensor in row-major order.

use vstd::prelude::*;
use vstd::arithmetic::div_mod::{lemma_div_denominator, lemma_div_pos_is_pos, lemma_small_mod};
use vstd::arithmetic::mul::lemma_mul_is_commutative;
use crate::layout::{
    all_positive, coordinate, dot_from, lemma_element_count_positive, lemma_suffix_product_positive,
    lemma_unravel_valid, offset, suffix_product, unravel,
};
use crate::model::{lemma_valid_index_in_bounds, TensorModel};
use crate::tensor::CpuTensor;

verus! {

/// A cursor that walks the logical positions `0..len` of a tensor and reads
/// each element through the strides, whatever the physical layout is.
///
/// Dimension 0 varies slowest and the last dimension fastest.
#[derive(Debug)]
pub struct TensorIterator<'b, 'a, T> {
    tensor: &'b CpuTensor<'a, T>,
    len: usize,
    logical_pos: usize,
    idx_buf: Vec<usize>,
}

impl<'b, 'a, T: Copy> TensorIterator<'b, 'a, T> {
    /// The tensor that the cursor walks.
    pub closed spec fn tensor(&self) -> TensorModel<T> {
        self.tensor.model()
    }

    /// The logical position of the element that `next` hands out next.
    pub closed spec fn position(&self) -> nat {
        self.logical_pos as nat
    }

    /// The cursor stands at or before the end of a well-formed tensor.
    pub closed spec fn wf(&self) -> bool {
        &&& self.tensor.wf()
        &&& self.len == self.tensor.model().len()
        &&& self.logical_pos <= self.len
        &&& self.idx_buf.len() == self.tensor.model().rank()
    }

    /// The elements that are still to come.
    pub open spec fn remaining(&self) -> Seq<T> {
        self.tensor().elements().skip(self.position() as int)
    }

    /// A cursor at the first element of `tensor`.
    pub fn new(tensor: &'b CpuTensor<'a, T>) -> (it: Self)
        requires
            tensor.wf(),
        ensures
            it.wf(),
            it.tensor() == tensor.model(),
            it.position() == 0,
    {
        let rank = tensor.shape().len();
        let mut idx_buf: Vec<usize> = Vec::new();
        while idx_buf.len() < rank
            invariant
                idx_buf.len() <= rank,
            decreases rank - idx_buf.len(),
        {
            idx_buf.push(0);
        }
        TensorIterator { tensor, len: tensor.len(), logical_pos: 0, idx_buf }
    }

    /// Hands out the element at the current position and moves on, or `None`
    /// at the end.
    ///
    /// The position is split into one coordinate per dimension by repeated
    /// remainder and division, starting from the last dimension; the
    /// coordinates are then addressed through the strides. A tensor of one
    /// dimension needs no split: its position is its coordinate.
    pub fn next(&mut self) -> (item: Option<T>)
        requires
            old(self).wf(),
        ensures
            final(self).wf(),
            final(self).tensor() == old(self).tensor(),
            old(self).position() < old(self).tensor().len() ==> item == Some(
                old(self).tensor().elements()[old(self).position() as int],
            ) && final(self).position() == old(self).position() + 1,
            old(self).position() >= old(self).tensor().len() ==> item is None
                && final(self).position() == old(self).position(),
    {
        if self.logical_pos >= self.len {
            return None;
        }
        let shape = self.tensor.shape();
        let strides = self.tensor.strides();
        let buf = self.tensor.ref_buf();
        let rank = shape.len();
        let pos = self.logical_pos;
        proof {
            assert(buf@.len() == buf.len());
            lemma_element_count_positive(shape@);
            lemma_unravel_valid(pos as nat, shape@);
            lemma_valid_index_in_bounds(self.tensor.model(), unravel(pos as nat, shape@));
        }
        if rank == 1 {
            proof {
                let index = unravel(pos as nat, shape@);
                assert(suffix_product(shape@, 1) == 1);
                assert(suffix_product(shape@, 0) == shape[0] * 1);
                lemma_small_mod(pos as nat, shape[0] as nat);
                assert(index[0] == pos);
                assert(dot_from(index, strides@, 1) == 0);
                assert(dot_from(index, strides@, 0) == index[0] * strides[0] + dot_from(
                    index,
                    strides@,
                    1,
                ));
            }
            let at = pos * strides[0];
            self.logical_pos += 1;
            return Some(buf[at]);
        }
        let mut lp = pos;
        let mut i = rank;
        while i > 0
            invariant
                self.tensor == old(self).tensor,
                self.len == old(self).len,
                self.logical_pos == pos,
                pos < self.len,
                shape@ == self.tensor.model().shape,
                rank == shape.len(),
                self.idx_buf.len() == rank,
                all_positive(shape@),
                i <= rank,
                lp == pos as nat / suffix_product(shape@, i as int),
                forall|j: int|
                    i <= j < rank ==> (#[trigger] self.idx_buf[j]) == coordinate(
                        pos as nat,
                        shape@,
                        j,
                    ),
            decreases i,
        {
            i -= 1;
            let dim = shape[i];
            proof {
                let rest = suffix_product(shape@, i + 1) as int;
                lemma_suffix_product_positive(shape@, i + 1);
                lemma_div_denominator(pos as int, rest, dim as int);
                lemma_mul_is_commutative(rest, dim as int);
                lemma_div_pos_is_pos(pos as int, rest);
            }
            self.idx_buf.set(i, lp % dim);
            lp = lp / dim;
        }
        assert(self.idx_buf@ =~= unravel(pos as nat, shape@));
        let at = offset(self.idx_buf.as_slice(), strides);
        self.logical_pos += 1;
        Some(buf[at])
    }

    /// What is known of the number of elements still to come: an upper
    /// bound, for a tensor of one dimension.
    pub fn size_hint(&self) -> (hint: (usize, Option<usize>))
        requires
            self.wf(),
        ensures
            hint.0 == 0,
            hint.1 == if self.tensor().rank() == 1 {
                Some((self.tensor().len() - self.position()) as usize)
            } else {
                None
            },
    {
        if self.tensor.shape().len() == 1 {
            (0, Some(self.len - self.logical_pos))
        } else {
            (0, None)
        }
    }

    /// Walks to the end and returns the elements met on the way.
    pub fn collect(self) -> (items: Vec<T>)
        requires
            self.wf(),
        ensures
            items@ == self.remaining(),
    {
        let mut it = self;
        let mut items: Vec<T> = Vec::new();
        let ghost start = it.position();
        let ghost all = it.tensor().elements();
        loop
            invariant
                it.wf(),
                it.tensor().elements() == all,
                all.len() == it.tensor().len(),
                start <= it.position() <= all.len(),
                items@ == all.subrange(start as int, it.position() as int),
            ensures
                it.position() == all.len(),
            decreases all.len() - it.position(),
        {
            match it.next() {
                Some(item) => {
                    items.push(item);
                },
                None => {
                    break ;
                },
            }
        }
        assert(items@ =~= all.skip(start as int));
        items
    }
}

} // verus!
