//! The tensor: a buffer seen through a shape and strides.

use vstd::prelude::*;
use vstd::slice::slice_subrange;
use vstd::slice::slice_to_vec;
use vstd::string::to_string_from_display_ensures;
use crate::buffer::Buffer;
use crate::display::{is_shown, render, rendered, texts_of, ROW_LIMIT};
use crate::error::{invalid_for_shape_text, invalid_shape_text, Error, ErrorKind};
use crate::iter::TensorIterator;
use crate::laws::{law_materialized_elements, law_reshaped_elements};
use crate::layout::{
    checked_element_count, checked_last_offset, checked_offset, element_count, fits,
    is_contiguous_layout, lemma_dot_nonnegative, lemma_element_count_positive, offset,
    representable, row_major_strides, valid_index,
};
use crate::model::{
    lemma_fresh_wf, lemma_subtensor_wf, lemma_transposed_wf, lemma_valid_index_in_bounds,
    TensorModel,
};
use crate::permutation::{is_permutation, permuted, selects_axes};

verus! {

/// A strided, multi-dimensional view of a flat buffer.
#[derive(Debug)]
pub struct CpuTensor<'a, T> {
    buf: Buffer<'a, T>,
    shape: Vec<usize>,
    strides: Vec<usize>,
    name: Option<String>,
}

impl<'a, T> CpuTensor<'a, T> {
    /// What this tensor is, mathematically.
    pub closed spec fn model(&self) -> TensorModel<T> {
        TensorModel {
            data: self.buf@,
            owned: self.buf is Owned,
            shape: self.shape@,
            strides: self.strides@,
            name: match self.name {
                Some(name) => Some(name@),
                None => None,
            },
        }
    }
}

impl<'a, T: Copy> CpuTensor<'a, T> {
    /// The invariant that every constructor establishes and every method
    /// keeps.
    pub open spec fn wf(&self) -> bool {
        self.model().wf()
    }

    /// Makes a tensor of `buf` and `shape` with row-major strides.
    ///
    /// Fails where the buffer does not hold exactly the elements of the
    /// shape, or where a row-major stride of the shape does not fit in a
    /// `usize` (which can only happen to a shape with an extent of 0).
    pub fn new(buf: Buffer<'a, T>, shape: Vec<usize>) -> (r: Result<Self, Error>)
        ensures
            r is Ok <==> fits(buf@.len(), shape@),
            r matches Ok(t) ==> {
                &&& t.model() == TensorModel::fresh(buf@, buf is Owned, shape@)
                &&& t.model().len() == buf@.len()
                &&& t.model().is_contiguous()
                &&& t.wf()
            },
            r matches Err(e) ==> e.kind == ErrorKind::TensorError && e.message@
                == invalid_shape_text(shape@, buf@.len() as usize),
    {
        let strides = match row_major_strides(shape.as_slice()) {
            Some(strides) => strides,
            None => {
                return Err(Error::invalid_shape(shape.as_slice(), buf.len()));
            },
        };
        if checked_element_count(shape.as_slice()) != Some(buf.len()) {
            return Err(Error::invalid_shape(shape.as_slice(), buf.len()));
        }
        proof {
            lemma_fresh_wf(buf@, buf is Owned, shape@);
        }
        Ok(CpuTensor { buf, shape, strides, name: None })
    }

    /// A tensor of `shape` that owns a buffer filled with the default value
    /// of the element type, which is zero for every number type.
    ///
    /// Fails where the shape has more elements than a `usize` can count, or a
    /// row-major stride that does not fit in one.
    pub fn zeros(shape: Vec<usize>) -> (r: Result<Self, Error>) where T: Default
        ensures
            r is Ok <==> element_count(shape@) <= usize::MAX && representable(shape@),
            r matches Ok(t) ==> {
                &&& t.model() == TensorModel::fresh(t.model().data, true, shape@)
                &&& fits(t.model().data.len(), shape@)
                &&& forall|i: int|
                    0 <= i < t.model().data.len() ==> call_ensures(
                        T::default,
                        (),
                        #[trigger] t.model().data[i],
                    ) && t.model().data[i] == t.model().data[0]
                &&& t.wf()
                &&& t.model().is_contiguous()
            },
            r matches Err(e) ==> {
                &&& e.kind == ErrorKind::TensorError
                &&& e.message@ == if element_count(shape@) <= usize::MAX {
                    invalid_shape_text(shape@, element_count(shape@) as usize)
                } else {
                    "shape has more elements than can be counted"@
                }
            },
    {
        let count = match checked_element_count(shape.as_slice()) {
            Some(count) => count,
            None => {
                return Err(Error::tensor("shape has more elements than can be counted"));
            },
        };
        let zero = T::default();
        let mut items: Vec<T> = Vec::new();
        while items.len() < count
            invariant
                items.len() <= count,
                call_ensures(T::default, (), zero),
                forall|i: int| 0 <= i < items.len() ==> (#[trigger] items[i]) == zero,
            decreases count - items.len(),
        {
            items.push(zero);
        }
        Self::new(Buffer::Owned(items), shape)
    }

    /// Makes a tensor of `buf` and `shape` without checking that they fit;
    /// the caller guarantees it.
    pub fn new_unchecked(buf: Buffer<'a, T>, shape: Vec<usize>) -> (t: Self)
        requires
            fits(buf@.len(), shape@),
        ensures
            t.model() == TensorModel::fresh(buf@, buf is Owned, shape@),
            t.model().len() == buf@.len(),
            t.model().is_contiguous(),
            t.wf(),
    {
        let strides = match row_major_strides(shape.as_slice()) {
            Some(strides) => strides,
            None => Vec::new(),
        };
        proof {
            buf.lemma_len_bounded();
            lemma_fresh_wf(buf@, buf is Owned, shape@);
        }
        CpuTensor { buf, shape, strides, name: None }
    }

    /// Attaches a label. The label describes the tensor and changes nothing
    /// else.
    pub fn with_name(self, name: &str) -> (t: Self)
        ensures
            t.model() == self.model().named(name@),
    {
        CpuTensor {
            buf: self.buf,
            shape: self.shape,
            strides: self.strides,
            name: Some(name.to_owned()),
        }
    }

    /// The label, if one was attached.
    pub fn name(&self) -> (name: Option<&str>)
        ensures
            match name {
                Some(name) => self.model().name == Some(name@),
                None => self.model().name is None,
            },
    {
        match &self.name {
            Some(name) => Some(name.as_str()),
            None => None,
        }
    }

    /// The extents of the dimensions.
    pub fn shape(&self) -> (shape: &[usize])
        ensures
            shape@ == self.model().shape,
    {
        self.shape.as_slice()
    }

    /// The strides of the dimensions.
    pub fn strides(&self) -> (strides: &[usize])
        ensures
            strides@ == self.model().strides,
    {
        self.strides.as_slice()
    }

    /// The number of logical elements.
    pub fn len(&self) -> (n: usize)
        requires
            self.wf(),
        ensures
            n == self.model().len(),
    {
        match checked_element_count(self.shape.as_slice()) {
            Some(n) => n,
            None => 0,
        }
    }

    /// Whether the tensor owns its buffer.
    pub fn is_owned(&self) -> (owned: bool)
        ensures
            owned == self.model().owned,
    {
        self.buf.is_owned()
    }

    /// Whether the strides are the row-major strides of the shape.
    pub fn is_contiguous(&self) -> (r: bool)
        ensures
            r == self.model().is_contiguous(),
    {
        is_contiguous_layout(self.shape.as_slice(), self.strides.as_slice())
    }

    /// The whole buffer, read-only.
    pub fn ref_buf(&self) -> (items: &[T])
        ensures
            items@ == self.model().data,
    {
        self.buf.as_slice()
    }

    /// The whole buffer, for writing.
    ///
    /// Fails where the buffer is borrowed.
    pub fn mut_buf(&mut self) -> (r: Result<&mut [T], Error>)
        ensures
            r is Ok <==> old(self).model().owned,
            r matches Ok(items) ==> {
                &&& items@ == old(self).model().data
                &&& final(self).model() == old(self).model().with_data(final(items)@)
                &&& old(self).wf() && final(items)@.len() == items@.len() ==> final(self).wf()
            },
            r matches Err(e) ==> {
                &&& final(self).model() == old(self).model()
                &&& e.kind == ErrorKind::TensorError
                &&& e.message@ == "can not mut a borrowed tensor"@
            },
    {
        match &mut self.buf {
            Buffer::Borrowed(_) => Err(Error::tensor("can not mut a borrowed tensor")),
            Buffer::Owned(data) => Ok(data.as_mut_slice()),
        }
    }

    /// Whether the tensor is well formed: whether every valid index
    /// addresses an element of the buffer. Only a transpose that names an
    /// axis twice can give a tensor that is not.
    pub fn is_well_formed(&self) -> (r: bool)
        ensures
            r == self.wf(),
    {
        if self.strides.len() != self.shape.len() {
            return false;
        }
        let count = match checked_element_count(self.shape.as_slice()) {
            Some(count) => count,
            None => {
                return false;
            },
        };
        if count == 0 {
            return true;
        }
        proof {
            self.buf.lemma_len_bounded();
            lemma_element_count_positive(self.shape@);
        }
        match checked_last_offset(self.shape.as_slice(), self.strides.as_slice()) {
            Some(last) => last < self.buf.len(),
            None => false,
        }
    }

    /// The buffer offset of the element at `idx`.
    fn buf_offset(&self, idx: &[usize]) -> (at: usize)
        requires
            self.wf(),
            valid_index(idx@, self.model().shape),
        ensures
            at == self.model().offset(idx@),
            at < self.model().data.len(),
    {
        proof {
            self.buf.lemma_len_bounded();
            lemma_valid_index_in_bounds(self.model(), idx@);
        }
        offset(idx, self.strides.as_slice())
    }

    /// The element at `idx`.
    ///
    /// Fails unless `idx` has one coordinate per dimension, each below the
    /// extent of its dimension.
    pub fn at(&self, idx: &[usize]) -> (r: Result<T, Error>)
        requires
            self.wf(),
        ensures
            r is Ok <==> valid_index(idx@, self.model().shape),
            r matches Ok(item) ==> item == self.model().element(idx@),
            r matches Err(e) ==> e.kind == ErrorKind::TensorError && e.message@
                == invalid_for_shape_text("index"@, idx@, self.model().shape),
    {
        if idx.len() != self.shape.len() {
            return Err(Error::invalid_for_shape("index", idx, self.shape.as_slice()));
        }
        let mut i: usize = 0;
        while i < idx.len()
            invariant
                idx.len() == self.shape.len(),
                i <= idx.len(),
                forall|j: int| 0 <= j < i ==> (#[trigger] idx[j]) < self.shape[j],
            decreases idx.len() - i,
        {
            if idx[i] >= self.shape[i] {
                return Err(Error::invalid_for_shape("index", idx, self.shape.as_slice()));
            }
            i += 1;
        }
        Ok(self.at_unchecked(idx))
    }

    /// The element at `idx`, which the caller guarantees to be a valid index.
    pub fn at_unchecked(&self, idx: &[usize]) -> (item: T)
        requires
            self.wf(),
            valid_index(idx@, self.model().shape),
        ensures
            item == self.model().element(idx@),
    {
        let at = self.buf_offset(idx);
        self.buf.get(at)
    }

    /// A fresh cursor at the first element. Each call gives a cursor of its
    /// own.
    pub fn iter<'b>(&'b self) -> (it: TensorIterator<'b, 'a, T>)
        requires
            self.wf(),
        ensures
            it.wf(),
            it.tensor() == self.model(),
            it.position() == 0,
    {
        TensorIterator::new(self)
    }

    /// Sees the same buffer through another shape.
    ///
    /// Fails where `shape` does not have as many elements as this tensor or
    /// has a row-major stride that does not fit in a `usize`, and where this
    /// tensor is not contiguous.
    pub fn view(self, shape: &[usize]) -> (r: Result<Self, Error>)
        requires
            self.wf(),
        ensures
            r is Ok <==> fits(self.model().len(), shape@) && self.model().is_contiguous(),
            r matches Ok(t) ==> {
                &&& t.model() == self.model().reshaped(shape@)
                &&& t.model().is_contiguous()
                &&& t.model().elements() == self.model().elements()
                &&& t.wf()
            },
            r matches Err(e) ==> {
                &&& e.kind == ErrorKind::TensorError
                &&& e.message@ == if fits(self.model().len(), shape@) {
                    "cannot view a non-contiguous tensor"@
                } else {
                    invalid_shape_text(shape@, self.model().len() as usize)
                }
            },
    {
        let len = self.len();
        let strides = match row_major_strides(shape) {
            Some(strides) => strides,
            None => {
                return Err(Error::invalid_shape(shape, len));
            },
        };
        if checked_element_count(shape) != Some(len) {
            return Err(Error::invalid_shape(shape, len));
        }
        if !self.is_contiguous() {
            return Err(Error::tensor("cannot view a non-contiguous tensor"));
        }
        proof {
            law_reshaped_elements(self.model(), shape@);
        }
        Ok(CpuTensor { buf: self.buf, shape: slice_to_vec(shape), strides, name: None })
    }

    /// Rearranges the axes: dimension `i` of the result is dimension
    /// `perm[i]` of this tensor. No element moves.
    ///
    /// Fails unless `perm` has one entry per dimension, each the number of
    /// an axis. Whether the entries are distinct is not looked at: where
    /// `perm` lists every axis exactly once the result is well formed; where
    /// it names an axis twice the result has that axis twice, and is well
    /// formed only if its indices still stay inside the buffer, which
    /// `is_well_formed` tells.
    pub fn transpose(self, perm: &[usize]) -> (r: Result<Self, Error>)
        requires
            self.model().strides_match(),
        ensures
            r is Ok <==> selects_axes(perm@, self.model().rank()),
            r matches Ok(t) ==> {
                &&& t.model() == self.model().transposed(perm@)
                &&& self.wf() && is_permutation(perm@, self.model().rank()) ==> t.wf()
            },
            r matches Err(e) ==> e.kind == ErrorKind::TensorError && e.message@
                == invalid_for_shape_text("transpose"@, perm@, self.model().shape),
    {
        let n = self.shape.len();
        if perm.len() != n {
            return Err(Error::invalid_for_shape("transpose", perm, self.shape.as_slice()));
        }
        let mut new_shape: Vec<usize> = Vec::new();
        let mut new_strides: Vec<usize> = Vec::new();
        let mut i: usize = 0;
        while i < n
            invariant
                n == self.shape.len(),
                n == self.strides.len(),
                n == perm.len(),
                forall|j: int| 0 <= j < i ==> (#[trigger] perm[j]) < n,
                i <= n,
                new_shape.len() == i,
                new_strides.len() == i,
                forall|j: int|
                    0 <= j < i ==> (#[trigger] new_shape[j]) == self.shape[perm[j] as int],
                forall|j: int|
                    0 <= j < i ==> (#[trigger] new_strides[j]) == self.strides[perm[j] as int],
            decreases n - i,
        {
            let dim = perm[i];
            if dim >= n {
                return Err(Error::invalid_for_shape("transpose", perm, self.shape.as_slice()));
            }
            new_shape.push(self.shape[dim]);
            new_strides.push(self.strides[dim]);
            i += 1;
        }
        proof {
            if self.wf() && is_permutation(perm@, n as nat) {
                lemma_transposed_wf(self.model(), perm@);
            }
            assert(new_shape@ =~= permuted(self.shape@, perm@));
            assert(new_strides@ =~= permuted(self.strides@, perm@));
        }
        Ok(CpuTensor { buf: self.buf, shape: new_shape, strides: new_strides, name: self.name })
    }

    /// Row `row` of the leading dimension as a tensor of its own.
    ///
    /// In a contiguous tensor the row gets exactly its own part of the
    /// buffer. In any other tensor it gets the buffer from its first element
    /// to the end, of which its strides address only what belongs to it. A
    /// borrowed buffer is borrowed again; an owned one is copied.
    ///
    /// Fails where the tensor has fewer than two dimensions, and where `row`
    /// is not below the extent of the leading dimension.
    pub fn subtensor(&self, row: usize) -> (r: Result<Self, Error>)
        requires
            self.wf(),
        ensures
            r is Ok <==> self.model().rank() > 1 && row < self.model().shape[0],
            r matches Ok(t) ==> t.model() == self.model().subtensor(row as int) && t.wf(),
            r matches Err(e) ==> {
                &&& e.kind == ErrorKind::TensorError
                &&& e.message@ == if self.model().rank() <= 1 {
                    "cannot subtensor a 1D tensor"@
                } else {
                    invalid_for_shape_text("row"@, seq![row], self.model().shape)
                }
            },
    {
        let n = self.shape.len();
        if n <= 1 {
            return Err(Error::tensor("cannot subtensor a 1D tensor"));
        }
        if row >= self.shape[0] {
            let mut rows: Vec<usize> = Vec::new();
            rows.push(row);
            assert(rows@ =~= seq![row]);
            return Err(Error::invalid_for_shape("row", rows.as_slice(), self.shape.as_slice()));
        }
        proof {
            self.buf.lemma_len_bounded();
            lemma_subtensor_wf(self.model(), row as int);
        }
        let stride = self.strides[0];
        let len = self.buf.len();
        let buf = if self.is_contiguous() {
            let start = row * stride;
            self.buf.slice(start, start + stride)
        } else {
            let start = match row.checked_mul(stride) {
                Some(start) => if start <= len {
                    start
                } else {
                    len
                },
                None => len,
            };
            self.buf.slice(start, len)
        };
        let shape = slice_to_vec(slice_subrange(self.shape.as_slice(), 1, n));
        let strides = slice_to_vec(slice_subrange(self.strides.as_slice(), 1, n));
        proof {
            assert(shape@ =~= self.shape@.skip(1));
            assert(strides@ =~= self.strides@.skip(1));
        }
        Ok(CpuTensor { buf, shape, strides, name: clone_name(&self.name) })
    }

    /// Every row of the leading dimension, in order.
    ///
    /// Fails where the tensor has no dimension, and where it has one
    /// dimension that is not empty: such a tensor has rows, and none of them
    /// is a tensor.
    pub fn subtensors(&self) -> (r: Result<Vec<CpuTensor<'a, T>>, Error>)
        requires
            self.wf(),
        ensures
            r is Ok <==> self.model().rank() > 1 || (self.model().rank() == 1
                && self.model().shape[0] == 0),
            r matches Ok(rows) ==> {
                &&& rows.len() == self.model().shape[0]
                &&& forall|i: int|
                    0 <= i < rows.len() ==> (#[trigger] rows[i]).model()
                        == self.model().subtensor(i) && rows[i].wf()
            },
            r matches Err(e) ==> e.kind == ErrorKind::TensorError && e.message@
                == "cannot subtensor a 1D tensor"@,
    {
        if self.shape.len() == 0 {
            return Err(Error::tensor("cannot subtensor a 1D tensor"));
        }
        let count = self.shape[0];
        let mut rows: Vec<CpuTensor<'a, T>> = Vec::new();
        let mut i: usize = 0;
        while i < count
            invariant
                self.wf(),
                self.model().rank() >= 1,
                count == self.model().shape[0],
                i <= count,
                rows.len() == i,
                i > 0 ==> self.model().rank() > 1,
                forall|j: int|
                    0 <= j < rows.len() ==> (#[trigger] rows[j]).model()
                        == self.model().subtensor(j) && rows[j].wf(),
            decreases count - i,
        {
            match self.subtensor(i) {
                Ok(row) => {
                    rows.push(row);
                },
                Err(e) => {
                    return Err(e);
                },
            }
            i += 1;
        }
        Ok(rows)
    }

    /// A contiguous tensor with the same elements in the same logical order.
    ///
    /// A tensor that is contiguous already is cloned. Any other is walked in
    /// row-major order and its elements are collected into an owned buffer.
    ///
    /// Fails where the tensor is not contiguous and its shape has a
    /// row-major stride that does not fit in a `usize`.
    pub fn contiguous(&self) -> (r: Result<Self, Error>)
        requires
            self.wf(),
        ensures
            r is Ok <==> self.model().is_contiguous() || representable(self.model().shape),
            r matches Ok(t) ==> {
                &&& t.model() == if self.model().is_contiguous() {
                    self.model()
                } else {
                    self.model().materialized()
                }
                &&& t.model().is_contiguous()
                &&& t.model().elements() == self.model().elements()
                &&& t.wf()
            },
            r matches Err(e) ==> e.kind == ErrorKind::TensorError && e.message@
                == invalid_shape_text(self.model().shape, self.model().len() as usize),
    {
        if self.is_contiguous() {
            return Ok(self.clone());
        }
        let items = self.iter().collect();
        proof {
            if representable(self.shape@) {
                law_materialized_elements(self.model());
            }
        }
        Self::new(Buffer::Owned(items), slice_to_vec(self.shape.as_slice()))
    }

    /// The buffer range of the chunk at `pos`, if `pos` fixes some but not
    /// all dimensions and the range lies inside the buffer.
    fn chunk_range(&self, pos: &[usize]) -> (r: Option<(usize, usize)>)
        requires
            self.model().strides_match(),
        ensures
            r is Some <==> 0 < pos.len() < self.model().rank() && self.model().chunk_end(pos@)
                <= self.model().data.len(),
            r matches Some((start, end)) ==> start == self.model().chunk_start(pos@) && end
                == self.model().chunk_end(pos@),
    {
        if pos.len() == 0 || pos.len() >= self.shape.len() {
            return None;
        }
        proof {
            self.buf.lemma_len_bounded();
            lemma_dot_nonnegative(pos@, self.strides@, 0);
        }
        let start = match checked_offset(pos, self.strides.as_slice()) {
            Some(start) => start,
            None => {
                return None;
            },
        };
        let end = match start.checked_add(self.strides[pos.len() - 1]) {
            Some(end) => end,
            None => {
                return None;
            },
        };
        if end > self.buf.len() {
            return None;
        }
        Some((start, end))
    }

    /// The chunk at `pos`: the block of the buffer that holds every element
    /// whose leading coordinates are `pos`.
    ///
    /// Fails unless the tensor is contiguous, `pos` fixes at least one
    /// dimension and leaves at least one free, and the block lies inside the
    /// buffer.
    pub fn ref_chunk(&self, pos: &[usize]) -> (r: Result<&[T], Error>)
        ensures
            r is Ok <==> self.model().has_chunk(pos@),
            r matches Ok(items) ==> items@ == self.model().chunk(pos@),
            r matches Err(e) ==> {
                &&& e.kind == ErrorKind::TensorError
                &&& e.message@ == if !self.model().is_contiguous() {
                    "tensor have to be contiguous to get chunk"@
                } else {
                    invalid_for_shape_text("chunk position"@, pos@, self.model().shape)
                }
            },
    {
        if !self.is_contiguous() {
            return Err(Error::tensor("tensor have to be contiguous to get chunk"));
        }
        match self.chunk_range(pos) {
            Some((start, end)) => {
                proof {
                    lemma_dot_nonnegative(pos@, self.strides@, 0);
                }
                Ok(slice_subrange(self.buf.as_slice(), start, end))
            },
            None => Err(Error::invalid_for_shape("chunk position", pos, self.shape.as_slice())),
        }
    }

    /// The chunk at `pos`, for writing.
    ///
    /// Fails where `ref_chunk` fails, and where the buffer is borrowed.
    pub fn mut_chunk(&mut self, pos: &[usize]) -> (r: Result<&mut [T], Error>)
        ensures
            r is Ok <==> old(self).model().has_chunk(pos@) && old(self).model().owned,
            r matches Ok(items) ==> {
                &&& items@ == old(self).model().chunk(pos@)
                &&& final(self).model() == old(self).model().with_chunk(pos@, final(items)@)
                &&& old(self).wf() && final(items)@.len() == items@.len() ==> final(self).wf()
            },
            r matches Err(e) ==> {
                &&& final(self).model() == old(self).model()
                &&& e.kind == ErrorKind::TensorError
                &&& e.message@ == if !old(self).model().is_contiguous() {
                    "tensor have to be contiguous to get chunk"@
                } else if !old(self).model().owned {
                    "only owned tensor can be mut"@
                } else {
                    invalid_for_shape_text(
                        "mut chunk position"@,
                        pos@,
                        old(self).model().shape,
                    )
                }
            },
    {
        if !self.is_contiguous() {
            return Err(Error::tensor("tensor have to be contiguous to get chunk"));
        }
        if !self.is_owned() {
            return Err(Error::tensor("only owned tensor can be mut"));
        }
        let (start, end) = match self.chunk_range(pos) {
            Some(range) => range,
            None => {
                return Err(
                    Error::invalid_for_shape("mut chunk position", pos, self.shape.as_slice()),
                );
            },
        };
        proof {
            lemma_dot_nonnegative(pos@, self.strides@, 0);
        }
        match &mut self.buf {
            Buffer::Borrowed(_) => Err(Error::tensor("can not mut a borrowed tensor")),
            Buffer::Owned(data) => {
                let (_, rest) = data.as_mut_slice().split_at_mut(start);
                let (items, _) = rest.split_at_mut(end - start);
                Ok(items)
            },
        }
    }

    /// Overwrites the chunk at `pos` with the buffer of `data`, element for
    /// element. The caller guarantees that the two have the same length.
    ///
    /// Fails where `mut_chunk` fails.
    pub fn copy_chunk(&mut self, pos: &[usize], data: &CpuTensor<'a, T>) -> (r: Result<(), Error>)
        requires
            ({
                let target = old(self).model();
                target.has_chunk(pos@) && target.owned ==> target.chunk(pos@).len()
                    == data.model().data.len()
            }),
        ensures
            r is Ok <==> old(self).model().has_chunk(pos@) && old(self).model().owned,
            r is Ok ==> final(self).model() == old(self).model().with_chunk(
                pos@,
                data.model().data,
            ),
            r matches Err(e) ==> {
                &&& final(self).model() == old(self).model()
                &&& e.kind == ErrorKind::TensorError
                &&& e.message@ == if !old(self).model().is_contiguous() {
                    "tensor have to be contiguous to get chunk"@
                } else if !old(self).model().owned {
                    "only owned tensor can be mut"@
                } else {
                    invalid_for_shape_text(
                        "mut chunk position"@,
                        pos@,
                        old(self).model().shape,
                    )
                }
            },
            old(self).wf() ==> final(self).wf(),
    {
        match self.mut_chunk(pos) {
            Ok(items) => {
                copy_items(items, data.ref_buf());
                Ok(())
            },
            Err(e) => Err(e),
        }
    }

    /// The text form of the tensor, with each element written by its own
    /// `Display`. Elements that the text elides are not formatted.
    pub fn to_string(&self) -> (text: String) where T: core::fmt::Display
        requires
            self.wf(),
        ensures
            exists|texts: Seq<String>| #[trigger]
                texts_of(self.model().elements(), self.model().shape, texts) && text@ == rendered(
                    self.model().shape,
                    texts,
                ),
    {
        let rank = self.shape.len();
        let extent = if rank > 0 {
            self.shape[rank - 1]
        } else {
            1
        };
        let ghost all = self.model().elements();
        let mut texts: Vec<String> = Vec::new();
        let mut it = self.iter();
        loop
            invariant
                self.wf(),
                it.wf(),
                it.tensor() == self.model(),
                all == self.model().elements(),
                rank == self.model().rank(),
                rank > 0 ==> extent == self.model().shape.last(),
                texts.len() == it.position(),
                it.position() <= all.len(),
                forall|pos: int|
                    0 <= pos < texts.len() && is_shown(self.model().shape, pos)
                        ==> to_string_from_display_ensures::<T>(&all[pos], #[trigger] texts[pos]),
            ensures
                texts.len() == all.len(),
            decreases all.len() - it.position(),
        {
            let pos = texts.len();
            match it.next() {
                Some(item) => {
                    proof {
                        lemma_element_count_positive(self.model().shape);
                    }
                    if rank > 0 && pos % extent < ROW_LIMIT {
                        texts.push(item.to_string());
                    } else {
                        texts.push(String::new());
                    }
                },
                None => {
                    break ;
                },
            }
        }
        assert(texts_of(all, self.model().shape, texts@));
        render(self.shape.as_slice(), texts.as_slice())
    }
}

impl<'a, T: Copy> Clone for CpuTensor<'a, T> {
    /// A tensor equal to this one. A borrowed buffer is borrowed again; an
    /// owned one is copied.
    fn clone(&self) -> (t: Self)
        ensures
            t.model() == self.model(),
    {
        CpuTensor {
            buf: self.buf.clone(),
            shape: slice_to_vec(self.shape.as_slice()),
            strides: slice_to_vec(self.strides.as_slice()),
            name: clone_name(&self.name),
        }
    }
}

/// A copy of a label.
fn clone_name(name: &Option<String>) -> (copy: Option<String>)
    ensures
        copy == *name,
{
    match name {
        Some(name) => Some(name.clone()),
        None => None,
    }
}

/// Overwrites `to` with `from`, element for element.
fn copy_items<T: Copy>(to: &mut [T], from: &[T])
    requires
        old(to)@.len() == from@.len(),
    ensures
        final(to)@ == from@,
{
    let n = to.len();
    let mut i: usize = 0;
    while i < n
        invariant
            n == to@.len(),
            n == from@.len(),
            i <= n,
            forall|j: int| 0 <= j < i ==> to@[j] == from@[j],
        decreases n - i,
    {
        to[i] = from[i];
        i += 1;
    }
    assert(to@ =~= from@);
}

} // verus!
