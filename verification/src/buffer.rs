//! The storage behind a tensor: memory lent by the caller, or memory the
//! tensor owns.

use vstd::prelude::*;
use vstd::slice::slice_subrange;
use vstd::slice::slice_to_vec;

verus! {

/// Either a read-only borrow of elements that live elsewhere, or an owned
/// vector of elements that may be written.
#[derive(Debug)]
pub enum Buffer<'a, T> {
    Borrowed(&'a [T]),
    Owned(Vec<T>),
}

impl<'a, T> View for Buffer<'a, T> {
    type V = Seq<T>;

    /// The elements, whoever owns them.
    open spec fn view(&self) -> Seq<T> {
        match self {
            Buffer::Borrowed(items) => items@,
            Buffer::Owned(items) => items@,
        }
    }
}

impl<'a, T> Buffer<'a, T> {
    /// A buffer never holds more elements than a `usize` can count.
    pub proof fn lemma_len_bounded(self)
        ensures
            self@.len() <= usize::MAX,
    {
        match self {
            Buffer::Borrowed(items) => {
                assert(items.len() == items@.len());
            },
            Buffer::Owned(items) => {
                assert(items.len() == items@.len());
            },
        }
    }
}

impl<'a, T: Copy> Clone for Buffer<'a, T> {
    /// A borrow is borrowed again; owned elements are copied.
    fn clone(&self) -> (r: Self)
        ensures
            r@ == self@,
            r is Owned <==> self is Owned,
    {
        match self {
            Buffer::Borrowed(items) => Buffer::Borrowed(*items),
            Buffer::Owned(items) => Buffer::Owned(slice_to_vec(items.as_slice())),
        }
    }
}

impl<'a, T: Copy> Buffer<'a, T> {
    /// The number of elements.
    pub fn len(&self) -> (n: usize)
        ensures
            n == self@.len(),
    {
        match self {
            Buffer::Borrowed(items) => items.len(),
            Buffer::Owned(items) => items.len(),
        }
    }

    /// Whether the elements belong to this buffer.
    pub fn is_owned(&self) -> (owned: bool)
        ensures
            owned <==> self is Owned,
    {
        match self {
            Buffer::Borrowed(_) => false,
            Buffer::Owned(_) => true,
        }
    }

    /// The elements as a slice.
    pub fn as_slice(&self) -> (items: &[T])
        ensures
            items@ == self@,
    {
        match self {
            Buffer::Borrowed(items) => *items,
            Buffer::Owned(items) => items.as_slice(),
        }
    }

    /// The element at `at`.
    pub fn get(&self, at: usize) -> (item: T)
        requires
            at < self@.len(),
        ensures
            item == self@[at as int],
    {
        match self {
            Buffer::Borrowed(items) => items[at],
            Buffer::Owned(items) => items[at],
        }
    }

    /// The elements `start..end` as a buffer of the same kind: a borrow of
    /// the same memory, or an owned copy.
    pub fn slice(&self, start: usize, end: usize) -> (part: Buffer<'a, T>)
        requires
            start <= end <= self@.len(),
        ensures
            part@ == self@.subrange(start as int, end as int),
            part is Owned <==> self is Owned,
    {
        match self {
            Buffer::Borrowed(items) => Buffer::Borrowed(slice_subrange(*items, start, end)),
            Buffer::Owned(items) => Buffer::Owned(
                slice_to_vec(slice_subrange(items.as_slice(), start, end)),
            ),
        }
    }
}

/// The number of elements of `element_size` bytes each that a run of
/// `byte_len` bytes holds, or `None` where the bytes are not a whole number
/// of elements.
///
/// A caller that reads a tensor out of raw bytes has to ask this before it
/// takes the bytes for elements.
pub fn whole_elements(byte_len: usize, element_size: usize) -> (count: Option<usize>)
    ensures
        count == if element_size > 0 && byte_len % element_size == 0 {
            Some((byte_len / element_size) as usize)
        } else {
            None
        },
{
    if element_size == 0 || byte_len % element_size != 0 {
        None
    } else {
        Some(byte_len / element_size)
    }
}

} // verus!
