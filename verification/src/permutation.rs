//! Axis permutations, and the sums and products that they leave unchanged.

use vstd::prelude::*;
use vstd::arithmetic::mul::*;
use crate::layout::{
    all_positive, dot_from, extent_from, last_offset, lemma_dot_skip_one,
    lemma_suffix_product_skip, suffix_product,
};

verus! {

/// `perm` names one of the axes `0..n` for each of `n` positions. It may name
/// an axis more than once.
pub open spec fn selects_axes(perm: Seq<usize>, n: nat) -> bool {
    &&& perm.len() == n
    &&& forall|i: int| 0 <= i < perm.len() ==> (#[trigger] perm[i]) < n
}

/// `perm` lists each of `0..n` exactly once.
pub open spec fn is_permutation(perm: Seq<usize>, n: nat) -> bool {
    &&& perm.len() == n
    &&& forall|i: int| 0 <= i < perm.len() ==> (#[trigger] perm[i]) < n
    &&& forall|i: int, j: int|
        0 <= i < perm.len() && 0 <= j < perm.len() && i != j ==> (#[trigger] perm[i])
            != (#[trigger] perm[j])
}

/// `s` rearranged by `perm`: position `i` takes what `s` held at `perm[i]`.
pub open spec fn permuted(s: Seq<usize>, perm: Seq<usize>) -> Seq<usize> {
    Seq::new(perm.len(), |i: int| s[perm[i] as int])
}

/// The permutation that leaves every axis in place.
pub open spec fn identity(n: nat) -> Seq<usize> {
    Seq::new(n, |i: int| i as usize)
}

/// `back` undoes `perm`: rearranging by `perm` and then by `back` puts every
/// item where it was.
pub open spec fn inverts(back: Seq<usize>, perm: Seq<usize>) -> bool {
    &&& back.len() == perm.len()
    &&& forall|i: int|
        0 <= i < back.len() ==> (#[trigger] back[i]) < perm.len() && perm[back[i] as int] == i
}

/// What is left of `perm` once its first entry is taken out of both the
/// positions and the values.
spec fn without_first(perm: Seq<usize>) -> Seq<usize> {
    Seq::new(
        (perm.len() - 1) as nat,
        |i: int|
            if perm[i + 1] < perm[0] {
                perm[i + 1]
            } else {
                (perm[i + 1] - 1) as usize
            },
    )
}

/// Taking the first entry out of a permutation leaves a permutation of one
/// item less, which rearranges `s` without that item as `perm` rearranges
/// `s` behind its first position.
proof fn lemma_without_first(s: Seq<usize>, perm: Seq<usize>)
    requires
        is_permutation(perm, s.len()),
        s.len() > 0,
    ensures
        is_permutation(without_first(perm), (s.len() - 1) as nat),
        permuted(s.remove(perm[0] as int), without_first(perm)) == permuted(s, perm).skip(1),
{
    let k = perm[0];
    let rest = without_first(perm);
    assert forall|i: int| 0 <= i < rest.len() implies (#[trigger] rest[i]) < s.len() - 1 by {
        assert(perm[i + 1] != perm[0]);
        assert(perm[i + 1] < s.len());
    }
    assert forall|i: int, j: int| 0 <= i < rest.len() && 0 <= j < rest.len() && i != j implies (
    #[trigger] rest[i]) != (#[trigger] rest[j]) by {
        assert(perm[i + 1] != perm[j + 1]);
        assert(perm[i + 1] != perm[0]);
        assert(perm[j + 1] != perm[0]);
    }
    assert forall|i: int| 0 <= i < rest.len() implies s.remove(k as int)[rest[i] as int] == s[perm[i
        + 1] as int] by {
        assert(perm[i + 1] != perm[0]);
        assert(perm[i + 1] < s.len());
    }
    assert(permuted(s.remove(k as int), rest) =~= permuted(s, perm).skip(1));
}

/// Behind an extent that was taken out, the suffix products are those of the
/// next position in the whole shape.
proof fn lemma_product_after_removed(s: Seq<usize>, k: int, from: int)
    requires
        0 <= k <= from,
        k < s.len(),
    ensures
        suffix_product(s.remove(k), from) == suffix_product(s, from + 1),
    decreases s.len() - from,
{
    if from < s.len() - 1 {
        lemma_product_after_removed(s, k, from + 1);
    }
}

/// Taking one extent out of a shape divides its suffix products by it.
proof fn lemma_product_remove(s: Seq<usize>, k: int, from: int)
    requires
        0 <= from <= k < s.len(),
    ensures
        suffix_product(s, from) == s[k] * suffix_product(s.remove(k), from),
    decreases k - from,
{
    if from == k {
        lemma_product_after_removed(s, k, k);
    } else {
        lemma_product_remove(s, k, from + 1);
        let a = s[from] as int;
        let b = s[k] as int;
        let c = suffix_product(s.remove(k), from + 1) as int;
        assert(s.remove(k)[from] == s[from]);
        assert(a * (b * c) == b * (a * c)) by (nonlinear_arith);
    }
}

/// The product of the extents does not depend on the order of the axes.
pub proof fn lemma_product_permuted(s: Seq<usize>, perm: Seq<usize>)
    requires
        is_permutation(perm, s.len()),
    ensures
        suffix_product(permuted(s, perm), 0) == suffix_product(s, 0),
    decreases s.len(),
{
    if s.len() > 0 {
        let k = perm[0] as int;
        let t = permuted(s, perm);
        lemma_without_first(s, perm);
        lemma_product_permuted(s.remove(k), without_first(perm));
        lemma_suffix_product_skip(t, 1, 0);
        lemma_product_remove(s, k, 0);
        assert(t[0] == s[k]);
    }
}

/// Behind a coordinate that was taken out, the partial offsets are those of
/// the next position in the whole index.
proof fn lemma_dot_after_removed(a: Seq<usize>, b: Seq<usize>, k: int, from: int)
    requires
        a.len() == b.len(),
        0 <= k <= from,
        k < a.len(),
    ensures
        dot_from(a.remove(k), b.remove(k), from) == dot_from(a, b, from + 1),
    decreases a.len() - from,
{
    if from < a.len() - 1 {
        lemma_dot_after_removed(a, b, k, from + 1);
    }
}

/// Taking one coordinate out of an index and its stride out of the strides
/// takes their product out of the offset.
proof fn lemma_dot_remove(a: Seq<usize>, b: Seq<usize>, k: int, from: int)
    requires
        a.len() == b.len(),
        0 <= from <= k < a.len(),
    ensures
        dot_from(a, b, from) == a[k] * b[k] + dot_from(a.remove(k), b.remove(k), from),
    decreases k - from,
{
    if from == k {
        lemma_dot_after_removed(a, b, k, k);
    } else {
        lemma_dot_remove(a, b, k, from + 1);
        assert(a.remove(k)[from] == a[from]);
        assert(b.remove(k)[from] == b[from]);
    }
}

/// An offset does not change when the index and the strides are rearranged
/// by the same permutation.
pub proof fn lemma_dot_permuted(a: Seq<usize>, b: Seq<usize>, perm: Seq<usize>)
    requires
        a.len() == b.len(),
        is_permutation(perm, a.len()),
    ensures
        dot_from(permuted(a, perm), permuted(b, perm), 0) == dot_from(a, b, 0),
    decreases a.len(),
{
    if a.len() > 0 {
        let k = perm[0] as int;
        lemma_without_first(a, perm);
        lemma_without_first(b, perm);
        lemma_dot_permuted(a.remove(k), b.remove(k), without_first(perm));
        lemma_dot_skip_one(permuted(a, perm), permuted(b, perm), 0);
        lemma_dot_remove(a, b, k, 0);
        assert(permuted(a, perm)[0] == a[k]);
        assert(permuted(b, perm)[0] == b[k]);
    }
}

/// Each extent less one: the largest coordinate of each dimension.
spec fn largest_index(shape: Seq<usize>) -> Seq<usize> {
    Seq::new(shape.len(), |i: int| (shape[i] - 1) as usize)
}

/// The last offset of a shape is the offset of its largest index.
proof fn lemma_extent_is_dot(shape: Seq<usize>, strides: Seq<usize>, from: int)
    requires
        all_positive(shape),
        strides.len() == shape.len(),
    ensures
        extent_from(shape, strides, from) == dot_from(largest_index(shape), strides, from),
    decreases shape.len() - from,
{
    if 0 <= from < shape.len() {
        lemma_extent_is_dot(shape, strides, from + 1);
    }
}

/// The last offset does not change when the shape and the strides are
/// rearranged by the same permutation.
pub proof fn lemma_last_offset_permuted(shape: Seq<usize>, strides: Seq<usize>, perm: Seq<usize>)
    requires
        all_positive(shape),
        strides.len() == shape.len(),
        is_permutation(perm, shape.len()),
    ensures
        all_positive(permuted(shape, perm)),
        last_offset(permuted(shape, perm), permuted(strides, perm)) == last_offset(shape, strides),
{
    let shape2 = permuted(shape, perm);
    let strides2 = permuted(strides, perm);
    assert forall|i: int| 0 <= i < shape2.len() implies #[trigger] shape2[i] > 0 by {
        assert(shape[perm[i] as int] > 0);
    }
    lemma_extent_is_dot(shape, strides, 0);
    lemma_extent_is_dot(shape2, strides2, 0);
    lemma_dot_permuted(largest_index(shape), strides, perm);
    assert(permuted(largest_index(shape), perm) =~= largest_index(shape2));
}

/// The identity lists each axis once and rearranges nothing.
pub proof fn lemma_identity(s: Seq<usize>)
    requires
        s.len() <= usize::MAX,
    ensures
        is_permutation(identity(s.len()), s.len()),
        permuted(s, identity(s.len())) == s,
        inverts(identity(s.len()), identity(s.len())),
{
    assert(permuted(s, identity(s.len())) =~= s);
}

/// What undoes a permutation is a permutation, and rearranging by one and
/// then by the other changes nothing.
pub proof fn lemma_inverts(s: Seq<usize>, perm: Seq<usize>, back: Seq<usize>)
    requires
        perm.len() == s.len(),
        inverts(back, perm),
    ensures
        is_permutation(back, s.len()),
        permuted(permuted(s, perm), back) == s,
{
    assert forall|i: int, j: int|
        0 <= i < back.len() && 0 <= j < back.len() && i != j implies (#[trigger] back[i]) != (
    #[trigger] back[j]) by {
        assert(perm[back[i] as int] == i);
        assert(perm[back[j] as int] == j);
    }
    assert(permuted(permuted(s, perm), back) =~= s);
}

} // verus!
