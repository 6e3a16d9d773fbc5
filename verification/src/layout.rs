//! Shape and stride arithmetic, stated over mathematical sequences.
//!
//! A shape lists the extent of each dimension. A stride list says how many
//! buffer elements one step along each dimension skips. Everything here is
//! independent of what the buffer holds.

use vstd::prelude::*;
use vstd::arithmetic::div_mod::*;
use vstd::arithmetic::mul::*;

verus! {

/// The product of the extents `shape[from..]`; 1 when no dimension is left.
pub open spec fn suffix_product(shape: Seq<usize>, from: int) -> nat
    decreases shape.len() - from,
{
    if 0 <= from < shape.len() {
        (shape[from] as nat) * suffix_product(shape, from + 1)
    } else {
        1
    }
}

/// The number of logical elements of a tensor of this shape.
pub open spec fn element_count(shape: Seq<usize>) -> nat {
    suffix_product(shape, 0)
}

/// Every extent is at least 1.
pub open spec fn all_positive(shape: Seq<usize>) -> bool {
    forall|i: int| 0 <= i < shape.len() ==> #[trigger] shape[i] > 0
}

/// Every row-major stride of `shape` fits in a `usize`.
pub open spec fn representable(shape: Seq<usize>) -> bool {
    forall|i: int| 0 <= i < shape.len() ==> #[trigger] suffix_product(shape, i + 1) <= usize::MAX
}

/// A buffer of `len` elements and a shape make a tensor exactly when the
/// buffer holds as many elements as the shape has and every row-major stride
/// of the shape fits in a `usize`.
pub open spec fn fits(len: nat, shape: Seq<usize>) -> bool {
    len == element_count(shape) && representable(shape)
}

/// The row-major strides of `shape`: each stride is the product of the extents
/// behind it, so the last one is 1.
pub open spec fn row_major(shape: Seq<usize>) -> Seq<usize> {
    Seq::new(shape.len(), |i: int| suffix_product(shape, i + 1) as usize)
}

/// `strides` is the contiguous layout of `shape`: the last stride is 1 and each
/// other stride is the next stride times the next extent. A shape without
/// dimensions is contiguous.
pub open spec fn contiguous(shape: Seq<usize>, strides: Seq<usize>) -> bool {
    &&& strides.len() == shape.len()
    &&& shape.len() > 0 ==> strides[shape.len() - 1] == 1
    &&& forall|i: int|
        0 <= i < shape.len() - 1 ==> (#[trigger] strides[i]) == strides[i + 1] * shape[i + 1]
}

/// `index` names an element of a tensor of this shape: one coordinate per
/// dimension, each below its extent.
pub open spec fn valid_index(index: Seq<usize>, shape: Seq<usize>) -> bool {
    &&& index.len() == shape.len()
    &&& forall|i: int| 0 <= i < index.len() ==> (#[trigger] index[i]) < shape[i]
}

/// The sum of `index[i] * strides[i]` over the coordinates from `from` on.
pub open spec fn dot_from(index: Seq<usize>, strides: Seq<usize>, from: int) -> int
    decreases index.len() - from,
{
    if 0 <= from < index.len() {
        index[from] * strides[from] + dot_from(index, strides, from + 1)
    } else {
        0
    }
}

/// The buffer offset that `index` addresses under `strides`. `index` may be
/// shorter than `strides`: it then addresses the start of a block.
pub open spec fn offset_of(index: Seq<usize>, strides: Seq<usize>) -> int {
    dot_from(index, strides, 0)
}

/// The sum of `(shape[i] - 1) * strides[i]` over the dimensions from `from`
/// on: for a shape with positive extents, the largest offset any index reaches.
pub open spec fn extent_from(shape: Seq<usize>, strides: Seq<usize>, from: int) -> int
    decreases shape.len() - from,
{
    if 0 <= from < shape.len() {
        (shape[from] - 1) * strides[from] + extent_from(shape, strides, from + 1)
    } else {
        0
    }
}

/// The largest offset that a valid index of `shape` reaches under `strides`.
pub open spec fn last_offset(shape: Seq<usize>, strides: Seq<usize>) -> int {
    extent_from(shape, strides, 0)
}

/// The row-major position of `index` among the indices of `shape`, counted
/// from the coordinate `from` on.
pub open spec fn linear_from(index: Seq<usize>, shape: Seq<usize>, from: int) -> int
    decreases index.len() - from,
{
    if 0 <= from < index.len() {
        index[from] * suffix_product(shape, from + 1) + linear_from(index, shape, from + 1)
    } else {
        0
    }
}

/// The row-major position of `index`: dimension 0 varies slowest, the last
/// dimension fastest.
pub open spec fn linear_index(index: Seq<usize>, shape: Seq<usize>) -> int {
    linear_from(index, shape, 0)
}

/// Coordinate `i` of the element at row-major position `pos`.
pub open spec fn coordinate(pos: nat, shape: Seq<usize>, i: int) -> nat {
    (pos / suffix_product(shape, i + 1)) % (shape[i] as nat)
}

/// The multi-index of the element at row-major position `pos`.
pub open spec fn unravel(pos: nat, shape: Seq<usize>) -> Seq<usize> {
    Seq::new(shape.len(), |i: int| coordinate(pos, shape, i) as usize)
}

/// Computes the row-major strides of `shape`, or `None` where one of them
/// does not fit in a `usize`.
pub fn row_major_strides(shape: &[usize]) -> (r: Option<Vec<usize>>)
    ensures
        r is Some <==> representable(shape@),
        r matches Some(strides) ==> strides@ == row_major(shape@),
{
    let n = shape.len();
    let mut strides: Vec<usize> = Vec::new();
    while strides.len() < n
        invariant
            strides.len() <= n,
        decreases n - strides.len(),
    {
        strides.push(1);
    }
    let mut acc: usize = 1;
    let mut i = n;
    while i > 0
        invariant
            n == shape.len(),
            strides.len() == n,
            i <= n,
            i > 0 ==> acc == suffix_product(shape@, i as int),
            forall|j: int| i <= j < n ==> (#[trigger] strides[j]) == suffix_product(shape@, j + 1),
        decreases i,
    {
        i -= 1;
        strides.set(i, acc);
        if i > 0 {
            match shape[i].checked_mul(acc) {
                Some(next) => {
                    acc = next;
                },
                None => {
                    assert(suffix_product(shape@, (i - 1) + 1) > usize::MAX);
                    return None;
                },
            }
        }
    }
    proof {
        assert forall|j: int| 0 <= j < n implies #[trigger] suffix_product(shape@, j + 1)
            <= usize::MAX by {
            assert(strides[j] == suffix_product(shape@, j + 1));
        }
        assert(strides@ =~= row_major(shape@));
    }
    Some(strides)
}

/// Computes the number of elements of `shape`, or `None` where it exceeds
/// what a `usize` can hold. A shape with an extent of 0 has no elements,
/// however large its other extents are.
pub fn checked_element_count(shape: &[usize]) -> (r: Option<usize>)
    ensures
        r == if element_count(shape@) <= usize::MAX {
            Some(element_count(shape@) as usize)
        } else {
            None
        },
{
    let n = shape.len();
    let mut k: usize = 0;
    while k < n
        invariant
            n == shape.len(),
            k <= n,
            forall|j: int| 0 <= j < k ==> #[trigger] shape[j] > 0,
        decreases n - k,
    {
        if shape[k] == 0 {
            proof {
                lemma_suffix_product_zero(shape@, 0, k as int);
            }
            return Some(0);
        }
        k += 1;
    }
    let mut acc: usize = 1;
    let mut i = n;
    while i > 0
        invariant
            n == shape.len(),
            i <= n,
            all_positive(shape@),
            acc == suffix_product(shape@, i as int),
        decreases i,
    {
        i -= 1;
        match shape[i].checked_mul(acc) {
            Some(next) => {
                acc = next;
            },
            None => {
                proof {
                    lemma_suffix_product_monotone(shape@, 0, i as int);
                }
                return None;
            },
        }
    }
    Some(acc)
}

/// Decides whether `strides` is the contiguous layout of `shape`.
pub fn is_contiguous_layout(shape: &[usize], strides: &[usize]) -> (r: bool)
    ensures
        r == contiguous(shape@, strides@),
{
    let n = shape.len();
    if strides.len() != n {
        return false;
    }
    if n == 0 {
        return true;
    }
    if strides[n - 1] != 1 {
        return false;
    }
    let mut i = n - 1;
    while i > 0
        invariant
            n == shape.len(),
            n == strides.len(),
            i < n,
            strides[n - 1] == 1,
            forall|j: int|
                i <= j < n - 1 ==> (#[trigger] strides[j]) == strides[j + 1] * shape[j + 1],
        decreases i,
    {
        match strides[i].checked_mul(shape[i]) {
            Some(expected) => {
                if strides[i - 1] != expected {
                    assert(strides[i - 1] != strides[(i - 1) + 1] * shape[(i - 1) + 1]);
                    return false;
                }
            },
            None => {
                assert(strides[i - 1] != strides[(i - 1) + 1] * shape[(i - 1) + 1]);
                return false;
            },
        }
        i -= 1;
    }
    true
}

/// Computes the largest offset that a valid index of `shape` reaches under
/// `strides`, or `None` where it exceeds what a `usize` can hold.
pub fn checked_last_offset(shape: &[usize], strides: &[usize]) -> (r: Option<usize>)
    requires
        strides.len() == shape.len(),
        all_positive(shape@),
    ensures
        last_offset(shape@, strides@) >= 0,
        r == if last_offset(shape@, strides@) <= usize::MAX {
            Some(last_offset(shape@, strides@) as usize)
        } else {
            None
        },
{
    proof {
        lemma_extent_nonnegative(shape@, strides@, 0);
    }
    let mut acc: usize = 0;
    let mut i: usize = 0;
    while i < shape.len()
        invariant
            strides.len() == shape.len(),
            all_positive(shape@),
            i <= shape.len(),
            acc + extent_from(shape@, strides@, i as int) == last_offset(shape@, strides@),
        decreases shape.len() - i,
    {
        proof {
            lemma_extent_nonnegative(shape@, strides@, i as int);
            lemma_extent_nonnegative(shape@, strides@, i + 1);
        }
        let term = match (shape[i] - 1).checked_mul(strides[i]) {
            Some(term) => term,
            None => {
                return None;
            },
        };
        acc = match acc.checked_add(term) {
            Some(sum) => sum,
            None => {
                return None;
            },
        };
        i += 1;
    }
    Some(acc)
}

/// Computes the offset that `index` addresses under `strides`.
pub fn offset(index: &[usize], strides: &[usize]) -> (r: usize)
    requires
        index.len() <= strides.len(),
        offset_of(index@, strides@) <= usize::MAX,
    ensures
        r == offset_of(index@, strides@),
{
    let mut acc: usize = 0;
    let mut i: usize = 0;
    while i < index.len()
        invariant
            i <= index.len() <= strides.len(),
            acc + dot_from(index@, strides@, i as int) == offset_of(index@, strides@),
            offset_of(index@, strides@) <= usize::MAX,
        decreases index.len() - i,
    {
        proof {
            lemma_dot_nonnegative(index@, strides@, i as int);
            lemma_dot_nonnegative(index@, strides@, i + 1);
        }
        acc = acc + index[i] * strides[i];
        i += 1;
    }
    acc
}

/// Computes the offset that `index` addresses under `strides`, or `None`
/// where it exceeds what a `usize` can hold.
pub fn checked_offset(index: &[usize], strides: &[usize]) -> (r: Option<usize>)
    requires
        index.len() <= strides.len(),
    ensures
        r == if offset_of(index@, strides@) <= usize::MAX {
            Some(offset_of(index@, strides@) as usize)
        } else {
            None
        },
{
    let mut acc: usize = 0;
    let mut i: usize = 0;
    while i < index.len()
        invariant
            i <= index.len() <= strides.len(),
            acc + dot_from(index@, strides@, i as int) == offset_of(index@, strides@),
        decreases index.len() - i,
    {
        proof {
            lemma_dot_nonnegative(index@, strides@, i as int);
            lemma_dot_nonnegative(index@, strides@, i + 1);
        }
        let term = match index[i].checked_mul(strides[i]) {
            Some(term) => term,
            None => {
                return None;
            },
        };
        acc = match acc.checked_add(term) {
            Some(sum) => sum,
            None => {
                return None;
            },
        };
        i += 1;
    }
    Some(acc)
}

/// A suffix product is 0 as soon as one of its extents is 0.
pub proof fn lemma_suffix_product_zero(shape: Seq<usize>, from: int, at: int)
    requires
        0 <= from <= at < shape.len(),
        shape[at] == 0,
    ensures
        suffix_product(shape, from) == 0,
    decreases at - from,
{
    if from < at {
        lemma_suffix_product_zero(shape, from + 1, at);
    }
    lemma_mul_basics(shape[from] as int);
}

/// A suffix product of positive extents is positive, and it does not shrink
/// when more extents are taken in.
pub proof fn lemma_suffix_product_positive(shape: Seq<usize>, from: int)
    requires
        forall|i: int| from <= i < shape.len() && 0 <= i ==> #[trigger] shape[i] > 0,
    ensures
        suffix_product(shape, from) >= 1,
        0 <= from < shape.len() ==> suffix_product(shape, from) >= suffix_product(shape, from + 1),
    decreases shape.len() - from,
{
    if 0 <= from < shape.len() {
        lemma_suffix_product_positive(shape, from + 1);
        let rest = suffix_product(shape, from + 1) as int;
        let d = shape[from] as int;
        assert(d * rest >= rest) by (nonlinear_arith)
            requires
                d >= 1,
                rest >= 1,
        ;
    }
}

/// With positive extents, a longer suffix has the larger product.
pub proof fn lemma_suffix_product_monotone(shape: Seq<usize>, from: int, to: int)
    requires
        all_positive(shape),
        0 <= from <= to,
    ensures
        suffix_product(shape, from) >= suffix_product(shape, to) >= 1,
    decreases to - from,
{
    lemma_suffix_product_positive(shape, to);
    if from < to {
        lemma_suffix_product_monotone(shape, from + 1, to);
        lemma_suffix_product_positive(shape, from);
    }
}

/// A shape has elements exactly when none of its extents is 0.
pub proof fn lemma_element_count_positive(shape: Seq<usize>)
    ensures
        element_count(shape) > 0 <==> all_positive(shape),
{
    if all_positive(shape) {
        lemma_suffix_product_positive(shape, 0);
    } else {
        let at = choose|i: int| 0 <= i < shape.len() && !(#[trigger] shape[i] > 0);
        lemma_suffix_product_zero(shape, 0, at);
    }
}

/// A shape that has elements, no more than a `usize` can count, has
/// representable strides.
pub proof fn lemma_counted_is_representable(shape: Seq<usize>)
    requires
        0 < element_count(shape) <= usize::MAX,
    ensures
        representable(shape),
{
    lemma_element_count_positive(shape);
    assert forall|i: int| 0 <= i < shape.len() implies #[trigger] suffix_product(shape, i + 1)
        <= usize::MAX by {
        lemma_suffix_product_monotone(shape, 0, i + 1);
    }
}

/// Dropping the leading dimensions shifts the suffix products.
pub proof fn lemma_suffix_product_skip(shape: Seq<usize>, k: int, from: int)
    requires
        0 <= k <= shape.len(),
        0 <= from,
    ensures
        suffix_product(shape.skip(k), from) == suffix_product(shape, from + k),
    decreases shape.len() - k - from,
{
    if from < shape.len() - k {
        lemma_suffix_product_skip(shape, k, from + 1);
    }
}

/// The contiguous layout of a shape is its row-major stride list, and it
/// exists only where those strides are representable.
pub proof fn lemma_contiguous_is_row_major(shape: Seq<usize>, strides: Seq<usize>)
    ensures
        contiguous(shape, strides) <==> representable(shape) && strides == row_major(shape),
{
    if contiguous(shape, strides) {
        lemma_contiguous_suffix(shape, strides, 0);
        assert forall|i: int| 0 <= i < shape.len() implies #[trigger] suffix_product(shape, i + 1)
            <= usize::MAX by {
            assert(strides[i] == suffix_product(shape, i + 1));
        }
        assert(strides =~= row_major(shape));
    }
    if representable(shape) && strides == row_major(shape) {
        let n = shape.len() as int;
        if n > 0 {
            assert(suffix_product(shape, (n - 1) + 1) == 1);
            assert(strides[n - 1] == 1);
        }
        assert forall|i: int| 0 <= i < n - 1 implies (#[trigger] strides[i]) == strides[i + 1]
            * shape[i + 1] by {
            assert(suffix_product(shape, i + 1) <= usize::MAX);
            assert(suffix_product(shape, (i + 1) + 1) <= usize::MAX);
            lemma_mul_is_commutative(strides[i + 1] as int, shape[i + 1] as int);
        }
    }
}

/// In a contiguous layout every stride from `from` on is a suffix product.
proof fn lemma_contiguous_suffix(shape: Seq<usize>, strides: Seq<usize>, from: int)
    requires
        contiguous(shape, strides),
        0 <= from,
    ensures
        forall|i: int|
            from <= i < shape.len() ==> (#[trigger] strides[i]) == suffix_product(shape, i + 1),
    decreases shape.len() - from,
{
    if from < shape.len() {
        lemma_contiguous_suffix(shape, strides, from + 1);
        if from < shape.len() - 1 {
            lemma_mul_is_commutative(strides[from + 1] as int, shape[from + 1] as int);
        }
    }
}

/// Sums of products of unsigned numbers are not negative.
pub proof fn lemma_dot_nonnegative(index: Seq<usize>, strides: Seq<usize>, from: int)
    requires
        index.len() <= strides.len(),
    ensures
        dot_from(index, strides, from) >= 0,
        0 <= from < index.len() ==> dot_from(index, strides, from) >= index[from] * strides[from]
            >= 0,
        0 <= from < index.len() ==> dot_from(index, strides, from) >= dot_from(
            index,
            strides,
            from + 1,
        ),
    decreases index.len() - from,
{
    if 0 <= from < index.len() {
        lemma_dot_nonnegative(index, strides, from + 1);
        lemma_mul_nonnegative(index[from] as int, strides[from] as int);
    }
}

/// A valid index never reaches beyond the last offset of its shape.
pub proof fn lemma_offset_within_extent(
    index: Seq<usize>,
    shape: Seq<usize>,
    strides: Seq<usize>,
    from: int,
)
    requires
        valid_index(index, shape),
        strides.len() == shape.len(),
        0 <= from,
    ensures
        0 <= dot_from(index, strides, from) <= extent_from(shape, strides, from),
    decreases index.len() - from,
{
    if from < index.len() {
        lemma_offset_within_extent(index, shape, strides, from + 1);
        lemma_mul_nonnegative(index[from] as int, strides[from] as int);
        lemma_mul_inequality(index[from] as int, shape[from] - 1, strides[from] as int);
    }
}

/// Under the contiguous layout, offsets are row-major positions.
pub proof fn lemma_contiguous_offset_is_linear(
    index: Seq<usize>,
    shape: Seq<usize>,
    strides: Seq<usize>,
    from: int,
)
    requires
        contiguous(shape, strides),
        index.len() <= shape.len(),
        0 <= from,
    ensures
        dot_from(index, strides, from) == linear_from(index, shape, from),
    decreases index.len() - from,
{
    if from < index.len() {
        lemma_contiguous_offset_is_linear(index, shape, strides, from + 1);
        lemma_contiguous_suffix(shape, strides, from);
    }
}

/// The coordinates of a valid index from `from` on address a position inside
/// the block that those dimensions span.
pub proof fn lemma_linear_bound(index: Seq<usize>, shape: Seq<usize>, from: int)
    requires
        valid_index(index, shape),
        0 <= from,
    ensures
        0 <= linear_from(index, shape, from) < suffix_product(shape, from),
    decreases index.len() - from,
{
    if from < index.len() {
        lemma_linear_bound(index, shape, from + 1);
        let c = index[from] as int;
        let d = shape[from] as int;
        let rest = suffix_product(shape, from + 1) as int;
        assert(0 <= c * rest && c * rest + rest <= d * rest) by (nonlinear_arith)
            requires
                0 <= c < d,
                0 <= rest,
        ;
    }
}

/// Where every extent is positive, each position unravels to a valid index.
pub proof fn lemma_unravel_valid(pos: nat, shape: Seq<usize>)
    requires
        all_positive(shape),
    ensures
        valid_index(unravel(pos, shape), shape),
{
    assert forall|i: int| 0 <= i < shape.len() implies (#[trigger] unravel(pos, shape)[i])
        < shape[i] by {
        lemma_suffix_product_positive(shape, i + 1);
        lemma_div_pos_is_pos(pos as int, suffix_product(shape, i + 1) as int);
        lemma_mod_bound((pos / suffix_product(shape, i + 1)) as int, shape[i] as int);
    }
}

/// The coordinates of `unravel(pos)` from `from` on address `pos` modulo the
/// size of the block that those dimensions span.
proof fn lemma_linear_of_unravel_from(pos: nat, shape: Seq<usize>, from: int)
    requires
        all_positive(shape),
        0 <= from <= shape.len(),
    ensures
        linear_from(unravel(pos, shape), shape, from) == pos % suffix_product(shape, from),
    decreases shape.len() - from,
{
    let index = unravel(pos, shape);
    lemma_unravel_valid(pos, shape);
    if from < shape.len() {
        lemma_linear_of_unravel_from(pos, shape, from + 1);
        lemma_suffix_product_positive(shape, from + 1);
        let rest = suffix_product(shape, from + 1) as int;
        let d = shape[from] as int;
        lemma_mod_breakdown(pos as int, rest, d);
        lemma_mul_is_commutative(rest, d);
        lemma_mul_is_commutative(rest, (pos as int / rest) % d);
        assert(index[from] == (pos as int / rest) % d);
    } else {
        lemma_small_mod(0, 1);
    }
}

/// Unravelling a position below the element count and taking the row-major
/// position of the result gives the position back.
pub proof fn lemma_linear_of_unravel(pos: nat, shape: Seq<usize>)
    requires
        pos < element_count(shape),
    ensures
        valid_index(unravel(pos, shape), shape),
        linear_index(unravel(pos, shape), shape) == pos,
{
    lemma_element_count_positive(shape);
    lemma_unravel_valid(pos, shape);
    lemma_linear_of_unravel_from(pos, shape, 0);
    lemma_small_mod(pos, element_count(shape));
}

/// The value of the leading `upto` coordinates of `index`, read as a number
/// in the mixed radix that `shape` defines.
spec fn leading_value(index: Seq<usize>, shape: Seq<usize>, upto: int) -> int
    decreases upto,
{
    if 0 < upto <= index.len() {
        leading_value(index, shape, upto - 1) * shape[upto - 1] + index[upto - 1]
    } else {
        0
    }
}

/// A row-major position splits into its leading coordinates, scaled by the
/// block they select, and the position inside that block.
proof fn lemma_linear_split(index: Seq<usize>, shape: Seq<usize>, upto: int)
    requires
        valid_index(index, shape),
        0 <= upto <= index.len(),
    ensures
        leading_value(index, shape, upto) >= 0,
        linear_index(index, shape) == leading_value(index, shape, upto) * suffix_product(
            shape,
            upto,
        ) + linear_from(index, shape, upto),
    decreases upto,
{
    if upto > 0 {
        lemma_linear_split(index, shape, upto - 1);
        let lead = leading_value(index, shape, upto - 1);
        let d = shape[upto - 1] as int;
        let c = index[upto - 1] as int;
        let rest = suffix_product(shape, upto) as int;
        assert(suffix_product(shape, upto - 1) == d * rest);
        assert(linear_from(index, shape, upto - 1) == c * rest + linear_from(index, shape, upto));
        assert(lead * (d * rest) + c * rest == (lead * d + c) * rest) by (nonlinear_arith);
        assert(lead * d + c >= 0) by (nonlinear_arith)
            requires
                lead >= 0,
                d >= 0,
                c >= 0,
        ;
    } else {
        lemma_mul_basics(suffix_product(shape, 0) as int);
    }
}

/// Taking the row-major position of a valid index and unravelling it gives
/// the index back.
pub proof fn lemma_unravel_of_linear(index: Seq<usize>, shape: Seq<usize>)
    requires
        valid_index(index, shape),
    ensures
        0 <= linear_index(index, shape) < element_count(shape),
        unravel(linear_index(index, shape) as nat, shape) == index,
{
    lemma_linear_bound(index, shape, 0);
    let pos = linear_index(index, shape);
    assert forall|i: int| 0 <= i < shape.len() implies (#[trigger] unravel(pos as nat, shape)[i])
        == index[i] by {
        let block = suffix_product(shape, i + 1) as int;
        let d = shape[i] as int;
        lemma_linear_split(index, shape, i + 1);
        lemma_linear_split(index, shape, i);
        lemma_linear_bound(index, shape, i + 1);
        let lead = leading_value(index, shape, i + 1);
        lemma_fundamental_div_mod_converse(pos, block, lead, linear_from(index, shape, i + 1));
        assert(pos / block == lead);
        lemma_fundamental_div_mod_converse(
            lead,
            d,
            leading_value(index, shape, i),
            index[i] as int,
        );
    }
    assert(unravel(pos as nat, shape) =~= index);
}

/// In a contiguous layout of positive extents, the dimensions from `from` on
/// reach every offset of the block they span, and none beyond.
pub proof fn lemma_contiguous_extent(shape: Seq<usize>, strides: Seq<usize>, from: int)
    requires
        contiguous(shape, strides),
        all_positive(shape),
        0 <= from,
    ensures
        extent_from(shape, strides, from) == suffix_product(shape, from) - 1,
    decreases shape.len() - from,
{
    if from < shape.len() {
        lemma_contiguous_extent(shape, strides, from + 1);
        lemma_contiguous_suffix(shape, strides, from);
        let d = shape[from] as int;
        let rest = suffix_product(shape, from + 1) as int;
        assert((d - 1) * rest + rest == d * rest) by (nonlinear_arith);
    }
}

/// Dropping the leading dimension drops its term from the extent.
pub proof fn lemma_extent_skip_one(shape: Seq<usize>, strides: Seq<usize>, from: int)
    requires
        shape.len() > 0,
        strides.len() == shape.len(),
        0 <= from,
    ensures
        extent_from(shape.skip(1), strides.skip(1), from) == extent_from(shape, strides, from + 1),
    decreases shape.len() - from,
{
    if from < shape.len() - 1 {
        lemma_extent_skip_one(shape, strides, from + 1);
    }
}

/// Dropping the leading coordinate and the leading stride drops their
/// product from the offset.
pub proof fn lemma_dot_skip_one(index: Seq<usize>, strides: Seq<usize>, from: int)
    requires
        0 < index.len() <= strides.len(),
        0 <= from,
    ensures
        dot_from(index.skip(1), strides.skip(1), from) == dot_from(index, strides, from + 1),
    decreases index.len() - from,
{
    if from < index.len() - 1 {
        lemma_dot_skip_one(index, strides, from + 1);
    }
}

/// With positive extents, no extent sum is negative.
pub proof fn lemma_extent_nonnegative(shape: Seq<usize>, strides: Seq<usize>, from: int)
    requires
        all_positive(shape),
        strides.len() == shape.len(),
    ensures
        extent_from(shape, strides, from) >= 0,
        0 <= from < shape.len() ==> extent_from(shape, strides, from) >= (shape[from] - 1)
            * strides[from] + extent_from(shape, strides, from + 1),
        0 <= from < shape.len() ==> (shape[from] - 1) * strides[from] >= 0,
    decreases shape.len() - from,
{
    if 0 <= from < shape.len() {
        lemma_extent_nonnegative(shape, strides, from + 1);
        lemma_mul_nonnegative(shape[from] - 1, strides[from] as int);
    }
}

} // verus!
