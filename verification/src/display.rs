//! The text form of a tensor.
//!
//! A tensor of one dimension is written as its elements between square
//! brackets, separated by a comma and a space; of a long row only the first
//! elements are written, followed by an ellipsis. A tensor of more dimensions
//! is written as its rows between square brackets, a line break after each
//! row but the last and a comma before each row but the first. A tensor
//! without dimensions has no text.

use vstd::prelude::*;
use vstd::arithmetic::div_mod::{
    lemma_fundamental_div_mod, lemma_fundamental_div_mod_converse, lemma_mod_multiples_basic,
};
use vstd::string::to_string_from_display_ensures;
use vstd::string::StringExecFns;
use crate::layout::{element_count, suffix_product};

verus! {

/// How many elements of a row are written before the rest is elided.
pub const ROW_LIMIT: usize = 8;

/// The number of elements of a row of `extent` elements that are written.
pub open spec fn shown(extent: usize) -> int {
    if extent > ROW_LIMIT {
        ROW_LIMIT as int
    } else {
        extent as int
    }
}

/// The texts `base..base + count`, separated by a comma and a space.
pub open spec fn row_text(texts: Seq<String>, base: int, count: int) -> Seq<char>
    decreases count,
{
    if count <= 0 {
        Seq::empty()
    } else if count == 1 {
        texts[base]@
    } else {
        row_text(texts, base, count - 1) + ", "@ + texts[base + count - 1]@
    }
}

/// The text of the block of dimension `dim` whose first element stands at
/// position `base`: a row of elements for the last dimension, a list of
/// blocks of the next dimension for any other.
pub open spec fn block_text(shape: Seq<usize>, texts: Seq<String>, dim: int, base: int) -> Seq<char>
    decreases shape.len() - dim, 1 + shape[dim],
{
    if 0 <= dim < shape.len() - 1 {
        "["@ + rows_text(shape, texts, dim, base, shape[dim] as int) + "]"@
    } else if dim == shape.len() - 1 {
        "["@ + row_text(texts, base, shown(shape[dim])) + (if shape[dim] > ROW_LIMIT {
            ", ..."@
        } else {
            Seq::empty()
        }) + "]"@
    } else {
        Seq::empty()
    }
}

/// The text of the first `count` blocks inside the block of dimension `dim`
/// at `base`.
pub open spec fn rows_text(
    shape: Seq<usize>,
    texts: Seq<String>,
    dim: int,
    base: int,
    count: int,
) -> Seq<char>
    decreases shape.len() - dim, count,
{
    if 0 <= dim < shape.len() - 1 && count > 0 {
        rows_text(shape, texts, dim, base, count - 1) + (if count > 1 {
            ","@
        } else {
            Seq::empty()
        }) + block_text(
            shape,
            texts,
            dim + 1,
            base + (count - 1) * suffix_product(shape, dim + 1),
        ) + (if count < shape[dim] {
            "\n"@
        } else {
            Seq::empty()
        })
    } else {
        Seq::empty()
    }
}

/// The text of a tensor of `shape` whose element at row-major position `p`
/// has the text `texts[p]`.
pub open spec fn rendered(shape: Seq<usize>, texts: Seq<String>) -> Seq<char> {
    if shape.len() == 0 {
        Seq::empty()
    } else {
        block_text(shape, texts, 0, 0)
    }
}

/// Whether the element at row-major position `pos` is among the first of its
/// row, which are the ones that are written.
pub open spec fn is_shown(shape: Seq<usize>, pos: int) -> bool {
    shape.len() > 0 && pos % (shape.last() as int) < ROW_LIMIT
}

/// `texts` holds, for every element that is written, a text that the
/// element's `Display` gave for it.
pub open spec fn texts_of<T: core::fmt::Display>(
    elements: Seq<T>,
    shape: Seq<usize>,
    texts: Seq<String>,
) -> bool {
    &&& texts.len() == elements.len()
    &&& forall|pos: int|
        0 <= pos < elements.len() && is_shown(shape, pos) ==> to_string_from_display_ensures::<T>(
            &elements[pos],
            #[trigger] texts[pos],
        )
}

/// Appends the text of one row of `extent` elements.
fn render_row(texts: &[String], base: usize, extent: usize, out: &mut String)
    requires
        base + extent <= texts.len(),
    ensures
        final(out)@ == old(out)@ + "["@ + row_text(texts@, base as int, shown(extent)) + (if extent
            > ROW_LIMIT {
            ", ..."@
        } else {
            Seq::empty()
        }) + "]"@,
{
    let ghost before = out@;
    out.append("[");
    let count = if extent > ROW_LIMIT {
        ROW_LIMIT
    } else {
        extent
    };
    let mut i: usize = 0;
    while i < count
        invariant
            count == shown(extent),
            base + extent <= texts.len(),
            i <= count,
            out@ == before + "["@ + row_text(texts@, base as int, i as int),
        decreases count - i,
    {
        let ghost so_far = out@;
        if i > 0 {
            out.append(", ");
        }
        out.append(texts[base + i].as_str());
        assert(out@ == before + "["@ + row_text(texts@, base as int, i + 1)) by {
            if i > 0 {
                assert(out@ =~= so_far + ", "@ + texts[base + i]@);
                assert(out@ =~= before + "["@ + (row_text(texts@, base as int, i as int) + ", "@
                    + texts[base + i]@));
            } else {
                assert(row_text(texts@, base as int, 0) =~= Seq::empty());
                assert(out@ =~= before + "["@ + texts[base as int]@);
            }
        }
        i += 1;
    }
    let ghost row = out@;
    if extent > ROW_LIMIT {
        out.append(", ...");
    }
    out.append("]");
    assert(out@ =~= before + "["@ + row_text(texts@, base as int, shown(extent)) + (if extent
        > ROW_LIMIT {
        ", ..."@
    } else {
        Seq::empty()
    }) + "]"@);
}

/// Appends the text of the block of dimension `dim` at `base`, and returns
/// the position behind the block.
fn render_block(
    shape: &[usize],
    texts: &[String],
    dim: usize,
    base: usize,
    out: &mut String,
) -> (next: usize)
    requires
        dim < shape.len(),
        base + suffix_product(shape@, dim as int) <= texts.len(),
    ensures
        final(out)@ == old(out)@ + block_text(shape@, texts@, dim as int, base as int),
        next == base + suffix_product(shape@, dim as int),
    decreases shape.len() - dim,
{
    let extent = shape[dim];
    if dim == shape.len() - 1 {
        assert(suffix_product(shape@, dim + 1) == 1);
        assert(suffix_product(shape@, dim as int) == extent * 1);
        render_row(texts, base, extent, out);
        assert(out@ =~= old(out)@ + block_text(shape@, texts@, dim as int, base as int));
        return base + extent;
    }
    let ghost before = out@;
    let ghost inner = suffix_product(shape@, dim + 1) as int;
    out.append("[");
    let mut cursor = base;
    let mut i: usize = 0;
    while i < extent
        invariant
            dim < shape.len() - 1,
            extent == shape[dim as int],
            inner == suffix_product(shape@, dim + 1),
            base + extent * inner <= texts.len(),
            i <= extent,
            cursor == base + i * inner,
            out@ == before + "["@ + rows_text(shape@, texts@, dim as int, base as int, i as int),
        decreases extent - i,
    {
        let ghost so_far = out@;
        let ghost rows = rows_text(shape@, texts@, dim as int, base as int, i as int);
        let ghost block = block_text(shape@, texts@, dim + 1, cursor as int);
        proof {
            assert(i * inner + inner <= extent * inner && (i + 1) * inner == i * inner + inner)
                by (nonlinear_arith)
                requires
                    0 <= i < extent,
                    0 <= inner,
            ;
        }
        if i > 0 {
            out.append(",");
        }
        cursor = render_block(shape, texts, dim + 1, cursor, out);
        if i < extent - 1 {
            out.append("\n");
        }
        assert(out@ == before + "["@ + rows_text(
            shape@,
            texts@,
            dim as int,
            base as int,
            i + 1,
        )) by {
            let comma = if i > 0 {
                ","@
            } else {
                Seq::empty()
            };
            let line = if i + 1 < extent {
                "\n"@
            } else {
                Seq::empty()
            };
            assert(base + ((i + 1) - 1) * inner == base + i * inner);
            assert(rows_text(shape@, texts@, dim as int, base as int, i + 1) == rows + comma
                + block + line);
            assert(out@ =~= so_far + comma + block + line);
            assert(out@ =~= before + "["@ + (rows + comma + block + line));
        }
        i += 1;
    }
    out.append("]");
    assert(out@ =~= before + block_text(shape@, texts@, dim as int, base as int));
    cursor
}

/// Writes a tensor of `shape` whose elements, in row-major order, have the
/// texts `texts`.
pub fn render(shape: &[usize], texts: &[String]) -> (text: String)
    requires
        texts.len() == element_count(shape@),
    ensures
        text@ == rendered(shape@, texts@),
{
    let mut out = String::new();
    if shape.len() > 0 {
        let ghost before = out@;
        render_block(shape, texts, 0, 0, &mut out);
        assert(out@ =~= rendered(shape@, texts@));
    }
    out
}

/// Every block of a dimension before the last holds a whole number of rows.
proof fn lemma_block_holds_rows(shape: Seq<usize>, dim: int)
    requires
        0 <= dim < shape.len(),
        shape.last() > 0,
    ensures
        suffix_product(shape, dim) % (shape.last() as nat) == 0,
    decreases shape.len() - dim,
{
    let last = shape.last() as int;
    if dim == shape.len() - 1 {
        assert(suffix_product(shape, dim + 1) == 1);
        lemma_mod_multiples_basic(1, last);
    } else {
        lemma_block_holds_rows(shape, dim + 1);
        let inner = suffix_product(shape, dim + 1) as int;
        let d = shape[dim] as int;
        lemma_fundamental_div_mod(inner, last);
        assert(d * inner == (d * (inner / last)) * last) by (nonlinear_arith)
            requires
                inner == last * (inner / last),
        ;
        lemma_mod_multiples_basic(d * (inner / last), last);
    }
}

/// The text of a row reads only the texts of its first elements.
proof fn lemma_row_reads_shown(
    shape: Seq<usize>,
    a: Seq<String>,
    b: Seq<String>,
    base: int,
    count: int,
)
    requires
        shape.len() > 0,
        count <= shown(shape.last()),
        0 <= base,
        base + shape.last() <= a.len() == b.len(),
        shape.last() > 0 ==> base % (shape.last() as int) == 0,
        forall|pos: int| 0 <= pos < a.len() && is_shown(shape, pos) ==> a[pos]@ == b[pos]@,
    ensures
        row_text(a, base, count) == row_text(b, base, count),
    decreases count,
{
    if count > 0 {
        lemma_row_reads_shown(shape, a, b, base, count - 1);
        let last = shape.last() as int;
        let pos = base + count - 1;
        lemma_fundamental_div_mod(base, last);
        lemma_fundamental_div_mod_converse(pos, last, base / last, count - 1);
        assert(is_shown(shape, pos));
        if count == 1 {
            assert(is_shown(shape, base));
        }
    }
}

/// The text of a block reads only the texts of the elements that are
/// written.
proof fn lemma_block_reads_shown(
    shape: Seq<usize>,
    a: Seq<String>,
    b: Seq<String>,
    dim: int,
    base: int,
)
    requires
        0 <= dim < shape.len(),
        0 <= base,
        base + suffix_product(shape, dim) <= a.len() == b.len(),
        shape.last() > 0 ==> base % (shape.last() as int) == 0,
        forall|pos: int| 0 <= pos < a.len() && is_shown(shape, pos) ==> a[pos]@ == b[pos]@,
    ensures
        block_text(shape, a, dim, base) == block_text(shape, b, dim, base),
    decreases shape.len() - dim, 1 + shape[dim],
{
    if dim == shape.len() - 1 {
        assert(suffix_product(shape, dim + 1) == 1);
        assert(suffix_product(shape, dim) == shape[dim] * 1);
        lemma_row_reads_shown(shape, a, b, base, shown(shape[dim]));
    } else {
        lemma_rows_read_shown(shape, a, b, dim, base, shape[dim] as int);
    }
}

/// The text of the leading blocks inside a block reads only the texts of
/// the elements that are written.
proof fn lemma_rows_read_shown(
    shape: Seq<usize>,
    a: Seq<String>,
    b: Seq<String>,
    dim: int,
    base: int,
    count: int,
)
    requires
        0 <= dim < shape.len() - 1,
        0 <= count <= shape[dim],
        0 <= base,
        base + suffix_product(shape, dim) <= a.len() == b.len(),
        shape.last() > 0 ==> base % (shape.last() as int) == 0,
        forall|pos: int| 0 <= pos < a.len() && is_shown(shape, pos) ==> a[pos]@ == b[pos]@,
    ensures
        rows_text(shape, a, dim, base, count) == rows_text(shape, b, dim, base, count),
    decreases shape.len() - dim, count,
{
    if count > 0 {
        lemma_rows_read_shown(shape, a, b, dim, base, count - 1);
        let inner = suffix_product(shape, dim + 1) as int;
        let d = shape[dim] as int;
        let at = base + (count - 1) * inner;
        assert(0 <= (count - 1) * inner && (count - 1) * inner + inner <= d * inner)
            by (nonlinear_arith)
            requires
                1 <= count <= d,
                0 <= inner,
        ;
        if shape.last() > 0 {
            let last = shape.last() as int;
            lemma_block_holds_rows(shape, dim + 1);
            lemma_fundamental_div_mod(inner, last);
            lemma_fundamental_div_mod(base, last);
            assert(at == (base / last + (count - 1) * (inner / last)) * last) by (nonlinear_arith)
                requires
                    at == base + (count - 1) * inner,
                    base == last * (base / last),
                    inner == last * (inner / last),
            ;
            lemma_mod_multiples_basic(base / last + (count - 1) * (inner / last), last);
        }
        lemma_block_reads_shown(shape, a, b, dim + 1, at);
    }
}

/// The text of a tensor reads only the texts of the elements that are
/// written: texts that agree on those give the same text.
pub proof fn law_rendered_reads_shown_texts(shape: Seq<usize>, a: Seq<String>, b: Seq<String>)
    requires
        a.len() == element_count(shape),
        b.len() == a.len(),
        forall|pos: int| 0 <= pos < a.len() && is_shown(shape, pos) ==> a[pos]@ == b[pos]@,
    ensures
        rendered(shape, a) == rendered(shape, b),
{
    if shape.len() > 0 {
        if shape.last() > 0 {
            lemma_mod_multiples_basic(0, shape.last() as int);
        }
        lemma_block_reads_shown(shape, a, b, 0, 0);
    }
}

} // verus!
