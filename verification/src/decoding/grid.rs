//! The place of a note-line inside its measure.
//!
//! A measure spans 192 rows whatever the number of its note-lines. Line `i` of
//! `n` sits at `192 * i / n` rows from the start of the measure, rounded down to
//! a stored position unit (a millionth of a row). Where `n` divides 192 this is
//! a whole number of rows.

use vstd::prelude::*;
use crate::timing::MEASURE_SPAN;

verus! {

/// The offset of line `index` of `count`, in stored position units.
pub open spec fn row_offset(count: int, index: int) -> int {
    (192_000_000 * index) / count
}

/// The offset of line `index` in a measure of `count` note-lines.
pub fn line_offset(count: usize, index: usize) -> (off: i64)
    requires
        index < count,
    ensures
        off == row_offset(count as int, index as int),
        0 <= off < MEASURE_SPAN,
{
    proof {
        lemma_row_offset_bounds(count as int, index as int);
        assert(192_000_000 * index <= 192_000_000 * 0xffff_ffff_ffff_ffff) by (nonlinear_arith)
            requires
                index <= 0xffff_ffff_ffff_ffff,
        ;
    }
    let scaled: u128 = 192_000_000u128 * (index as u128);
    (scaled / (count as u128)) as i64
}

/// Offsets lie inside the measure.
pub proof fn lemma_row_offset_bounds(count: int, index: int)
    by (nonlinear_arith)
    requires
        0 <= index < count,
    ensures
        0 <= row_offset(count, index) < 192_000_000,
        index == 0 ==> row_offset(count, index) == 0,
{
    let x = 192_000_000 * index;
    assert(0 <= x < 192_000_000 * count);
    assert(x / count < 192_000_000) by {
        vstd::arithmetic::div_mod::lemma_multiply_divide_lt(x, count, 192_000_000);
    }
    assert(x / count >= 0);
}

/// Offsets do not decrease with the line index.
pub proof fn lemma_row_offset_monotone(count: int, i: int, j: int)
    requires
        0 <= i <= j,
        0 < count,
    ensures
        row_offset(count, i) <= row_offset(count, j),
{
    vstd::arithmetic::div_mod::lemma_div_is_ordered(192_000_000 * i, 192_000_000 * j, count);
}

/// Where the number of lines divides the 192 rows of a measure, each line sits
/// on a whole row: line `index` at row `index * (192 / count)`.
pub proof fn lemma_row_offset_on_grid(count: int, index: int)
    requires
        0 <= index,
        0 < count,
        192int % count == 0,
    ensures
        row_offset(count, index) == index * (192int / count) * 1_000_000,
{
    let step = 192int / count;
    assert(192 == step * count) by {
        vstd::arithmetic::div_mod::lemma_fundamental_div_mod(192, count);
    }
    let whole = index * step * 1_000_000;
    assert(192_000_000 * index == whole * count) by (nonlinear_arith)
        requires
            192 == step * count,
            whole == index * step * 1_000_000,
    ;
    vstd::arithmetic::div_mod::lemma_div_multiples_vanish(whole, count);
}

} // verus!
