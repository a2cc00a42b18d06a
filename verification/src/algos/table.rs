//! Counter tables of `depth` rows with `width` columns each, held row by row.
//! A key has one cell in every row.

use vstd::prelude::*;

use crate::bytes::{le, lemma_le_len};
use crate::hash::{row_base, row_index};
use crate::snapshot::field_at;

verus! {

/// Position of the cell of `key` in `row`.
pub open spec fn cell(seed: u64, key: Seq<u8>, row: int, width: int) -> int {
    row * width + row_index(seed, key, row as nat, width as nat)
}

/// Whether the cell at position `i` belongs to `key`.
pub open spec fn is_hit(seed: u64, key: Seq<u8>, width: int, i: int) -> bool {
    i == cell(seed, key, i / width, width)
}

/// A position is determined by its row and column.
pub proof fn lemma_position(row: int, col: int, width: int, depth: int)
    requires
        0 <= col < width,
        0 <= row < depth,
    ensures
        (row * width + col) / width == row,
        0 <= row * width + col < width * depth,
{
    vstd::arithmetic::div_mod::lemma_fundamental_div_mod_converse(
        row * width + col,
        width,
        row,
        col,
    );
    assert(row * width + col < width * depth) by (nonlinear_arith)
        requires
            0 <= col < width,
            0 <= row < depth,
    ;
    assert(0 <= row * width) by (nonlinear_arith)
        requires
            0 < width,
            0 <= row,
    ;
}

/// The cell of a key lies in its row and belongs to the key.
pub proof fn lemma_cell(seed: u64, key: Seq<u8>, row: int, width: int, depth: int)
    requires
        0 < width,
        0 <= row < depth,
    ensures
        0 <= cell(seed, key, row, width) < width * depth,
        cell(seed, key, row, width) / width == row,
        is_hit(seed, key, width, cell(seed, key, row, width)),
{
    let (h1, h2) = row_base(seed, key);
    let h = h1.wrapping_add((row as nat as u64).wrapping_mul(h2)) as nat;
    assert(0 <= row_index(seed, key, row as nat, width as nat) < width) by {
        assert(0 <= h % (width as nat) < width) by (nonlinear_arith)
            requires
                width > 0,
        ;
    }
    lemma_position(row, row_index(seed, key, row as nat, width as nat) as int, width, depth);
}

/// The row of a position is one of the rows.
pub proof fn lemma_row(i: int, width: int, depth: int)
    requires
        0 < width,
        0 <= i < width * depth,
    ensures
        0 <= i / width < depth,
{
    vstd::arithmetic::div_mod::lemma_div_is_ordered_by_denominator(i, 1, width);
    assert(0 <= i / width < depth) by (nonlinear_arith)
        requires
            0 < width,
            0 <= i < width * depth,
    ;
}

/// Position-wise sum. Positions that `b` does not have keep the value of `a`.
pub open spec fn sum_tables(a: Seq<int>, b: Seq<int>) -> Seq<int> {
    Seq::new(a.len(), |i: int| a[i] + if i < b.len() { b[i] } else { 0 })
}

/// Consecutive eight-byte numbers.
pub open spec fn words(s: Seq<int>) -> Seq<u8>
    decreases s.len(),
{
    if s.len() == 0 {
        Seq::empty()
    } else {
        words(s.drop_last()) + le(s.last() as u64 as nat, 8)
    }
}

/// The `n` eight-byte numbers of `s` from `at` on.
pub open spec fn words_at(s: Seq<u8>, at: int, n: int) -> Seq<int> {
    Seq::new(n as nat, |i: int| field_at(s, at + 8 * i, 8) as int)
}

pub proof fn lemma_words_len(s: Seq<int>)
    ensures
        words(s).len() == 8 * s.len(),
    decreases s.len(),
{
    if s.len() > 0 {
        lemma_words_len(s.drop_last());
        lemma_le_len(s.last() as u64 as nat, 8);
    }
}

/// The bytes of the `i`-th number.
pub proof fn lemma_words_index(s: Seq<int>, i: int)
    requires
        0 <= i < s.len(),
    ensures
        words(s).len() == 8 * s.len(),
        words(s).subrange(8 * i, 8 * i + 8) == le(s[i] as u64 as nat, 8),
    decreases s.len(),
{
    lemma_words_len(s);
    lemma_words_len(s.drop_last());
    lemma_le_len(s.last() as u64 as nat, 8);
    if i == s.len() - 1 {
        assert(words(s).subrange(8 * i, 8 * i + 8) =~= le(s.last() as u64 as nat, 8));
    } else {
        lemma_words_index(s.drop_last(), i);
        assert(words(s).subrange(8 * i, 8 * i + 8) =~= words(s.drop_last()).subrange(
            8 * i,
            8 * i + 8,
        ));
    }
}

} // verus!
