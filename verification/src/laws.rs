//! General properties of the filter engine and the view state machine,
//! stated and proved over the same models the operation contracts use.

use vstd::prelude::*;
use crate::table::{ColModel, wf_table, height_of, count_true, filter_seq};
use crate::filter::{FilterNode, node_matches, cell_contains, quick_row_match};
use crate::state::{StateModel, st_quick_filter, st_advanced_filter, st_reset, eval_mask,
    all_mask, filter_table, quick_filter_outcome};
use crate::sort::{val_before, val_equiv, key_before};
use crate::num::lemma_dec_lt_trans;
use crate::text::{lex_lt, lemma_lex_lt_trans};

verus! {

/// A mask compiled from any predicate tree has one entry per table row.
pub proof fn lemma_mask_length(t: Seq<ColModel>, n: FilterNode)
    ensures
        eval_mask(t, n).len() == height_of(t),
{
}

/// A group with no children matches every row, whatever its logic word
/// says: the empty AND and the empty OR are both the identity, not
/// vacuously false.
pub proof fn lemma_empty_group_matches(t: Seq<ColModel>, row: int, n: FilterNode)
    requires
        n matches FilterNode::Group { logic, conditions } && conditions@.len() == 0,
    ensures
        node_matches(t, row, n),
{
}

/// A quick filter with an empty query restores exactly the original table,
/// row for row, whatever column is chosen.
pub proof fn lemma_empty_query_restores_original(s: StateModel, column: Option<Seq<char>>)
    requires
        s.original is Some,
    ensures
        st_quick_filter(s, column, Seq::<char>::empty()).current == s.original,
        st_quick_filter(s, column, Seq::<char>::empty()).grouping is None,
{
}

/// A reset restores exactly the original table, row for row, and clears
/// the grouping.
pub proof fn lemma_reset_restores_original(s: StateModel)
    ensures
        st_reset(s).current == s.original,
        st_reset(s).grouping is None,
{
}

/// All-false masks keep no rows.
proof fn lemma_count_true_zero(m: Seq<bool>)
    requires
        forall|i: int| 0 <= i < m.len() ==> !(#[trigger] m[i]),
    ensures
        count_true(m) == 0,
    decreases m.len(),
{
    if m.len() > 0 {
        lemma_count_true_zero(m.drop_last());
    }
}

/// A quick filter whose query matches no cell in any column yields a table
/// with zero rows — an empty result, not an error.
pub proof fn lemma_no_match_yields_empty(orig: Seq<ColModel>, q: Seq<char>)
    requires
        wf_table(orig),
        q.len() > 0,
        forall|i: int, j: int|
            0 <= i < height_of(orig) && 0 <= j < orig.len() ==> !cell_contains(
                #[trigger] orig[j].cells[i],
                q,
            ),
    ensures
        height_of(quick_filter_outcome(orig, None, q)) == 0,
{
    let m = all_mask(orig, q);
    assert forall|i: int| 0 <= i < m.len() implies !(#[trigger] m[i]) by {
        if quick_row_match(orig, i, q) {
            let j = choose|j: int| 0 <= j < orig.len() && cell_contains(
                #[trigger] orig[j].cells[i],
                q,
            );
            assert(!cell_contains(orig[j].cells[i], q));
        }
    }
    lemma_count_true_zero(m);
    let out = filter_table(orig, m);
    if orig.len() > 0 {
        crate::table::lemma_filter_seq_len(orig[0].cells, m);
        assert(out[0].cells.len() == 0);
    }
}

/// Filtering reads the original table only: two states with the same
/// original — for instance a state before a group-by and the same state
/// after it — derive the same current view from the same filter, and both
/// leave the grouping cleared.
pub proof fn lemma_filter_reads_original(s1: StateModel, s2: StateModel,
    column: Option<Seq<char>>, q: Seq<char>)
    requires
        s1.original == s2.original,
        s1.original is Some,
    ensures
        st_quick_filter(s1, column, q).current == st_quick_filter(s2, column, q).current,
        st_quick_filter(s1, column, q).grouping is None,
{
}

/// The advanced filter likewise reads the original table only.
pub proof fn lemma_advanced_filter_reads_original(s1: StateModel, s2: StateModel, n: FilterNode)
    requires
        s1.original == s2.original,
        s1.original is Some,
    ensures
        st_advanced_filter(s1, n).current == st_advanced_filter(s2, n).current,
        st_advanced_filter(s1, n).grouping is None,
{
}


/// The value order the sort uses is transitive in either direction, so a
/// view whose consecutive rows are ordered is ordered as a whole.
pub proof fn lemma_val_before_trans(x: Seq<char>, y: Seq<char>, z: Seq<char>, numeric: bool,
    desc: bool)
    requires
        val_before(x, y, numeric, desc),
        val_before(y, z, numeric, desc),
    ensures
        val_before(x, z, numeric, desc),
{
    if numeric {
        if desc {
            lemma_dec_lt_trans(z, y, x);
        } else {
            lemma_dec_lt_trans(x, y, z);
        }
    } else {
        if desc {
            lemma_lex_lt_trans(z, y, x);
        } else {
            lemma_lex_lt_trans(x, y, z);
        }
    }
}


proof fn lemma_lex_lt_asym(a: Seq<char>, b: Seq<char>)
    requires
        lex_lt(a, b),
    ensures
        !lex_lt(b, a),
    decreases a.len(),
{
    if a.len() > 0 && b.len() > 0 {
        if a[0] == b[0] {
            lemma_lex_lt_asym(a.skip(1), b.skip(1));
        }
    }
}

proof fn lemma_cross_eq_eq(na: int, pa: int, nb: int, pb: int, nc: int, pc: int)
    by (nonlinear_arith)
    requires
        pa > 0,
        pb > 0,
        pc > 0,
        na * pb == nb * pa,
        nb * pc == nc * pb,
    ensures
        na * pc == nc * pa,
{
}

proof fn lemma_cross_eq_lt(na: int, pa: int, nb: int, pb: int, nc: int, pc: int)
    by (nonlinear_arith)
    requires
        pa > 0,
        pb > 0,
        pc > 0,
        na * pb == nb * pa,
        nb * pc < nc * pb,
    ensures
        na * pc < nc * pa,
{
}

proof fn lemma_cross_lt_eq(na: int, pa: int, nb: int, pb: int, nc: int, pc: int)
    by (nonlinear_arith)
    requires
        pa > 0,
        pb > 0,
        pc > 0,
        na * pb < nb * pa,
        nb * pc == nc * pb,
    ensures
        na * pc < nc * pa,
{
}

proof fn pow10_pos(n: nat)
    ensures
        crate::num::pow10(n) > 0,
{
    vstd::arithmetic::power::lemma_pow_positive(10, n);
}

/// Equivalence under the column's order is transitive.
proof fn lemma_val_equiv_trans(x: Seq<char>, y: Seq<char>, z: Seq<char>, numeric: bool)
    requires
        val_equiv(x, y, numeric),
        val_equiv(y, z, numeric),
    ensures
        val_equiv(x, z, numeric),
{
    if numeric {
        pow10_pos(crate::num::dec_scale(x));
        pow10_pos(crate::num::dec_scale(y));
        pow10_pos(crate::num::dec_scale(z));
        lemma_cross_eq_eq(
            crate::num::dec_num(x), crate::num::pow10(crate::num::dec_scale(x)),
            crate::num::dec_num(y), crate::num::pow10(crate::num::dec_scale(y)),
            crate::num::dec_num(z), crate::num::pow10(crate::num::dec_scale(z)),
        );
    }
}

/// An equivalent value can replace either side of a strict comparison.
proof fn lemma_val_equiv_before(x: Seq<char>, y: Seq<char>, z: Seq<char>, numeric: bool,
    desc: bool)
    requires
        val_equiv(x, y, numeric),
        val_before(y, z, numeric, desc),
    ensures
        val_before(x, z, numeric, desc),
{
    if numeric {
        pow10_pos(crate::num::dec_scale(x));
        pow10_pos(crate::num::dec_scale(y));
        pow10_pos(crate::num::dec_scale(z));
        let nx = crate::num::dec_num(x);
        let px = crate::num::pow10(crate::num::dec_scale(x));
        let ny = crate::num::dec_num(y);
        let py = crate::num::pow10(crate::num::dec_scale(y));
        let nz = crate::num::dec_num(z);
        let pz = crate::num::pow10(crate::num::dec_scale(z));
        if desc {
            lemma_cross_lt_eq(nz, pz, ny, py, nx, px);
        } else {
            lemma_cross_eq_lt(nx, px, ny, py, nz, pz);
        }
    }
}

proof fn lemma_val_before_equiv(x: Seq<char>, y: Seq<char>, z: Seq<char>, numeric: bool,
    desc: bool)
    requires
        val_before(x, y, numeric, desc),
        val_equiv(y, z, numeric),
    ensures
        val_before(x, z, numeric, desc),
{
    if numeric {
        pow10_pos(crate::num::dec_scale(x));
        pow10_pos(crate::num::dec_scale(y));
        pow10_pos(crate::num::dec_scale(z));
        let nx = crate::num::dec_num(x);
        let px = crate::num::pow10(crate::num::dec_scale(x));
        let ny = crate::num::dec_num(y);
        let py = crate::num::pow10(crate::num::dec_scale(y));
        let nz = crate::num::dec_num(z);
        let pz = crate::num::pow10(crate::num::dec_scale(z));
        if desc {
            lemma_cross_eq_lt(nz, pz, ny, py, nx, px);
        } else {
            lemma_cross_lt_eq(nx, px, ny, py, nz, pz);
        }
    }
}

/// A strict comparison never holds between equivalent values.
proof fn lemma_val_equiv_excludes_before(x: Seq<char>, z: Seq<char>, numeric: bool, desc: bool)
    requires
        val_equiv(x, z, numeric),
    ensures
        !val_before(x, z, numeric, desc),
{
    if !numeric && val_before(x, z, numeric, desc) {
        if desc {
            lemma_lex_lt_asym(z, x);
        } else {
            lemma_lex_lt_asym(x, z);
        }
    }
}

/// The order on (cell, original row) pairs is transitive.
pub proof fn lemma_key_before_trans(a: Option<Seq<char>>, ia: int, b: Option<Seq<char>>, ib: int,
    c: Option<Seq<char>>, ic: int, numeric: bool, desc: bool)
    requires
        key_before(a, ia, b, ib, numeric, desc),
        key_before(b, ib, c, ic, numeric, desc),
    ensures
        key_before(a, ia, c, ic, numeric, desc),
{
    match (a, b, c) {
        (Option::Some(x), Option::Some(y), Option::Some(z)) => {
            if val_equiv(x, y, numeric) && val_equiv(y, z, numeric) {
                lemma_val_equiv_trans(x, y, z, numeric);
            } else if val_equiv(x, y, numeric) {
                lemma_val_equiv_before(x, y, z, numeric, desc);
                if val_equiv(x, z, numeric) {
                    assert(val_equiv(y, x, numeric));
                    lemma_val_equiv_trans(y, x, z, numeric);
                    lemma_val_equiv_excludes_before(y, z, numeric, desc);
                }
            } else if val_equiv(y, z, numeric) {
                lemma_val_before_equiv(x, y, z, numeric, desc);
                if val_equiv(x, z, numeric) {
                    assert(val_equiv(z, y, numeric));
                    lemma_val_equiv_trans(x, z, y, numeric);
                    lemma_val_equiv_excludes_before(x, y, numeric, desc);
                }
            } else {
                lemma_val_before_trans(x, y, z, numeric, desc);
                if val_equiv(x, z, numeric) {
                    assert(val_equiv(z, x, numeric));
                    lemma_val_equiv_before(z, x, y, numeric, desc);
                    lemma_val_equiv_excludes_before(z, z, numeric, desc);
                    lemma_val_before_trans(z, y, z, numeric, desc);
                }
            }
        },
        _ => {},
    }
}

/// Ordering every consecutive pair orders the whole view: in a sorted
/// permutation every earlier row precedes every later one under the sort
/// order, not just its neighbour.
pub proof fn lemma_adjacent_order_is_total(kv: Seq<Option<Seq<char>>>, p: Seq<usize>,
    numeric: bool, desc: bool, k1: int, k2: int)
    requires
        forall|k: int| 0 <= k < p.len() ==> (#[trigger] p[k]) < kv.len(),
        forall|k: int|
            0 <= k < p.len() - 1 ==> key_before(
                kv[#[trigger] p[k] as int],
                p[k] as int,
                kv[p[k + 1] as int],
                p[k + 1] as int,
                numeric,
                desc,
            ),
        0 <= k1 < k2 < p.len(),
    ensures
        key_before(kv[p[k1] as int], p[k1] as int, kv[p[k2] as int], p[k2] as int, numeric, desc),
    decreases k2 - k1,
{
    if k2 == k1 + 1 {
    } else {
        lemma_adjacent_order_is_total(kv, p, numeric, desc, k1, k2 - 1);
        assert(key_before(kv[p[k2 - 1] as int], p[k2 - 1] as int, kv[p[k2] as int], p[k2] as int,
            numeric, desc));
        lemma_key_before_trans(
            kv[p[k1] as int], p[k1] as int,
            kv[p[k2 - 1] as int], p[k2 - 1] as int,
            kv[p[k2] as int], p[k2] as int,
            numeric, desc,
        );
    }
}

} // verus!
