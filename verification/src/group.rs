//! The aggregation selector: partition a table's rows by the distinct values
//! of one column, reduce each group, and sort the one-row-per-group result
//! descending by the reduction.
//!
//! The reduced column is the grouping column itself, so within a group every
//! value equals the group key: a sum is the key value times the group size, a
//! mean, minimum or maximum is the key value itself, and a count is the group
//! size. Sums ask for numeric values whose numerator fits a 64-bit signed
//! integer and means for numeric values; otherwise the cast fails.

use vstd::prelude::*;
use vstd::string::StringExecFns;
use crate::table::{Table, Column, Cell, wf_table, height_of, has_column, col_index_of};
use crate::num::{is_dec, dec_num, dec_scale, canonical_dec, parse_numerator, u128_to_string,
    render_scaled};
use crate::sort::{col_numeric, col_numeric_exec, sort_table, key_before};
use crate::error::ViewError;
use crate::filter::lemma_col_index;

verus! {

/// Which reduction a group-by applies to the grouping column.
pub enum AggregationType {
    Count,
    Sum,
    Mean,
    Min,
    Max,
}

/// The display label of an aggregation kind.
pub open spec fn agg_label(a: AggregationType) -> Seq<char> {
    match a {
        AggregationType::Count => "Count"@,
        AggregationType::Sum => "Sum"@,
        AggregationType::Mean => "Mean"@,
        AggregationType::Min => "Min"@,
        AggregationType::Max => "Max"@,
    }
}

/// The name of the reduction column in the grouped table.
pub open spec fn agg_col_name(a: AggregationType) -> Seq<char> {
    match a {
        AggregationType::Count => "count"@,
        AggregationType::Sum => "sum"@,
        AggregationType::Mean => "mean"@,
        AggregationType::Min => "min"@,
        AggregationType::Max => "max"@,
    }
}

/// The distinct cell values among the first `i` cells, in order of first
/// occurrence.
pub open spec fn dkeys(cells: Seq<Option<Seq<char>>>, i: int) -> Seq<Option<Seq<char>>>
    decreases i,
{
    if i <= 0 {
        Seq::<Option<Seq<char>>>::empty()
    } else {
        let prev = dkeys(cells, i - 1);
        if prev.contains(cells[i - 1]) {
            prev
        } else {
            prev.push(cells[i - 1])
        }
    }
}

/// The distinct cell values of a column, in order of first occurrence.
pub open spec fn distinct_keys(cells: Seq<Option<Seq<char>>>) -> Seq<Option<Seq<char>>> {
    dkeys(cells, cells.len() as int)
}

/// How many of the first `i` cells equal `key`.
pub open spec fn count_key(cells: Seq<Option<Seq<char>>>, key: Option<Seq<char>>, i: int) -> nat
    decreases i,
{
    if i <= 0 {
        0
    } else {
        count_key(cells, key, i - 1) + if cells[i - 1] == key {
            1nat
        } else {
            0nat
        }
    }
}

/// Whether every non-null cell is a decimal number whose numerator fits
/// `i64`, so the column can be summed exactly at each value's own scale.
pub open spec fn col_summable(cells: Seq<Option<Seq<char>>>) -> bool {
    forall|i: int|
        0 <= i < cells.len() ==> match #[trigger] cells[i] {
            Some(s) => is_dec(s) && -(i64::MAX as int) <= dec_num(s) <= i64::MAX as int,
            None => true,
        }
}

/// What the reduction cell of one group must hold, given the group's key
/// and size: a canonically rendered decimal whose exact value the kind
/// dictates, or the key itself.
pub open spec fn agg_cell_ok(a: AggregationType, cell: Option<Seq<char>>, key: Option<Seq<char>>,
    m: nat) -> bool {
    match a {
        AggregationType::Count => cell matches Some(cs) && dec_scale(cs) == 0 && dec_num(cs) == m
            && canonical_dec(cs),
        AggregationType::Sum => match key {
            None => cell matches Some(cs) && dec_scale(cs) == 0 && dec_num(cs) == 0
                && canonical_dec(cs),
            Some(ks) => cell matches Some(cs) && dec_scale(cs) == dec_scale(ks) && dec_num(cs)
                == dec_num(ks) * m && canonical_dec(cs),
        },
        AggregationType::Mean => cell == key,
        AggregationType::Min => cell == key,
        AggregationType::Max => cell == key,
    }
}

/// Each distinct key of the first `i` cells occurs among them.
proof fn lemma_dkeys_elem(cells: Seq<Option<Seq<char>>>, i: int, x: int)
    requires
        0 <= x < dkeys(cells, i).len(),
    ensures
        exists|j: int| 0 <= j < i && cells[j] == dkeys(cells, i)[x],
    decreases i,
{
    if i > 0 {
        let prev = dkeys(cells, i - 1);
        if x < prev.len() {
            lemma_dkeys_elem(cells, i - 1, x);
        } else {
            assert(dkeys(cells, i)[x] == cells[i - 1]);
        }
    }
}

/// Whether two cells hold the same value.
fn cell_eq(a: &Cell, b: &Cell) -> (r: bool)
    ensures
        r == (a@ == b@),
{
    match (a, b) {
        (Cell::Null, Cell::Null) => true,
        (Cell::Text(x), Cell::Text(y)) => crate::text::str_eq(x.as_str(), y.as_str()),
        (Cell::Null, Cell::Text(_)) => false,
        (Cell::Text(_), Cell::Null) => false,
    }
}

/// How many cells of the column equal the key.
fn count_matching(cells: &Vec<Cell>, key: &Cell) -> (c: usize)
    ensures
        c as nat == count_key(cells@.map_values(|x: Cell| x@), key@, cells@.len() as int),
{
    let ghost cv = cells@.map_values(|x: Cell| x@);
    let mut c: usize = 0;
    let mut i: usize = 0;
    while i < cells.len()
        invariant
            i <= cells@.len(),
            cv == cells@.map_values(|x: Cell| x@),
            c as nat == count_key(cv, key@, i as int),
            c <= i,
        decreases cells@.len() - i,
    {
        if cell_eq(&cells[i], key) {
            c += 1;
        }
        proof {
            assert(cv[i as int] == cells@[i as int]@);
        }
        i += 1;
    }
    c
}

/// The distinct key cells of the column, in order of first occurrence.
fn distinct_cells(cells: &Vec<Cell>) -> (keys: Vec<Cell>)
    ensures
        keys@.map_values(|x: Cell| x@) == distinct_keys(cells@.map_values(|x: Cell| x@)),
{
    let ghost cv = cells@.map_values(|x: Cell| x@);
    let mut keys: Vec<Cell> = Vec::new();
    let mut i: usize = 0;
    while i < cells.len()
        invariant
            i <= cells@.len(),
            cv == cells@.map_values(|x: Cell| x@),
            keys@.map_values(|x: Cell| x@) == dkeys(cv, i as int),
        decreases cells@.len() - i,
    {
        let ghost kv = keys@.map_values(|x: Cell| x@);
        let c = &cells[i];
        proof {
            assert(cv[i as int] == cells@[i as int]@);
        }
        let mut found = false;
        let mut x: usize = 0;
        while x < keys.len()
            invariant
                x <= keys@.len(),
                kv == keys@.map_values(|y: Cell| y@),
                i < cells@.len(),
                cv == cells@.map_values(|y: Cell| y@),
                c == cells@[i as int],
                found ==> kv.contains(cv[i as int]),
                !found ==> forall|w: int| 0 <= w < x ==> kv[w] != cv[i as int],
            decreases keys@.len() - x,
        {
            if cell_eq(&keys[x], c) {
                proof {
                    assert(kv[x as int] == keys@[x as int]@);
                    assert(kv[x as int] == cv[i as int]);
                }
                found = true;
                x = keys.len();
            } else {
                proof {
                    assert(kv[x as int] == keys@[x as int]@);
                }
                x += 1;
            }
        }
        if !found {
            proof {
                assert(!kv.contains(cv[i as int]));
            }
            keys.push(c.duplicate());
            proof {
                assert(keys@.map_values(|y: Cell| y@) =~= kv.push(cv[i as int]));
            }
        }
        i += 1;
    }
    keys
}


/// Whether every non-null cell is a decimal with an `i64` numerator.
fn col_summable_exec(cells: &Vec<Cell>) -> (r: bool)
    ensures
        r == col_summable(cells@.map_values(|c: Cell| c@)),
{
    let ghost cv = cells@.map_values(|c: Cell| c@);
    let mut i: usize = 0;
    while i < cells.len()
        invariant
            i <= cells@.len(),
            cv == cells@.map_values(|c: Cell| c@),
            forall|k: int|
                0 <= k < i ==> match #[trigger] cv[k] {
                    Some(s) => is_dec(s) && -(i64::MAX as int) <= dec_num(s) <= i64::MAX as int,
                    None => true,
                },
        decreases cells@.len() - i,
    {
        match &cells[i] {
            Cell::Null => {
                proof {
                    assert(cv[i as int] == cells@[i as int]@);
                }
            },
            Cell::Text(t) => {
                if parse_numerator(t.as_str()).is_none() {
                    proof {
                        assert(cv[i as int] == cells@[i as int]@);
                        assert(!col_summable(cv));
                    }
                    return false;
                }
                proof {
                    assert(cv[i as int] == cells@[i as int]@);
                }
            },
        }
        i += 1;
    }
    true
}

proof fn lemma_sum_in_range(v: int, m: int)
    by (nonlinear_arith)
    requires
        -(i64::MAX as int) <= v <= i64::MAX as int,
        0 <= m <= u64::MAX as int,
    ensures
        -(i128::MAX as int) <= v * m <= i128::MAX as int,
        v * m > i128::MIN,
{
}

/// The label of an aggregation kind, executably.
pub fn agg_label_str(a: &AggregationType) -> (r: &'static str)
    ensures
        r@ == agg_label(*a),
{
    match a {
        AggregationType::Count => "Count",
        AggregationType::Sum => "Sum",
        AggregationType::Mean => "Mean",
        AggregationType::Min => "Min",
        AggregationType::Max => "Max",
    }
}

/// The reduction column's name, executably.
pub fn agg_col_name_str(a: &AggregationType) -> (r: &'static str)
    ensures
        r@ == agg_col_name(*a),
{
    match a {
        AggregationType::Count => "count",
        AggregationType::Sum => "sum",
        AggregationType::Mean => "mean",
        AggregationType::Min => "min",
        AggregationType::Max => "max",
    }
}

/// Groups the table by the named column and reduces that same column.
///
/// On success the result holds the grouped table (one row per distinct value
/// of the column, key column first, reduction column second, rows sorted
/// descending by the reduction), a summary sentence, and the kind's label.
/// It fails with `ColumnNotFound` exactly when the column is missing; with
/// `CastError` exactly when the column's own name is the reduction column's
/// name, when a sum is asked of a column that is not numeric with 64-bit
/// numerators, or when a mean is asked of a column that is not numeric.
#[verifier::rlimit(60)]
pub fn group_by_table(table: &Table, name: &str, agg: &AggregationType) -> (r: Result<
    (Table, String, String),
    ViewError,
>)
    requires
        wf_table(table@),
    ensures
        ({
            let ok_col = has_column(table@, name@);
            let cv = if ok_col {
                table@[col_index_of(table@, name@).unwrap()].cells
            } else {
                Seq::<Option<Seq<char>>>::empty()
            };
            let clash = name@ == agg_col_name(*agg);
            let castbad = clash || (agg matches AggregationType::Sum && !col_summable(cv)) || (
            agg matches AggregationType::Mean && !col_numeric(cv));
            match r {
                Ok((t, summary, label)) => {
                    let ks = distinct_keys(cv);
                    &&& ok_col
                    &&& !castbad
                    &&& label@ == agg_label(*agg)
                    &&& wf_table(t@)
                    &&& t@.len() == 2
                    &&& t@[0].name == name@
                    &&& t@[1].name == agg_col_name(*agg)
                    &&& height_of(t@) == ks.len()
                    &&& exists|p: Seq<usize>, gcells: Seq<Option<Seq<char>>>|
                        {
                            &&& #[trigger] p.len() == ks.len()
                            &&& #[trigger] gcells.len() == ks.len()
                            &&& (forall|g: int| 0 <= g < p.len() ==> (#[trigger] p[g]) < p.len())
                            &&& (forall|g1: int, g2: int|
                                0 <= g1 < g2 < p.len() ==> (#[trigger] p[g1]) != (#[trigger] p[
                                    g2]))
                            &&& (forall|g: int|
                                0 <= g < p.len() ==> (#[trigger] t@[0].cells[g]) == ks[p[
                                    g] as int])
                            &&& (forall|g: int|
                                0 <= g < p.len() ==> (#[trigger] t@[1].cells[g]) == gcells[p[
                                    g] as int])
                            &&& (forall|w: int|
                                0 <= w < ks.len() ==> agg_cell_ok(
                                    *agg,
                                    #[trigger] gcells[w],
                                    ks[w],
                                    count_key(cv, ks[w], cv.len() as int),
                                ))
                            &&& (forall|g: int|
                                0 <= g < p.len() - 1 ==> key_before(
                                    gcells[#[trigger] p[g] as int],
                                    p[g] as int,
                                    gcells[p[g + 1] as int],
                                    p[g + 1] as int,
                                    col_numeric(gcells),
                                    true,
                                ))
                        }
                    &&& exists|ns: Seq<char>|
                        {
                            &&& crate::num::all_digits(ns)
                            &&& ns.len() > 0
                            &&& (ns.len() == 1 || crate::num::digit_val(ns[0]) != 0)
                            &&& crate::num::digits_val(ns) == ks.len()
                            &&& #[trigger] summary@ == "Grouped by "@ + name@ + " with "@
                                + agg_label(*agg) + ", found "@ + ns + " groups"@
                        }
                },
                Err(e) => {
                    match e {
                        ViewError::ColumnNotFound(c) => !ok_col && c@ == name@,
                        ViewError::CastError => ok_col && castbad,
                        _ => false,
                    }
                },
            }
        }),
{
    let ci = match table.find_column(name) {
        Some(j) => j,
        None => {
            return Err(ViewError::ColumnNotFound(String::from_str(name)));
        },
    };
    proof {
        lemma_col_index(table@, name@, ci as int);
    }
    let aggname = agg_col_name_str(agg);
    if crate::text::str_eq(name, aggname) {
        return Err(ViewError::CastError);
    }
    let keycol = &table.cols[ci];
    let ghost cv = keycol@.cells;
    proof {
        assert(table@[ci as int] == keycol@);
    }
    match agg {
        AggregationType::Sum => {
            if !col_summable_exec(&keycol.cells) {
                return Err(ViewError::CastError);
            }
        },
        AggregationType::Mean => {
            if !col_numeric_exec(&keycol.cells) {
                return Err(ViewError::CastError);
            }
        },
        _ => {},
    }
    let keys = distinct_cells(&keycol.cells);
    let ghost ks = distinct_keys(cv);
    let nkeys = keys.len();
    let mut aggs: Vec<Cell> = Vec::new();
    let mut x: usize = 0;
    while x < nkeys
        invariant
            x <= nkeys,
            nkeys == keys@.len(),
            cv == keycol@.cells,
            keycol == table.cols@[ci as int],
            0 <= ci < table@.len(),
            table@[ci as int] == keycol@,
            ks == distinct_keys(cv),
            keys@.map_values(|c: Cell| c@) == ks,
            agg matches AggregationType::Sum ==> col_summable(cv),
            aggs@.len() == x as int,
            forall|w: int|
                0 <= w < x ==> agg_cell_ok(*agg, (#[trigger] aggs@[w])@, ks[w], count_key(cv,
                    ks[w], cv.len() as int)),
        decreases nkeys - x,
    {
        let key = &keys[x];
        proof {
            assert(keys@[x as int]@ == ks[x as int]);
        }
        let m = count_matching(&keycol.cells, key);
        let cell: Cell = match agg {
            AggregationType::Count => Cell::Text(u128_to_string(m as u128)),
            AggregationType::Sum => {
                match key {
                    Cell::Null => Cell::Text(u128_to_string(0)),
                    Cell::Text(kstr) => {
                        proof {
                            lemma_dkeys_elem(cv, cv.len() as int, x as int);
                            let j = choose|j: int| 0 <= j < cv.len() && cv[j] == ks[x as int];
                            assert(cv[j] matches Some(sv) && is_dec(sv) && -(i64::MAX as int)
                                <= dec_num(sv) <= i64::MAX as int);
                        }
                        let v = match parse_numerator(kstr.as_str()) {
                            Some(v) => v,
                            None => {
                                proof {
                                    assert(false);
                                }
                                0
                            },
                        };
                        let kscale = match crate::num::parse_dec(kstr.as_str()) {
                            Some(p) => p.scale,
                            None => {
                                proof {
                                    assert(false);
                                }
                                0
                            },
                        };
                        proof {
                            lemma_sum_in_range(v as int, m as int);
                        }
                        let prod: i128 = (v as i128) * (m as i128);
                        Cell::Text(render_scaled(prod, kscale))
                    },
                }
            },
            AggregationType::Mean => key.duplicate(),
            AggregationType::Min => key.duplicate(),
            AggregationType::Max => key.duplicate(),
        };
        aggs.push(cell);
        x += 1;
    }
    let keycol_out = Column { name: String::from_str(name), cells: keys };
    let aggcol_out = Column { name: String::from_str(aggname), cells: aggs };
    let grouped = Table { cols: vec![keycol_out, aggcol_out] };
    proof {
        assert(grouped@.len() == 2);
        assert(grouped@[0].name == name@);
        assert(grouped@[1].name == agg_col_name(*agg));
        assert(grouped@[0].cells == ks);
        assert(grouped@[1].cells.len() == ks.len());
        assert(wf_table(grouped@));
    }
    let (sorted, sperm) = match sort_table(&grouped, aggname, true) {
        Ok(t) => t,
        Err(_) => {
            proof {
                assert(has_column(grouped@, agg_col_name(*agg)));
                assert(false);
            }
            return Err(ViewError::CastError);
        },
    };
    proof {
        lemma_col_index(grouped@, agg_col_name(*agg), 1);
        let p = sperm@;
        let gcells = grouped@[1].cells;
        assert(p.len() == ks.len());
        assert(gcells.len() == ks.len());
        assert forall|g: int| 0 <= g < p.len() implies (#[trigger] sorted@[0].cells[g]) == ks[
            p[g] as int] by {
            assert(sorted@[0].cells[g] == grouped@[0].cells[p[g] as int]);
        }
        assert forall|g: int| 0 <= g < p.len() implies (#[trigger] sorted@[1].cells[g]) == gcells[
            p[g] as int] by {}
        assert forall|w: int| 0 <= w < ks.len() implies agg_cell_ok(
            *agg,
            #[trigger] gcells[w],
            ks[w],
            count_key(cv, ks[w], cv.len() as int),
        ) by {
            assert(gcells[w] == aggs@[w]@);
        }
    }
    let n_groups = sorted.height();
    let nstr = u128_to_string(n_groups as u128);
    let label = String::from_str(agg_label_str(agg));
    let mut summary = String::from_str("Grouped by ");
    summary.append(name);
    summary.append(" with ");
    summary.append(label.as_str());
    summary.append(", found ");
    summary.append(nstr.as_str());
    summary.append(" groups");
    proof {
        assert(summary@ == "Grouped by "@ + name@ + " with "@ + agg_label(*agg) + ", found "@
            + nstr@ + " groups"@);
    }
    Ok((sorted, summary, label))
}

} // verus!
