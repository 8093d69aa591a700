//! Stable sort of a table by one column: numeric order when every value in
//! the key column is decimal, lexicographic otherwise; nulls are ordered
//! last; ties keep their original relative order.

use vstd::prelude::*;
use crate::table::{Table, Column, Cell, wf_table, height_of, has_column};
use crate::num::{is_dec, dec_lt, dec_num, dec_scale, pow10, parse_dec, dec_cmp, CmpRes};
use crate::text::{lex_lt, lemma_lex_lt_total};
use crate::error::ViewError;
use crate::filter::lemma_col_index;

verus! {

/// Whether every non-null cell of a column is a decimal number; such a
/// column sorts numerically, any other sorts lexicographically.
pub open spec fn col_numeric(cells: Seq<Option<Seq<char>>>) -> bool {
    forall|i: int|
        0 <= i < cells.len() ==> match #[trigger] cells[i] {
            Some(s) => is_dec(s),
            None => true,
        }
}

/// Whether two values are equivalent under the column's order.
pub open spec fn val_equiv(x: Seq<char>, y: Seq<char>, numeric: bool) -> bool {
    if numeric {
        dec_num(x) * pow10(dec_scale(y)) == dec_num(y) * pow10(dec_scale(x))
    } else {
        x == y
    }
}

/// Whether `x` strictly precedes `y` under the column's order and direction.
pub open spec fn val_before(x: Seq<char>, y: Seq<char>, numeric: bool, desc: bool) -> bool {
    if numeric {
        if desc {
            dec_lt(y, x)
        } else {
            dec_lt(x, y)
        }
    } else {
        if desc {
            lex_lt(y, x)
        } else {
            lex_lt(x, y)
        }
    }
}

/// The sort order on (cell, original row) pairs: nulls come last whatever
/// the direction, and equivalent keys keep their original row order.
pub open spec fn key_before(a: Option<Seq<char>>, ia: int, b: Option<Seq<char>>, ib: int,
    numeric: bool, desc: bool) -> bool {
    match (a, b) {
        (Option::None, Option::None) => ia < ib,
        (Option::None, Option::Some(_)) => false,
        (Option::Some(_), Option::None) => true,
        (Option::Some(x), Option::Some(y)) => if val_equiv(x, y, numeric) {
            ia < ib
        } else {
            val_before(x, y, numeric, desc)
        },
    }
}

/// The order is total: of two distinct (cell, row) pairs, one precedes the
/// other.
pub proof fn lemma_key_before_total(a: Option<Seq<char>>, ia: int, b: Option<Seq<char>>, ib: int,
    numeric: bool, desc: bool)
    requires
        ia != ib,
        !key_before(a, ia, b, ib, numeric, desc),
    ensures
        key_before(b, ib, a, ia, numeric, desc),
{
    match (a, b) {
        (Option::Some(x), Option::Some(y)) => {
            if !numeric {
                if x != y && !lex_lt(x, y) && !lex_lt(y, x) {
                    lemma_lex_lt_total(x, y);
                }
            }
        },
        _ => {},
    }
}

/// Whether one cell-and-row pair precedes another, executably.
fn key_before_exec(a: &Cell, ia: usize, b: &Cell, ib: usize, numeric: bool, desc: bool) -> (r:
    bool)
    requires
        numeric ==> (a@ matches Some(x) ==> is_dec(x)),
        numeric ==> (b@ matches Some(y) ==> is_dec(y)),
    ensures
        r == key_before(a@, ia as int, b@, ib as int, numeric, desc),
{
    match (a, b) {
        (Cell::Null, Cell::Null) => ia < ib,
        (Cell::Null, Cell::Text(_)) => false,
        (Cell::Text(_), Cell::Null) => true,
        (Cell::Text(xs), Cell::Text(ys)) => {
            if numeric {
                let px = parse_dec(xs.as_str()).unwrap();
                let py = parse_dec(ys.as_str()).unwrap();
                let c = dec_cmp(&px, &py);
                match c {
                    CmpRes::Eq => ia < ib,
                    CmpRes::Lt => !desc,
                    CmpRes::Gt => desc,
                }
            } else {
                if crate::text::str_eq(xs.as_str(), ys.as_str()) {
                    ia < ib
                } else if desc {
                    crate::text::str_lt(ys.as_str(), xs.as_str())
                } else {
                    crate::text::str_lt(xs.as_str(), ys.as_str())
                }
            }
        },
    }
}

/// A stable sorting permutation for the given key cells: position `k` of the
/// result names the original row that comes `k`-th in sorted order.
pub fn sort_perm(keys: &Vec<Cell>, numeric: bool, desc: bool) -> (perm: Vec<usize>)
    requires
        numeric ==> col_numeric(keys@.map_values(|c: Cell| c@)),
    ensures
        perm@.len() == keys@.len(),
        forall|k: int| 0 <= k < perm@.len() ==> (#[trigger] perm@[k]) < keys@.len(),
        forall|k1: int, k2: int|
            0 <= k1 < k2 < perm@.len() ==> (#[trigger] perm@[k1]) != (#[trigger] perm@[k2]),
        forall|k: int|
            0 <= k < perm@.len() - 1 ==> key_before(
                keys@.map_values(|c: Cell| c@)[#[trigger] perm@[k] as int],
                perm@[k] as int,
                keys@.map_values(|c: Cell| c@)[perm@[k + 1] as int],
                perm@[k + 1] as int,
                numeric,
                desc,
            ),
{
    let ghost kv = keys@.map_values(|c: Cell| c@);
    proof {
        assert forall|x: int| 0 <= x < keys@.len() implies (#[trigger] keys@[x])@ == kv[x] by {
            assert(kv[x] == keys@[x]@);
        }
    }
    let n = keys.len();
    let mut perm: Vec<usize> = Vec::new();
    let mut i: usize = 0;
    while i < n
        invariant
            i <= n,
            n == keys@.len(),
            kv == keys@.map_values(|c: Cell| c@),
            numeric ==> col_numeric(kv),
            forall|x: int| 0 <= x < keys@.len() ==> (#[trigger] keys@[x])@ == kv[x],
            perm@.len() == i as int,
            forall|k: int| 0 <= k < perm@.len() ==> (#[trigger] perm@[k]) < i,
            forall|k1: int, k2: int|
                0 <= k1 < k2 < perm@.len() ==> (#[trigger] perm@[k1]) != (#[trigger] perm@[k2]),
            forall|k: int|
                0 <= k < perm@.len() - 1 ==> key_before(
                    kv[#[trigger] perm@[k] as int],
                    perm@[k] as int,
                    kv[perm@[k + 1] as int],
                    perm@[k + 1] as int,
                    numeric,
                    desc,
                ),
        decreases n - i,
    {
        let mut j: usize = perm.len();
        while j > 0 && !key_before_exec(&keys[perm[j - 1]], perm[j - 1], &keys[i], i, numeric,
            desc)
            invariant
                j <= perm@.len(),
                i < n,
                n == keys@.len(),
                kv == keys@.map_values(|c: Cell| c@),
                numeric ==> col_numeric(kv),
                forall|x: int| 0 <= x < keys@.len() ==> (#[trigger] keys@[x])@ == kv[x],
                perm@.len() == i as int,
                forall|k: int| 0 <= k < perm@.len() ==> (#[trigger] perm@[k]) < i,
                forall|p: int|
                    j <= p < perm@.len() ==> !key_before(
                        kv[#[trigger] perm@[p] as int],
                        perm@[p] as int,
                        kv[i as int],
                        i as int,
                        numeric,
                        desc,
                    ),
            decreases j,
        {
            j -= 1;
        }
        proof {
            perm@.insert_ensures(j as int, i);
        }
        let ghost old_perm = perm@;
        perm.insert(j, i);
        proof {
            assert(perm@ == old_perm.insert(j as int, i));
            // The inserted row is distinct from every earlier one.
            assert forall|k1: int, k2: int|
                0 <= k1 < k2 < perm@.len() implies (#[trigger] perm@[k1]) != (#[trigger] perm@[
                k2]) by {
                if k1 == j {
                    assert(perm@[k1] == i);
                    assert(perm@[k2] == old_perm[k2 - 1]);
                } else if k2 == j {
                    assert(perm@[k2] == i);
                    assert(perm@[k1] == old_perm[k1]);
                } else {
                    if k1 < j {
                        assert(perm@[k1] == old_perm[k1]);
                    } else {
                        assert(perm@[k1] == old_perm[k1 - 1]);
                    }
                    if k2 < j {
                        assert(perm@[k2] == old_perm[k2]);
                    } else {
                        assert(perm@[k2] == old_perm[k2 - 1]);
                    }
                }
            }
            // Adjacent pairs stay ordered around the insertion point.
            assert forall|k: int|
                0 <= k < perm@.len() - 1 implies key_before(
                kv[#[trigger] perm@[k] as int],
                perm@[k] as int,
                kv[perm@[k + 1] as int],
                perm@[k + 1] as int,
                numeric,
                desc,
            ) by {
                if k + 1 < j {
                    assert(perm@[k] == old_perm[k]);
                    assert(perm@[k + 1] == old_perm[k + 1]);
                } else if k + 1 == j {
                    assert(perm@[k] == old_perm[k]);
                    assert(perm@[k + 1] == i);
                } else if k == j {
                    assert(perm@[k] == i);
                    assert(perm@[k + 1] == old_perm[k]);
                    assert(!key_before(
                        kv[old_perm[k] as int],
                        old_perm[k] as int,
                        kv[i as int],
                        i as int,
                        numeric,
                        desc,
                    ));
                    lemma_key_before_total(
                        kv[old_perm[k] as int],
                        old_perm[k] as int,
                        kv[i as int],
                        i as int,
                        numeric,
                        desc,
                    );
                } else {
                    assert(perm@[k] == old_perm[k - 1]);
                    assert(perm@[k + 1] == old_perm[k]);
                }
            }
        }
        i += 1;
    }
    perm
}

/// The cells of a column rearranged by a permutation.
fn apply_perm(cells: &Vec<Cell>, perm: &Vec<usize>) -> (r: Vec<Cell>)
    requires
        forall|k: int| 0 <= k < perm@.len() ==> (#[trigger] perm@[k]) < cells@.len(),
    ensures
        r@.len() == perm@.len(),
        forall|k: int|
            0 <= k < perm@.len() ==> (#[trigger] r@[k])@ == cells@.map_values(|c: Cell| c@)[
                perm@[k] as int],
{
    let mut out: Vec<Cell> = Vec::new();
    let mut k: usize = 0;
    while k < perm.len()
        invariant
            k <= perm@.len(),
            forall|m: int| 0 <= m < perm@.len() ==> (#[trigger] perm@[m]) < cells@.len(),
            out@.len() == k as int,
            forall|m: int|
                0 <= m < k ==> (#[trigger] out@[m])@ == cells@.map_values(|c: Cell| c@)[perm@[
                    m] as int],
        decreases perm@.len() - k,
    {
        out.push(cells[perm[k]].duplicate());
        k += 1;
    }
    out
}

/// The table sorted stably by the named column.
///
/// Fails exactly when the column is missing. On success the result holds the
/// same columns; its rows are the original rows rearranged by one
/// permutation, and consecutive rows are ordered by the key column: numeric
/// order when every key value is decimal and lexicographic otherwise, the
/// requested direction, nulls last, ties in original order.
pub fn sort_table(table: &Table, name: &str, descending: bool) -> (r: Result<
    (Table, Ghost<Seq<usize>>),
    ViewError,
>)
    requires
        wf_table(table@),
    ensures
        match r {
            Ok((t, p)) => {
                &&& has_column(table@, name@)
                &&& wf_table(t@)
                &&& t@.len() == table@.len()
                &&& height_of(t@) == height_of(table@)
                &&& forall|j: int|
                    0 <= j < t@.len() ==> (#[trigger] t@[j]).name == table@[j].name
                &&& p@.len() == height_of(table@)
                &&& (forall|k: int| 0 <= k < p@.len() ==> (#[trigger] p@[k]) < p@.len())
                &&& (forall|k1: int, k2: int|
                    0 <= k1 < k2 < p@.len() ==> (#[trigger] p@[k1]) != (#[trigger] p@[k2]))
                &&& (forall|j: int, k: int|
                    0 <= j < t@.len() && 0 <= k < p@.len() ==> (#[trigger] t@[j].cells[k])
                        == table@[j].cells[p@[k] as int])
                &&& ({
                    let ci = crate::table::col_index_of(table@, name@).unwrap();
                    let kv = table@[ci].cells;
                    forall|k: int|
                        0 <= k < p@.len() - 1 ==> key_before(
                            kv[#[trigger] p@[k] as int],
                            p@[k] as int,
                            kv[p@[k + 1] as int],
                            p@[k + 1] as int,
                            col_numeric(kv),
                            descending,
                        )
                })
            },
            Err(e) => {
                &&& !has_column(table@, name@)
                &&& e matches ViewError::ColumnNotFound(c) && c@ == name@
            },
        },
{
    let ci = match table.find_column(name) {
        Some(j) => j,
        None => {
            return Err(ViewError::ColumnNotFound(String::from_str(name)));
        },
    };
    proof {
        lemma_col_index(table@, name@, ci as int);
    }
    let keycol = &table.cols[ci];
    proof {
        assert(table@[ci as int] == keycol@);
        assert(keycol@.cells.len() == height_of(table@));
    }
    let numeric = col_numeric_exec(&keycol.cells);
    let perm = sort_perm(&keycol.cells, numeric, descending);
    let mut cols: Vec<Column> = Vec::new();
    let mut j: usize = 0;
    while j < table.cols.len()
        invariant
            j <= table.cols@.len(),
            wf_table(table@),
            perm@.len() == height_of(table@),
            forall|k: int| 0 <= k < perm@.len() ==> (#[trigger] perm@[k]) < perm@.len(),
            cols@.len() == j as int,
            forall|k: int|
                0 <= k < j ==> (#[trigger] cols@[k]@).name == table@[k].name,
            forall|k: int|
                0 <= k < j ==> (#[trigger] cols@[k]@).cells.len() == perm@.len(),
            forall|k: int, m: int|
                0 <= k < j && 0 <= m < perm@.len() ==> (#[trigger] cols@[k]@.cells[m]) == table@[
                    k].cells[perm@[m] as int],
        decreases table.cols@.len() - j,
    {
        let c = &table.cols[j];
        proof {
            assert(table@[j as int] == c@);
            assert(c@.cells.len() == height_of(table@));
        }
        let cells = apply_perm(&c.cells, &perm);
        cols.push(Column { name: c.name.clone(), cells });
        proof {
            assert forall|m: int|
                0 <= m < perm@.len() implies cols@[j as int]@.cells[m] == table@[j as int].cells[
                perm@[m] as int] by {
                assert(cols@[j as int]@.cells[m] == cells@[m]@);
            }
        }
        j += 1;
    }
    let out = Table { cols };
    proof {
        assert(out@.len() == table@.len());
        assert forall|k: int| 0 <= k < out@.len() implies (#[trigger] out@[k]).name == table@[
            k].name && out@[k].cells.len() == perm@.len() by {
            assert(out@[k] == cols@[k]@);
        }
        if out@.len() > 0 {
            assert(height_of(out@) == out@[0].cells.len());
        }
        assert forall|jj: int, k: int|
            0 <= jj < out@.len() && 0 <= k < perm@.len() implies (#[trigger] out@[jj].cells[k])
            == table@[jj].cells[perm@[k] as int] by {
            assert(out@[jj] == cols@[jj]@);
        }
        assert(table@[ci as int].cells == keycol@.cells);
    }
    Ok((out, Ghost(perm@)))
}

/// Whether every non-null cell of a column parses as a decimal number.
pub(crate) fn col_numeric_exec(cells: &Vec<Cell>) -> (r: bool)
    ensures
        r == col_numeric(cells@.map_values(|c: Cell| c@)),
{
    let ghost kv = cells@.map_values(|c: Cell| c@);
    let mut i: usize = 0;
    while i < cells.len()
        invariant
            i <= cells@.len(),
            kv == cells@.map_values(|c: Cell| c@),
            forall|k: int|
                0 <= k < i ==> match #[trigger] kv[k] {
                    Some(s) => is_dec(s),
                    None => true,
                },
        decreases cells@.len() - i,
    {
        match &cells[i] {
            Cell::Null => {},
            Cell::Text(s) => {
                if parse_dec(s.as_str()).is_none() {
                    proof {
                        assert(kv[i as int] == cells@[i as int]@);
                        assert(!col_numeric(kv));
                    }
                    return false;
                }
                proof {
                    assert(kv[i as int] == cells@[i as int]@);
                }
            },
        }
        i += 1;
    }
    true
}

} // verus!
