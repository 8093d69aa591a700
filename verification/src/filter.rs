//! The predicate tree and the mask evaluator: a filter is a recursive tree of
//! leaf conditions and logical groups, compiled against a table into one
//! boolean per row.

use vstd::prelude::*;
use crate::table::{Table, ColModel, Cell, wf_table, height_of, has_column, col_index_of};
use crate::text::{seq_contains, seq_starts_with, seq_ends_with, lex_lt};
use crate::num::{is_dec, dec_lt, parse_dec, dec_cmp, DecParts, CmpRes, parts_of, all_digits, parts_num};
use crate::error::ViewError;

verus! {

/// A leaf test against one column.
pub enum FilterOperator {
    Contains,
    NotContains,
    Equals,
    NotEquals,
    StartsWith,
    EndsWith,
    GreaterThan,
    LessThan,
    IsNull,
    IsNotNull,
}

/// A leaf of the predicate tree: one column, one operator, and an optional
/// comparison value.
pub struct FilterCondition {
    pub column: String,
    pub operator: FilterOperator,
    pub value: Option<String>,
}

/// A predicate tree: a condition, or a logical group over child nodes.
pub enum FilterNode {
    Condition(FilterCondition),
    Group { logic: String, conditions: Vec<FilterNode> },
}

/// The comparison value of a condition; a missing value reads as empty.
pub open spec fn cond_value(c: FilterCondition) -> Seq<char> {
    match c.value {
        Some(v) => v@,
        None => Seq::<char>::empty(),
    }
}

/// Whether a group's logic word selects OR folding; anything else folds with
/// AND. The word is matched case-insensitively.
pub open spec fn is_or_logic(l: Seq<char>) -> bool {
    l.len() == 2 && (l[0] == 'O' || l[0] == 'o') && (l[1] == 'R' || l[1] == 'r')
}

/// Whether one cell satisfies one operator against a comparison value.
/// Null cells satisfy only `IsNull`: every other operator reads null as no
/// match, including the negated ones.
pub open spec fn cell_matches(cell: Option<Seq<char>>, op: FilterOperator, v: Seq<char>) -> bool {
    match op {
        FilterOperator::IsNull => cell is None,
        FilterOperator::IsNotNull => cell is Some,
        FilterOperator::Contains => match cell {
            Some(s) => seq_contains(s, v),
            None => false,
        },
        FilterOperator::NotContains => match cell {
            Some(s) => !seq_contains(s, v),
            None => false,
        },
        FilterOperator::Equals => match cell {
            Some(s) => s == v,
            None => false,
        },
        FilterOperator::NotEquals => match cell {
            Some(s) => s != v,
            None => false,
        },
        FilterOperator::StartsWith => match cell {
            Some(s) => seq_starts_with(s, v),
            None => false,
        },
        FilterOperator::EndsWith => match cell {
            Some(s) => seq_ends_with(s, v),
            None => false,
        },
        FilterOperator::GreaterThan => match cell {
            Some(s) => if is_dec(v) {
                is_dec(s) && dec_lt(v, s)
            } else {
                lex_lt(v, s)
            },
            None => false,
        },
        FilterOperator::LessThan => match cell {
            Some(s) => if is_dec(v) {
                is_dec(s) && dec_lt(s, v)
            } else {
                lex_lt(s, v)
            },
            None => false,
        },
    }
}

/// The cell of the named column in the given row.
pub open spec fn cell_of(t: Seq<ColModel>, name: Seq<char>, row: int) -> Option<Seq<char>> {
    t[col_index_of(t, name).unwrap()].cells[row]
}

/// Whether a row satisfies a predicate tree: conditions test their column's
/// cell; an empty group matches everything; a non-empty group folds its
/// children with OR or AND.
pub open spec fn node_matches(t: Seq<ColModel>, row: int, n: FilterNode) -> bool
    decreases n,
{
    match n {
        FilterNode::Condition(c) => cell_matches(cell_of(t, c.column@, row), c.operator,
            cond_value(c)),
        FilterNode::Group { logic, conditions } => {
            if conditions@.len() == 0 {
                true
            } else if is_or_logic(logic@) {
                exists|i: int|
                    0 <= i < conditions@.len() && node_matches(t, row, #[trigger] conditions@[i])
            } else {
                forall|i: int|
                    0 <= i < conditions@.len() ==> node_matches(t, row, #[trigger] conditions@[i])
            }
        },
    }
}

/// The first column name, in depth-first order, that a tree references but
/// the table lacks; `None` when every referenced column exists.
pub open spec fn node_missing(t: Seq<ColModel>, n: FilterNode) -> Option<Seq<char>>
    decreases n,
{
    match n {
        FilterNode::Condition(c) => if has_column(t, c.column@) {
            None
        } else {
            Some(c.column@)
        },
        FilterNode::Group { logic, conditions } => kids_missing(t, conditions@),
    }
}

/// The first missing column among a sequence of sibling nodes.
pub open spec fn kids_missing(t: Seq<ColModel>, s: Seq<FilterNode>) -> Option<Seq<char>>
    decreases s,
{
    if s.len() == 0 {
        None
    } else {
        match node_missing(t, s[0]) {
            Some(m) => Some(m),
            None => kids_missing(t, s.skip(1)),
        }
    }
}

/// The depth of a predicate tree, for termination measures.
pub open spec fn node_height(n: FilterNode) -> nat
    decreases n,
{
    match n {
        FilterNode::Condition(_) => 0,
        FilterNode::Group { logic, conditions } => 1 + kids_height(conditions@),
    }
}

/// The greatest depth among sibling nodes.
pub open spec fn kids_height(s: Seq<FilterNode>) -> nat
    decreases s,
{
    if s.len() == 0 {
        0
    } else {
        let h0 = node_height(s[0]);
        let hr = kids_height(s.skip(1));
        if h0 > hr {
            h0
        } else {
            hr
        }
    }
}

pub proof fn lemma_kids_height(s: Seq<FilterNode>, i: int)
    requires
        0 <= i < s.len(),
    ensures
        node_height(s[i]) <= kids_height(s),
    decreases s.len(),
{
    if i > 0 {
        lemma_kids_height(s.skip(1), i - 1);
        assert(s.skip(1)[i - 1] == s[i]);
    }
}

/// When the first `i` siblings reference only existing columns and the
/// `i`-th does not, the group's first missing column is the `i`-th sibling's.
pub proof fn lemma_kids_missing_at(t: Seq<ColModel>, s: Seq<FilterNode>, i: int)
    requires
        0 <= i < s.len(),
        forall|c: int| 0 <= c < i ==> node_missing(t, #[trigger] s[c]) is None,
        node_missing(t, s[i]) is Some,
    ensures
        kids_missing(t, s) == node_missing(t, s[i]),
    decreases i,
{
    if i == 0 {
    } else {
        assert(node_missing(t, s[0]) is None);
        assert forall|c: int| 0 <= c < i - 1 implies node_missing(t, #[trigger] s.skip(1)[c])
            is None by {
            assert(s.skip(1)[c] == s[c + 1]);
        }
        assert(s.skip(1)[i - 1] == s[i]);
        lemma_kids_missing_at(t, s.skip(1), i - 1);
    }
}

/// A group whose siblings all reference existing columns has no missing
/// column.
pub proof fn lemma_kids_missing_none(t: Seq<ColModel>, s: Seq<FilterNode>)
    requires
        forall|c: int| 0 <= c < s.len() ==> node_missing(t, #[trigger] s[c]) is None,
    ensures
        kids_missing(t, s) is None,
    decreases s.len(),
{
    if s.len() > 0 {
        assert forall|c: int|
            0 <= c < s.skip(1).len() implies node_missing(t, #[trigger] s.skip(1)[c]) is None by {
            assert(s.skip(1)[c] == s[c + 1]);
        }
        lemma_kids_missing_none(t, s.skip(1));
    }
}

/// In a well-formed table the named column's index is unique.
pub proof fn lemma_col_index(t: Seq<ColModel>, name: Seq<char>, j: int)
    requires
        wf_table(t),
        0 <= j < t.len(),
        t[j].name == name,
    ensures
        col_index_of(t, name) == Some(j),
{
    assert(has_column(t, name));
    let k = col_index_of(t, name).unwrap();
    if k != j {
        assert(t[k].name == name);
        if k < j {
            assert(t[k].name != t[j].name);
        } else {
            assert(t[j].name != t[k].name);
        }
    }
}

/// Whether one cell satisfies one operator, executably. `vparts` must be the
/// parse of `val` against the decimal grammar.
#[verifier::rlimit(30)]
fn cell_matches_exec(cell: &Cell, op: &FilterOperator, val: &str, vparts: &Option<DecParts>) -> (r:
    bool)
    requires
        match vparts {
            Some(p) => is_dec(val@) && parts_of(*p, val@) && all_digits(p.digits@),
            None => !is_dec(val@),
        },
    ensures
        r == cell_matches(cell@, *op, val@),
{
    match op {
        FilterOperator::IsNull => cell.is_null(),
        FilterOperator::IsNotNull => !cell.is_null(),
        FilterOperator::Contains => match cell {
            Cell::Null => false,
            Cell::Text(s) => crate::text::str_contains(s.as_str(), val),
        },
        FilterOperator::NotContains => match cell {
            Cell::Null => false,
            Cell::Text(s) => !crate::text::str_contains(s.as_str(), val),
        },
        FilterOperator::Equals => match cell {
            Cell::Null => false,
            Cell::Text(s) => crate::text::str_eq(s.as_str(), val),
        },
        FilterOperator::NotEquals => match cell {
            Cell::Null => false,
            Cell::Text(s) => !crate::text::str_eq(s.as_str(), val),
        },
        FilterOperator::StartsWith => match cell {
            Cell::Null => false,
            Cell::Text(s) => crate::text::str_starts_with(s.as_str(), val),
        },
        FilterOperator::EndsWith => match cell {
            Cell::Null => false,
            Cell::Text(s) => crate::text::str_ends_with(s.as_str(), val),
        },
        FilterOperator::GreaterThan => match cell {
            Cell::Null => false,
            Cell::Text(s) => {
            match vparts {
                Some(p) => {
                    match parse_dec(s.as_str()) {
                        Some(cp) => {
                            let c = dec_cmp(&cp, p);
                            proof {
                                assert(parts_num(cp) == crate::num::dec_num(s@));
                                assert(parts_num(*p) == crate::num::dec_num(val@));
                                assert((c is Gt) == dec_lt(val@, s@));
                            }
                            match c {
                                CmpRes::Gt => true,
                                _ => false,
                            }
                        },
                        None => false,
                    }
                },
                None => crate::text::str_lt(val, s.as_str()),
            }
            },
        },
        FilterOperator::LessThan => match cell {
            Cell::Null => false,
            Cell::Text(s) => {
            match vparts {
                Some(p) => {
                    match parse_dec(s.as_str()) {
                        Some(cp) => {
                            let c = dec_cmp(&cp, p);
                            proof {
                                assert(parts_num(cp) == crate::num::dec_num(s@));
                                assert(parts_num(*p) == crate::num::dec_num(val@));
                                assert((c is Lt) == dec_lt(s@, val@));
                            }
                            match c {
                                CmpRes::Lt => true,
                                _ => false,
                            }
                        },
                        None => false,
                    }
                },
                None => crate::text::str_lt(s.as_str(), val),
            }
            },
        },
    }
}

/// Compiles a predicate tree against a table into one boolean per row.
///
/// On success the mask has exactly the table's height and its `i`-th entry
/// says whether row `i` satisfies the tree. The evaluation fails exactly when
/// the tree references a column the table lacks, and then names the first
/// such column in depth-first order.
pub fn build_filter_mask(table: &Table, node: &FilterNode) -> (r: Result<Vec<bool>, ViewError>)
    requires
        wf_table(table@),
    ensures
        match r {
            Ok(mask) => {
                &&& node_missing(table@, *node) is None
                &&& mask@.len() == height_of(table@)
                &&& forall|i: int|
                    0 <= i < mask@.len() ==> mask@[i] == node_matches(table@, i, *node)
            },
            Err(e) => {
                &&& node_missing(table@, *node) is Some
                &&& e matches ViewError::ColumnNotFound(c) && Some(c@) == node_missing(
                    table@,
                    *node,
                )
            },
        },
    decreases node_height(*node),
{
    match node {
        FilterNode::Condition(cond) => {
            let idx = match table.find_column(cond.column.as_str()) {
                Some(j) => j,
                None => {
                    return Err(ViewError::ColumnNotFound(cond.column.clone()));
                },
            };
            proof {
                lemma_col_index(table@, cond.column@, idx as int);
            }
            let val: &str = match &cond.value {
                Some(v) => v.as_str(),
                None => "",
            };
            proof {
                reveal_strlit("");
                assert(val@ =~= cond_value(*cond));
            }
            let vparts = parse_dec(val);
            let col = &table.cols[idx];
            let n = col.cells.len();
            proof {
                assert(table@[idx as int].cells.len() == height_of(table@));
            }
            let mut mask: Vec<bool> = Vec::new();
            let mut i: usize = 0;
            while i < n
                invariant
                    i <= n,
                    n == col.cells@.len(),
                    col == table.cols@[idx as int],
                    0 <= idx < table@.len(),
                    table@[idx as int] == col@,
                    mask@.len() == i as int,
                    match vparts {
                        Some(p) => is_dec(val@) && parts_of(p, val@) && all_digits(p.digits@),
                        None => !is_dec(val@),
                    },
                    forall|k: int|
                        0 <= k < i ==> mask@[k] == cell_matches(col@.cells[k], cond.operator,
                        val@),
                decreases n - i,
            {
                let m = cell_matches_exec(&col.cells[i], &cond.operator, val, &vparts);
                proof {
                    assert(col.cells@[i as int]@ == col@.cells[i as int]);
                }
                mask.push(m);
                i += 1;
            }
            proof {
                assert forall|k: int|
                    0 <= k < mask@.len() implies mask@[k] == node_matches(table@, k, *node) by {
                    assert(cell_of(table@, cond.column@, k) == col@.cells[k]);
                }
            }
            Ok(mask)
        },
        FilterNode::Group { logic, conditions } => {
            let h = table.height();
            let ghost kids = conditions@;
            if conditions.len() == 0 {
                let mut mask: Vec<bool> = Vec::new();
                let mut i: usize = 0;
                while i < h
                    invariant
                        i <= h,
                        mask@.len() == i as int,
                        forall|k: int| 0 <= k < i ==> mask@[k] == true,
                    decreases h - i,
                {
                    mask.push(true);
                    i += 1;
                }
                return Ok(mask);
            }
            let or_mode = is_or_exec(logic.as_str());
            let mut acc: Vec<bool>;
            proof {
                lemma_kids_height(kids, 0);
            }
            match build_filter_mask(table, &conditions[0]) {
                Ok(m) => {
                    acc = m;
                },
                Err(e) => {
                    proof {
                        lemma_kids_missing_at(table@, kids, 0);
                    }
                    return Err(e);
                },
            }
            let mut ci: usize = 1;
            while ci < conditions.len()
                invariant
                    1 <= ci <= kids.len(),
                    kids == conditions@,
                    *node == (FilterNode::Group { logic: *logic, conditions: *conditions }),
                    wf_table(table@),
                    or_mode == is_or_logic(logic@),
                    acc@.len() == height_of(table@),
                    forall|c: int| 0 <= c < ci ==> node_missing(table@, #[trigger] kids[c]) is None,
                    forall|k: int|
                        0 <= k < acc@.len() ==> mask_fold(table@, k, kids, ci as int, or_mode)
                            == #[trigger] acc@[k],
                decreases kids.len() - ci,
            {
                proof {
                    lemma_kids_height(kids, ci as int);
                }
                let m = match build_filter_mask(table, &conditions[ci]) {
                    Ok(m) => m,
                    Err(e) => {
                        proof {
                            lemma_kids_missing_at(table@, kids, ci as int);
                        }
                        return Err(e);
                    },
                };
                let mut combined: Vec<bool> = Vec::new();
                let mut k: usize = 0;
                while k < acc.len()
                    invariant
                        k <= acc@.len(),
                        acc@.len() == m@.len(),
                        combined@.len() == k as int,
                        forall|x: int|
                            0 <= x < k ==> #[trigger] combined@[x] == if or_mode {
                                acc@[x] || m@[x]
                            } else {
                                acc@[x] && m@[x]
                            },
                    decreases acc@.len() - k,
                {
                    let v = if or_mode {
                        acc[k] || m[k]
                    } else {
                        acc[k] && m[k]
                    };
                    combined.push(v);
                    k += 1;
                }
                proof {
                    assert forall|x: int|
                        0 <= x < combined@.len() implies mask_fold(table@, x, kids, ci + 1,
                        or_mode) == #[trigger] combined@[x] by {
                        lemma_mask_fold_step(table@, x, kids, ci as int, or_mode);
                    }
                }
                acc = combined;
                ci += 1;
            }
            proof {
                lemma_kids_missing_none(table@, kids);
                assert forall|k: int|
                    0 <= k < acc@.len() implies acc@[k] == node_matches(table@, k, *node) by {
                    assert(mask_fold(table@, k, kids, kids.len() as int, or_mode) == acc@[k]);
                }
            }
            Ok(acc)
        },
    }
}

/// The fold of the first `ci` siblings' row predicates with OR or AND.
pub open spec fn mask_fold(t: Seq<ColModel>, row: int, kids: Seq<FilterNode>, ci: int,
    or_mode: bool) -> bool {
    if or_mode {
        exists|c: int| 0 <= c < ci && node_matches(t, row, #[trigger] kids[c])
    } else {
        forall|c: int| 0 <= c < ci ==> node_matches(t, row, #[trigger] kids[c])
    }
}

proof fn lemma_mask_fold_step(t: Seq<ColModel>, row: int, kids: Seq<FilterNode>, ci: int,
    or_mode: bool)
    requires
        0 <= ci < kids.len(),
    ensures
        mask_fold(t, row, kids, ci + 1, or_mode) == if or_mode {
            mask_fold(t, row, kids, ci, or_mode) || node_matches(t, row, kids[ci])
        } else {
            mask_fold(t, row, kids, ci, or_mode) && node_matches(t, row, kids[ci])
        },
{
    if or_mode {
        if mask_fold(t, row, kids, ci, or_mode) || node_matches(t, row, kids[ci]) {
            assert(mask_fold(t, row, kids, ci + 1, or_mode));
        }
        if mask_fold(t, row, kids, ci + 1, or_mode) {
            let c = choose|c: int| 0 <= c < ci + 1 && node_matches(t, row, #[trigger] kids[c]);
            if c < ci {
                assert(mask_fold(t, row, kids, ci, or_mode));
            }
        }
    }
}

/// Whether a logic word selects OR folding, executably.
fn is_or_exec(l: &str) -> (r: bool)
    ensures
        r == is_or_logic(l@),
{
    let n = l.unicode_len();
    if n != 2 {
        return false;
    }
    let c0 = l.get_char(0);
    let c1 = l.get_char(1);
    (c0 == 'O' || c0 == 'o') && (c1 == 'R' || c1 == 'r')
}



/// Whether a cell contains the query string; null cells never match.
pub open spec fn cell_contains(cell: Option<Seq<char>>, q: Seq<char>) -> bool {
    match cell {
        Some(s) => seq_contains(s, q),
        None => false,
    }
}

/// Whether any cell of the row, over all columns, contains the query.
pub open spec fn quick_row_match(t: Seq<ColModel>, row: int, q: Seq<char>) -> bool {
    exists|j: int| 0 <= j < t.len() && cell_contains(#[trigger] t[j].cells[row], q)
}

/// The quick-filter mask against one named column: one boolean per row,
/// true where the cell contains the query. Fails exactly when the column is
/// missing.
pub fn quick_mask_col(table: &Table, name: &str, query: &str) -> (r: Result<Vec<bool>, ViewError>)
    requires
        wf_table(table@),
    ensures
        match r {
            Ok(mask) => {
                &&& has_column(table@, name@)
                &&& mask@.len() == height_of(table@)
                &&& forall|i: int|
                    0 <= i < mask@.len() ==> mask@[i] == cell_contains(
                        cell_of(table@, name@, i),
                        query@,
                    )
            },
            Err(e) => {
                &&& !has_column(table@, name@)
                &&& e matches ViewError::ColumnNotFound(c) && c@ == name@
            },
        },
{
    let idx = match table.find_column(name) {
        Some(j) => j,
        None => {
            return Err(ViewError::ColumnNotFound(String::from_str(name)));
        },
    };
    proof {
        lemma_col_index(table@, name@, idx as int);
    }
    let col = &table.cols[idx];
    proof {
        assert(table@[idx as int] == col@);
        assert(col@.cells.len() == height_of(table@));
    }
    let n = col.cells.len();
    let mut mask: Vec<bool> = Vec::new();
    let mut i: usize = 0;
    while i < n
        invariant
            i <= n,
            n == col.cells@.len(),
            col == table.cols@[idx as int],
            0 <= idx < table@.len(),
            table@[idx as int] == col@,
            mask@.len() == i as int,
            forall|k: int| 0 <= k < i ==> mask@[k] == cell_contains(col@.cells[k], query@),
        decreases n - i,
    {
        let m = match &col.cells[i] {
            Cell::Null => false,
            Cell::Text(s) => crate::text::str_contains(s.as_str(), query),
        };
        proof {
            assert(col.cells@[i as int]@ == col@.cells[i as int]);
        }
        mask.push(m);
        i += 1;
    }
    proof {
        assert forall|k: int| 0 <= k < mask@.len() implies mask@[k] == cell_contains(
            cell_of(table@, name@, k),
            query@,
        ) by {
            assert(cell_of(table@, name@, k) == col@.cells[k]);
        }
    }
    Ok(mask)
}

/// The quick-filter mask over all columns: one boolean per row, true where
/// any cell of the row contains the query. A table with no columns yields an
/// all-false mask.
pub fn quick_mask_all(table: &Table, query: &str) -> (mask: Vec<bool>)
    requires
        wf_table(table@),
    ensures
        mask@.len() == height_of(table@),
        forall|i: int| 0 <= i < mask@.len() ==> mask@[i] == quick_row_match(table@, i, query@),
{
    let h = table.height();
    let mut mask: Vec<bool> = Vec::new();
    let mut i: usize = 0;
    while i < h
        invariant
            i <= h,
            h as nat == height_of(table@),
            wf_table(table@),
            mask@.len() == i as int,
            forall|k: int| 0 <= k < i ==> mask@[k] == quick_row_match(table@, k, query@),
        decreases h - i,
    {
        let mut m = false;
        let mut j: usize = 0;
        while j < table.cols.len()
            invariant
                j <= table.cols@.len(),
                i < h,
                h as nat == height_of(table@),
                wf_table(table@),
                m == exists|w: int|
                    0 <= w < j && cell_contains(#[trigger] table@[w].cells[i as int], query@),
            decreases table.cols@.len() - j,
        {
            let col = &table.cols[j];
            proof {
                assert(table@[j as int] == col@);
                assert(col@.cells.len() == height_of(table@));
            }
            let hit = match &col.cells[i] {
                Cell::Null => false,
                Cell::Text(s) => crate::text::str_contains(s.as_str(), query),
            };
            proof {
                assert(col.cells@[i as int]@ == col@.cells[i as int]);
            }
            if hit {
                m = true;
            }
            proof {
                if m && !(exists|w: int|
                    0 <= w < j + 1 && cell_contains(#[trigger] table@[w].cells[i as int],
                        query@)) {
                    assert(false);
                }
            }
            j += 1;
        }
        mask.push(m);
        i += 1;
    }
    mask
}

} // verus!
