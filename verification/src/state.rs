//! The view state machine: an immutable original table, a derived current
//! view, the source path, and an optional grouping descriptor. Every filter
//! and group-by reads the original table, never the current view, so
//! re-deriving is independent of operation history; sorting reads the
//! current view in place.

use vstd::prelude::*;
use vstd::string::StringExecFns;
use crate::table::{Table, ColModel, wf_table, height_of, has_column, filter_seq};
use crate::filter::{FilterNode, node_matches, node_missing, build_filter_mask, cell_of,
    cell_contains, quick_row_match, quick_mask_col, quick_mask_all};
use crate::group::{AggregationType, group_by_table, agg_label, agg_col_name, distinct_keys,
    count_key, agg_cell_ok, col_summable};
use crate::sort::{sort_table, key_before, col_numeric};
use crate::error::ViewError;

verus! {

/// The grouping descriptor: present only while the current view is a
/// grouped derivation of the original.
pub struct GroupingInfo {
    pub column: String,
    pub aggregation: String,
}

impl GroupingInfo {
    /// A copy of the descriptor.
    pub fn duplicate(&self) -> (r: GroupingInfo)
        ensures
            r@ == self@,
    {
        GroupingInfo { column: self.column.clone(), aggregation: self.aggregation.clone() }
    }
}

impl View for GroupingInfo {
    type V = (Seq<char>, Seq<char>);

    open spec fn view(&self) -> (Seq<char>, Seq<char>) {
        (self.column@, self.aggregation@)
    }
}

/// The mathematical model of the view state.
#[verifier::ext_equal]
pub struct StateModel {
    pub original: Option<Seq<ColModel>>,
    pub current: Option<Seq<ColModel>>,
    pub path: Option<Seq<char>>,
    pub grouping: Option<(Seq<char>, Seq<char>)>,
}

/// The view state: the original table as loaded, the current derived view,
/// the source path, and the grouping descriptor.
pub struct AppState {
    pub original_df: Option<Table>,
    pub current_df: Option<Table>,
    pub file_path: Option<String>,
    pub grouping: Option<GroupingInfo>,
}

impl View for AppState {
    type V = StateModel;

    open spec fn view(&self) -> StateModel {
        StateModel {
            original: match self.original_df {
                Some(t) => Some(t@),
                None => None,
            },
            current: match self.current_df {
                Some(t) => Some(t@),
                None => None,
            },
            path: match self.file_path {
                Some(p) => Some(p@),
                None => None,
            },
            grouping: match self.grouping {
                Some(g) => Some(g@),
                None => None,
            },
        }
    }
}

/// Both tables of a state, where present, are well formed.
pub open spec fn wf_state(s: StateModel) -> bool {
    &&& (s.original matches Some(t) ==> wf_table(t))
    &&& (s.current matches Some(t) ==> wf_table(t))
}

/// The table restricted to the rows where the mask is true.
pub open spec fn filter_table(t: Seq<ColModel>, m: Seq<bool>) -> Seq<ColModel> {
    Seq::new(t.len(), |j: int| ColModel { name: t[j].name, cells: filter_seq(t[j].cells, m) })
}

/// The row mask of a predicate tree over a table.
pub open spec fn eval_mask(t: Seq<ColModel>, n: FilterNode) -> Seq<bool> {
    Seq::new(height_of(t), |i: int| node_matches(t, i, n))
}

/// The quick-filter row mask against one column.
pub open spec fn col_mask(t: Seq<ColModel>, name: Seq<char>, q: Seq<char>) -> Seq<bool> {
    Seq::new(height_of(t), |i: int| cell_contains(cell_of(t, name, i), q))
}

/// The quick-filter row mask over all columns.
pub open spec fn all_mask(t: Seq<ColModel>, q: Seq<char>) -> Seq<bool> {
    Seq::new(height_of(t), |i: int| quick_row_match(t, i, q))
}

/// The table a successful quick filter derives from the original: the whole
/// original for an empty query, else the rows whose chosen column (or, with
/// no chosen column, any column) contains the query.
pub open spec fn quick_filter_outcome(orig: Seq<ColModel>, column: Option<Seq<char>>,
    q: Seq<char>) -> Seq<ColModel> {
    if q.len() == 0 {
        orig
    } else {
        match column {
            Some(name) => filter_table(orig, col_mask(orig, name, q)),
            None => filter_table(orig, all_mask(orig, q)),
        }
    }
}

/// The state a successful quick filter leaves behind: the original and the
/// path are kept, the current view is re-derived from the original, and the
/// grouping is cleared.
pub open spec fn st_quick_filter(s: StateModel, column: Option<Seq<char>>,
    q: Seq<char>) -> StateModel {
    StateModel {
        original: s.original,
        current: Some(quick_filter_outcome(s.original.unwrap(), column, q)),
        path: s.path,
        grouping: None,
    }
}

/// The state a successful advanced filter leaves behind.
pub open spec fn st_advanced_filter(s: StateModel, n: FilterNode) -> StateModel {
    StateModel {
        original: s.original,
        current: Some(filter_table(s.original.unwrap(), eval_mask(s.original.unwrap(), n))),
        path: s.path,
        grouping: None,
    }
}

/// The state a reset leaves behind: the current view becomes a fresh copy
/// of the original and the grouping is cleared.
pub open spec fn st_reset(s: StateModel) -> StateModel {
    StateModel { original: s.original, current: s.original, path: s.path, grouping: None }
}

impl AppState {
    /// A fresh, empty state: nothing loaded.
    pub fn new() -> (s: AppState)
        ensures
            s@.original is None,
            s@.current is None,
            s@.path is None,
            s@.grouping is None,
            wf_state(s@),
    {
        AppState { original_df: None, current_df: None, file_path: None, grouping: None }
    }

    /// Installs a freshly parsed table: both the original and the current
    /// view become that table, the path is recorded, and any grouping is
    /// cleared. Returns the row count.
    pub fn load_csv(&mut self, table: Table, path: String) -> (h: usize)
        requires
            wf_table(table@),
        ensures
            final(self)@.original == Some(table@),
            final(self)@.current == Some(table@),
            final(self)@.path == Some(path@),
            final(self)@.grouping is None,
            wf_state(final(self)@),
            h as nat == height_of(table@),
    {
        let h = table.height();
        let copy = table.duplicate();
        self.original_df = Some(table);
        self.current_df = Some(copy);
        self.file_path = Some(path);
        self.grouping = None;
        h
    }

    /// The read-only projection of the state: source path, current row
    /// count, current column names, and the grouping descriptor. An empty
    /// state yields zeroed defaults, not an error.
    pub fn get_current_state(&self) -> (r: AppStateInfo)
        ensures
            match self@.current {
                Some(t) => {
                    &&& (match r.file_path {
                        Some(p) => self@.path == Some(p@),
                        None => self@.path is None,
                    })
                    &&& r.row_count as nat == height_of(t)
                    &&& r.columns@.len() == t.len()
                    &&& forall|j: int|
                        0 <= j < t.len() ==> (#[trigger] r.columns@[j])@ == t[j].name
                },
                None => {
                    &&& r.file_path is None
                    &&& r.row_count == 0
                    &&& r.columns@.len() == 0
                },
            },
            match r.grouping {
                Some(g) => self@.grouping == Some(g@),
                None => self@.grouping is None,
            },
    {
        let grouping = match &self.grouping {
            Some(g) => Some(g.duplicate()),
            None => None,
        };
        match &self.current_df {
            Some(t) => {
                let path = match &self.file_path {
                    Some(p) => Some(p.clone()),
                    None => None,
                };
                AppStateInfo {
                    file_path: path,
                    row_count: t.height(),
                    columns: t.column_names(),
                    grouping,
                }
            },
            None => AppStateInfo {
                file_path: None,
                row_count: 0,
                columns: Vec::new(),
                grouping,
            },
        }
    }

    /// The current view's column names; fails when nothing is loaded.
    pub fn get_columns(&self) -> (r: Result<Vec<String>, ViewError>)
        ensures
            match r {
                Ok(names) => self@.current matches Some(t) && names@.len() == t.len()
                    && forall|j: int|
                    0 <= j < t.len() ==> (#[trigger] names@[j])@ == t[j].name,
                Err(e) => self@.current is None && e is NoDataLoaded,
            },
    {
        match &self.current_df {
            Some(t) => Ok(t.column_names()),
            None => Err(ViewError::NoDataLoaded),
        }
    }

    /// The current view's row count; fails when nothing is loaded.
    pub fn get_total_rows(&self) -> (r: Result<usize, ViewError>)
        ensures
            match r {
                Ok(h) => self@.current matches Some(t) && h as nat == height_of(t),
                Err(e) => self@.current is None && e is NoDataLoaded,
            },
    {
        match &self.current_df {
            Some(t) => Ok(t.height()),
            None => Err(ViewError::NoDataLoaded),
        }
    }

    /// The requested window of the current view's rows, with `offset` and
    /// `limit` clamped to the table's height: out-of-range or zero-width
    /// requests yield an empty window, not an error. Fails only when
    /// nothing is loaded.
    pub fn get_rows(&self, offset: usize, limit: usize) -> (r: Result<Table, ViewError>)
        requires
            wf_state(self@),
        ensures
            match r {
                Ok(t) => {
                    &&& self@.current matches Some(cur)
                    &&& ({
                        let h = height_of(cur) as int;
                        let start = if offset as int <= h {
                            offset as int
                        } else {
                            h
                        };
                        let end = if offset as int + limit as int <= h {
                            offset as int + limit as int
                        } else {
                            h
                        };
                        &&& t@.len() == cur.len()
                        &&& forall|j: int|
                            0 <= j < cur.len() ==> (#[trigger] t@[j]).name == cur[j].name
                                && t@[j].cells == cur[j].cells.subrange(start, end)
                    })
                },
                Err(e) => self@.current is None && e is NoDataLoaded,
            },
    {
        let t = match &self.current_df {
            Some(t) => t,
            None => {
                return Err(ViewError::NoDataLoaded);
            },
        };
        let h = t.height();
        let start = if offset <= h {
            offset
        } else {
            h
        };
        let end = if limit <= h - start {
            start + limit
        } else {
            h
        };
        Ok(t.slice_rows(start, end))
    }

    /// Sorts the current view in place by the named column, stably, with
    /// nulls last; the grouping descriptor is kept. Fails with
    /// `NoDataLoaded` when nothing is loaded and with `ColumnNotFound` when
    /// the current view lacks the column; on failure the state is
    /// unchanged.
    pub fn apply_sort(&mut self, column: &str, descending: bool) -> (r: Result<usize, ViewError>)
        requires
            wf_state(old(self)@),
        ensures
            wf_state(final(self)@),
            final(self)@.original == old(self)@.original,
            final(self)@.path == old(self)@.path,
            final(self)@.grouping == old(self)@.grouping,
            match r {
                Ok(h) => {
                    &&& old(self)@.current matches Some(cur)
                    &&& has_column(cur, column@)
                    &&& final(self)@.current matches Some(srt)
                    &&& h as nat == height_of(srt)
                    &&& height_of(srt) == height_of(cur)
                    &&& srt.len() == cur.len()
                    &&& (forall|j: int|
                        0 <= j < srt.len() ==> (#[trigger] srt[j]).name == cur[j].name)
                    &&& exists|p: Seq<usize>|
                        {
                            &&& #[trigger] p.len() == height_of(cur)
                            &&& (forall|k: int| 0 <= k < p.len() ==> (#[trigger] p[k]) < p.len())
                            &&& (forall|k1: int, k2: int|
                                0 <= k1 < k2 < p.len() ==> (#[trigger] p[k1]) != (#[trigger] p[
                                    k2]))
                            &&& (forall|j: int, k: int|
                                0 <= j < srt.len() && 0 <= k < p.len() ==> (#[trigger] srt[
                                    j].cells[k]) == cur[j].cells[p[k] as int])
                            &&& ({
                                let ci = crate::table::col_index_of(cur, column@).unwrap();
                                let kv = cur[ci].cells;
                                forall|k: int|
                                    0 <= k < p.len() - 1 ==> key_before(
                                        kv[#[trigger] p[k] as int],
                                        p[k] as int,
                                        kv[p[k + 1] as int],
                                        p[k + 1] as int,
                                        col_numeric(kv),
                                        descending,
                                    )
                            })
                        }
                },
                Err(e) => {
                    &&& final(self)@ == old(self)@
                    &&& match e {
                        ViewError::NoDataLoaded => old(self)@.current is None,
                        ViewError::ColumnNotFound(c) => old(self)@.current matches Some(cur)
                            && !has_column(cur, column@) && c@ == column@,
                        _ => false,
                    }
                },
            },
    {
        let cur = match &self.current_df {
            Some(t) => t,
            None => {
                return Err(ViewError::NoDataLoaded);
            },
        };
        match sort_table(cur, column, descending) {
            Ok((sorted, p)) => {
                let h = sorted.height();
                proof {
                    assert(p@.len() == height_of(cur@));
                }
                self.current_df = Some(sorted);
                Ok(h)
            },
            Err(e) => Err(e),
        }
    }

    /// The quick filter: re-derives the current view from the original.
    /// An empty query restores the full original table; otherwise rows are
    /// kept when the chosen column (or, with no chosen column, any column)
    /// contains the query as a literal substring. Clears the grouping.
    /// Fails with `NoDataLoaded` when nothing is loaded and with
    /// `ColumnNotFound` when the chosen column is missing; on failure the
    /// state is unchanged.
    pub fn apply_filter(&mut self, column: Option<&str>, query: &str) -> (r: Result<
        usize,
        ViewError,
    >)
        requires
            wf_state(old(self)@),
        ensures
            wf_state(final(self)@),
            match r {
                Ok(h) => {
                    &&& old(self)@.original matches Some(orig)
                    &&& (match column {
                        Some(c) => query@.len() > 0 ==> has_column(orig, c@),
                        None => true,
                    })
                    &&& final(self)@ == st_quick_filter(
                        old(self)@,
                        match column {
                            Some(c) => Some(c@),
                            None => None,
                        },
                        query@,
                    )
                    &&& h as nat == height_of(final(self)@.current.unwrap())
                },
                Err(e) => {
                    &&& final(self)@ == old(self)@
                    &&& match e {
                        ViewError::NoDataLoaded => old(self)@.original is None,
                        ViewError::ColumnNotFound(c) => old(self)@.original matches Some(orig)
                            && query@.len() > 0 && (match column {
                            Some(cc) => c@ == cc@ && !has_column(orig, cc@),
                            None => false,
                        }),
                        _ => false,
                    }
                },
            },
    {
        let orig = match &self.original_df {
            Some(t) => t,
            None => {
                return Err(ViewError::NoDataLoaded);
            },
        };
        if query.unicode_len() == 0 {
            let copy = orig.duplicate();
            let h = copy.height();
            self.current_df = Some(copy);
            self.grouping = None;
            return Ok(h);
        }
        let filtered = match column {
            Some(cname) => {
                let mask = match quick_mask_col(orig, cname, query) {
                    Ok(m) => m,
                    Err(e) => {
                        return Err(e);
                    },
                };
                let f = orig.filter_rows(&mask);
                proof {
                    assert(f@ =~= filter_table(orig@, col_mask(orig@, cname@, query@))) by {
                        assert(mask@ =~= col_mask(orig@, cname@, query@));
                    }
                }
                f
            },
            None => {
                let mask = quick_mask_all(orig, query);
                let f = orig.filter_rows(&mask);
                proof {
                    assert(f@ =~= filter_table(orig@, all_mask(orig@, query@))) by {
                        assert(mask@ =~= all_mask(orig@, query@));
                    }
                }
                f
            },
        };
        let h = filtered.height();
        self.current_df = Some(filtered);
        self.grouping = None;
        Ok(h)
    }

    /// The advanced filter: evaluates a predicate tree against the original
    /// table and re-derives the current view from it. Clears the grouping.
    /// Fails with `NoDataLoaded` when nothing is loaded and with
    /// `ColumnNotFound`, naming the first missing column of the tree, when
    /// the tree references one the original lacks; on failure the state is
    /// unchanged.
    pub fn apply_advanced_filter(&mut self, filter_tree: &FilterNode) -> (r: Result<
        usize,
        ViewError,
    >)
        requires
            wf_state(old(self)@),
        ensures
            wf_state(final(self)@),
            match r {
                Ok(h) => {
                    &&& old(self)@.original matches Some(orig)
                    &&& node_missing(orig, *filter_tree) is None
                    &&& final(self)@ == st_advanced_filter(old(self)@, *filter_tree)
                    &&& h as nat == height_of(final(self)@.current.unwrap())
                },
                Err(e) => {
                    &&& final(self)@ == old(self)@
                    &&& match e {
                        ViewError::NoDataLoaded => old(self)@.original is None,
                        ViewError::ColumnNotFound(c) => old(self)@.original matches Some(orig)
                            && node_missing(orig, *filter_tree) == Some(c@),
                        _ => false,
                    }
                },
            },
    {
        let orig = match &self.original_df {
            Some(t) => t,
            None => {
                return Err(ViewError::NoDataLoaded);
            },
        };
        let mask = match build_filter_mask(orig, filter_tree) {
            Ok(m) => m,
            Err(e) => {
                return Err(e);
            },
        };
        let filtered = orig.filter_rows(&mask);
        proof {
            assert(filtered@ =~= filter_table(orig@, eval_mask(orig@, *filter_tree))) by {
                assert(mask@ =~= eval_mask(orig@, *filter_tree));
            }
        }
        let h = filtered.height();
        self.current_df = Some(filtered);
        self.grouping = None;
        Ok(h)
    }

    /// Groups the original table by the named column, makes the grouped
    /// table the current view, records the grouping descriptor, and returns
    /// the summary sentence. Fails with `NoDataLoaded` when nothing is
    /// loaded, and otherwise exactly as the grouping engine does; on
    /// failure the state is unchanged.
    pub fn apply_group_by(&mut self, column: &str, agg: &AggregationType) -> (r: Result<
        String,
        ViewError,
    >)
        requires
            wf_state(old(self)@),
        ensures
            wf_state(final(self)@),
            final(self)@.original == old(self)@.original,
            final(self)@.path == old(self)@.path,
            match r {
                Ok(summary) => {
                    &&& old(self)@.original matches Some(orig)
                    &&& has_column(orig, column@)
                    &&& final(self)@.grouping == Some((column@, agg_label(*agg)))
                    &&& final(self)@.current matches Some(t)
                    &&& ({
                        let cv = orig[crate::table::col_index_of(orig, column@).unwrap()].cells;
                        let ks = distinct_keys(cv);
                        &&& t.len() == 2
                        &&& t[0].name == column@
                        &&& t[1].name == agg_col_name(*agg)
                        &&& height_of(t) == ks.len()
                        &&& exists|p: Seq<usize>, gcells: Seq<Option<Seq<char>>>|
                            {
                                &&& #[trigger] p.len() == ks.len()
                                &&& #[trigger] gcells.len() == ks.len()
                                &&& (forall|g: int|
                                    0 <= g < p.len() ==> (#[trigger] p[g]) < p.len())
                                &&& (forall|g1: int, g2: int|
                                    0 <= g1 < g2 < p.len() ==> (#[trigger] p[g1]) != (
                                    #[trigger] p[g2]))
                                &&& (forall|g: int|
                                    0 <= g < p.len() ==> (#[trigger] t[0].cells[g]) == ks[p[
                                        g] as int])
                                &&& (forall|g: int|
                                    0 <= g < p.len() ==> (#[trigger] t[1].cells[g]) == gcells[
                                        p[g] as int])
                                &&& (forall|w: int|
                                    0 <= w < ks.len() ==> agg_cell_ok(
                                        *agg,
                                        #[trigger] gcells[w],
                                        ks[w],
                                        count_key(cv, ks[w], cv.len() as int),
                                    ))
                                &&& (forall|g: int|
                                    0 <= g < p.len() - 1 ==> key_before(
                                        gcells[#[trigger] p[g] as int],
                                        p[g] as int,
                                        gcells[p[g + 1] as int],
                                        p[g + 1] as int,
                                        col_numeric(gcells),
                                        true,
                                    ))
                            }
                        &&& exists|ns: Seq<char>|
                            {
                                &&& crate::num::all_digits(ns)
                                &&& ns.len() > 0
                                &&& (ns.len() == 1 || crate::num::digit_val(ns[0]) != 0)
                                &&& crate::num::digits_val(ns) == ks.len()
                                &&& #[trigger] summary@ == "Grouped by "@ + column@ + " with "@
                                    + agg_label(*agg) + ", found "@ + ns + " groups"@
                            }
                    })
                },
                Err(e) => {
                    &&& final(self)@ == old(self)@
                    &&& match e {
                        ViewError::NoDataLoaded => old(self)@.original is None,
                        ViewError::ColumnNotFound(c) => old(self)@.original matches Some(orig)
                            && !has_column(orig, column@) && c@ == column@,
                        ViewError::CastError => old(self)@.original matches Some(orig)
                            && has_column(orig, column@) && ({
                            let cv = orig[crate::table::col_index_of(orig,
                                column@).unwrap()].cells;
                            ||| column@ == agg_col_name(*agg)
                            ||| (agg matches AggregationType::Sum && !col_summable(cv))
                            ||| (agg matches AggregationType::Mean && !col_numeric(cv))
                        }),
                        _ => false,
                    }
                },
            },
    {
        let orig = match &self.original_df {
            Some(t) => t,
            None => {
                return Err(ViewError::NoDataLoaded);
            },
        };
        match group_by_table(orig, column, agg) {
            Ok((t, summary, label)) => {
                self.current_df = Some(t);
                self.grouping = Some(
                    GroupingInfo { column: String::from_str(column), aggregation: label },
                );
                Ok(summary)
            },
            Err(e) => Err(e),
        }
    }

    /// Discards the current view and the grouping: the current view becomes
    /// a fresh copy of the original. Fails with `NoDataLoaded` when nothing
    /// is loaded; on failure the state is unchanged.
    pub fn reset_grouping(&mut self) -> (r: Result<usize, ViewError>)
        requires
            wf_state(old(self)@),
        ensures
            wf_state(final(self)@),
            match r {
                Ok(h) => {
                    &&& old(self)@.original matches Some(orig)
                    &&& final(self)@ == st_reset(old(self)@)
                    &&& h as nat == height_of(orig)
                },
                Err(e) => {
                    &&& final(self)@ == old(self)@
                    &&& e is NoDataLoaded
                    &&& old(self)@.original is None
                },
            },
    {
        let orig = match &self.original_df {
            Some(t) => t,
            None => {
                return Err(ViewError::NoDataLoaded);
            },
        };
        let copy = orig.duplicate();
        let h = copy.height();
        self.current_df = Some(copy);
        self.grouping = None;
        Ok(h)
    }
}

/// The read-only projection of the view state.
pub struct AppStateInfo {
    pub file_path: Option<String>,
    pub row_count: usize,
    pub columns: Vec<String>,
    pub grouping: Option<GroupingInfo>,
}

} // verus!
