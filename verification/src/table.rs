//! The columnar table model: a cell is null or a text value, a column is a
//! named sequence of cells, and a table is a sequence of columns of equal
//! length. Every value a cell can hold is kept in its string form, which is
//! the representation the filter engine compares against.

use vstd::prelude::*;

verus! {

/// One cell of a table: either null or a text value.
pub enum Cell {
    Null,
    Text(String),
}

impl View for Cell {
    type V = Option<Seq<char>>;

    open spec fn view(&self) -> Option<Seq<char>> {
        match self {
            Cell::Null => None,
            Cell::Text(s) => Some(s@),
        }
    }
}

/// The mathematical model of a column: its name and its cells.
#[verifier::ext_equal]
pub struct ColModel {
    pub name: Seq<char>,
    pub cells: Seq<Option<Seq<char>>>,
}

/// A named column of cells.
pub struct Column {
    pub name: String,
    pub cells: Vec<Cell>,
}

impl View for Column {
    type V = ColModel;

    open spec fn view(&self) -> ColModel {
        ColModel { name: self.name@, cells: self.cells@.map_values(|c: Cell| c@) }
    }
}

/// An ordered sequence of named columns, all of equal length.
pub struct Table {
    pub cols: Vec<Column>,
}

impl View for Table {
    type V = Seq<ColModel>;

    open spec fn view(&self) -> Seq<ColModel> {
        self.cols@.map_values(|c: Column| c@)
    }
}

/// The number of rows of a table model: the length of its first column,
/// or zero for a table with no columns.
pub open spec fn height_of(t: Seq<ColModel>) -> nat {
    if t.len() == 0 {
        0
    } else {
        t[0].cells.len()
    }
}

/// A well-formed table model: every column has the same number of cells,
/// and column names are unique.
pub open spec fn wf_table(t: Seq<ColModel>) -> bool {
    &&& forall|j: int| 0 <= j < t.len() ==> (#[trigger] t[j].cells).len() == height_of(t)
    &&& forall|j: int, k: int|
        0 <= j < k < t.len() ==> (#[trigger] t[j].name) != (#[trigger] t[k].name)
}

/// The index of the column with the given name, if any.
pub open spec fn col_index_of(t: Seq<ColModel>, name: Seq<char>) -> Option<int> {
    if exists|j: int| 0 <= j < t.len() && (#[trigger] t[j].name) == name {
        Some(choose|j: int| 0 <= j < t.len() && (#[trigger] t[j].name) == name)
    } else {
        None
    }
}

/// Whether a table model has a column of the given name.
pub open spec fn has_column(t: Seq<ColModel>, name: Seq<char>) -> bool {
    exists|j: int| 0 <= j < t.len() && (#[trigger] t[j].name) == name
}

impl Cell {
    /// A copy of the cell with the same model.
    pub fn duplicate(&self) -> (r: Cell)
        ensures
            r@ == self@,
    {
        match self {
            Cell::Null => Cell::Null,
            Cell::Text(s) => Cell::Text(s.clone()),
        }
    }

    /// Whether the cell is null.
    pub fn is_null(&self) -> (r: bool)
        ensures
            r == (self@ is None),
    {
        match self {
            Cell::Null => true,
            Cell::Text(_) => false,
        }
    }
}

impl Column {
    /// A copy of the column with the same model.
    pub fn duplicate(&self) -> (r: Column)
        ensures
            r@ == self@,
    {
        let mut cells: Vec<Cell> = Vec::new();
        let mut i: usize = 0;
        while i < self.cells.len()
            invariant
                i <= self.cells.len(),
                cells@.len() == i as int,
                forall|k: int| 0 <= k < i ==> cells@[k]@ == self.cells@[k]@,
            decreases self.cells.len() - i,
        {
            cells.push(self.cells[i].duplicate());
            i += 1;
        }
        let r = Column { name: self.name.clone(), cells };
        proof {
            assert(r@.cells =~= self@.cells);
            assert(r@ =~= self@);
        }
        r
    }
}

impl Table {
    /// The number of rows.
    pub fn height(&self) -> (h: usize)
        ensures
            h as nat == height_of(self@),
    {
        if self.cols.len() == 0 {
            0
        } else {
            self.cols[0].cells.len()
        }
    }

    /// The index of the column with the given name, if any.
    pub fn find_column(&self, name: &str) -> (r: Option<usize>)
        ensures
            match r {
                Some(j) => 0 <= j < self@.len() && self@[j as int].name == name@
                    && has_column(self@, name@),
                None => !has_column(self@, name@),
            },
    {
        let mut j: usize = 0;
        while j < self.cols.len()
            invariant
                j <= self.cols@.len(),
                forall|k: int| 0 <= k < j ==> (#[trigger] self@[k].name) != name@,
            decreases self.cols@.len() - j,
        {
            if crate::text::str_eq(self.cols[j].name.as_str(), name) {
                proof {
                    assert(self@[j as int] == self.cols@[j as int]@);
                    assert(self@[j as int].name == name@);
                }
                return Some(j);
            }
            j += 1;
        }
        None
    }

    /// A copy of the table with the same model.
    pub fn duplicate(&self) -> (r: Table)
        ensures
            r@ == self@,
    {
        let mut cols: Vec<Column> = Vec::new();
        let mut i: usize = 0;
        while i < self.cols.len()
            invariant
                i <= self.cols.len(),
                cols@.len() == i as int,
                forall|k: int| 0 <= k < i ==> cols@[k]@ == self.cols@[k]@,
            decreases self.cols.len() - i,
        {
            cols.push(self.cols[i].duplicate());
            i += 1;
        }
        let r = Table { cols };
        proof {
            assert(r@ =~= self@);
        }
        r
    }

    /// The names of the columns, in order.
    pub fn column_names(&self) -> (r: Vec<String>)
        ensures
            r@.len() == self@.len(),
            forall|j: int| 0 <= j < r@.len() ==> (#[trigger] r@[j])@ == self@[j].name,
    {
        let mut names: Vec<String> = Vec::new();
        let mut i: usize = 0;
        while i < self.cols.len()
            invariant
                i <= self.cols.len(),
                names@.len() == i as int,
                forall|k: int| 0 <= k < i ==> (#[trigger] names@[k])@ == self.cols@[k]@.name,
            decreases self.cols.len() - i,
        {
            names.push(self.cols[i].name.clone());
            i += 1;
        }
        names
    }
}

/// The subsequence of `s` at the positions where `m` is true.
pub open spec fn filter_seq<A>(s: Seq<A>, m: Seq<bool>) -> Seq<A>
    decreases s.len(),
{
    if s.len() == 0 {
        Seq::<A>::empty()
    } else if m[s.len() - 1] {
        filter_seq(s.drop_last(), m.drop_last()).push(s.last())
    } else {
        filter_seq(s.drop_last(), m.drop_last())
    }
}

/// How many entries of a mask are true.
pub open spec fn count_true(m: Seq<bool>) -> nat
    decreases m.len(),
{
    if m.len() == 0 {
        0
    } else {
        count_true(m.drop_last()) + if m.last() {
            1nat
        } else {
            0nat
        }
    }
}

/// Filtering keeps as many entries as the mask has true bits.
pub proof fn lemma_filter_seq_len<A>(s: Seq<A>, m: Seq<bool>)
    requires
        s.len() == m.len(),
    ensures
        filter_seq(s, m).len() == count_true(m),
    decreases s.len(),
{
    if s.len() > 0 {
        lemma_filter_seq_len(s.drop_last(), m.drop_last());
    }
}

/// Filters a column's cells by a row mask.
fn filter_cells(cells: &Vec<Cell>, mask: &Vec<bool>) -> (r: Vec<Cell>)
    requires
        cells@.len() == mask@.len(),
    ensures
        r@.map_values(|c: Cell| c@) == filter_seq(
            cells@.map_values(|c: Cell| c@),
            mask@,
        ),
{
    let ghost cv = cells@.map_values(|c: Cell| c@);
    let mut out: Vec<Cell> = Vec::new();
    let mut i: usize = 0;
    while i < cells.len()
        invariant
            i <= cells@.len(),
            cells@.len() == mask@.len(),
            cv == cells@.map_values(|c: Cell| c@),
            out@.map_values(|c: Cell| c@) == filter_seq(cv.take(i as int), mask@.take(i as int)),
        decreases cells@.len() - i,
    {
        proof {
            assert(cv.take(i + 1).drop_last() =~= cv.take(i as int));
            assert(mask@.take(i + 1).drop_last() =~= mask@.take(i as int));
            assert(cv.take(i + 1).last() == cv[i as int]);
        }
        if mask[i] {
            out.push(cells[i].duplicate());
            proof {
                assert(out@.map_values(|c: Cell| c@) =~= filter_seq(cv.take(i + 1), mask@.take(
                    i + 1)));
            }
        } else {
            proof {
                assert(out@.map_values(|c: Cell| c@) =~= filter_seq(cv.take(i + 1), mask@.take(
                    i + 1)));
            }
        }
        i += 1;
    }
    proof {
        assert(cv.take(cv.len() as int) =~= cv);
        assert(mask@.take(mask@.len() as int) =~= mask@);
    }
    out
}

impl Table {
    /// The table restricted to the rows where the mask is true; columns and
    /// their order are kept.
    pub fn filter_rows(&self, mask: &Vec<bool>) -> (r: Table)
        requires
            wf_table(self@),
            mask@.len() == height_of(self@),
        ensures
            wf_table(r@),
            r@.len() == self@.len(),
            forall|j: int|
                0 <= j < self@.len() ==> (#[trigger] r@[j]).name == self@[j].name && r@[j].cells
                    == filter_seq(self@[j].cells, mask@),
            height_of(r@) == if self@.len() == 0 {
                0nat
            } else {
                count_true(mask@)
            },
    {
        let mut cols: Vec<Column> = Vec::new();
        let mut j: usize = 0;
        while j < self.cols.len()
            invariant
                j <= self.cols@.len(),
                wf_table(self@),
                mask@.len() == height_of(self@),
                cols@.len() == j as int,
                forall|k: int|
                    0 <= k < j ==> (#[trigger] cols@[k]@).name == self@[k].name && cols@[k]@.cells
                        == filter_seq(self@[k].cells, mask@),
            decreases self.cols@.len() - j,
        {
            let c = &self.cols[j];
            proof {
                assert(self@[j as int] == c@);
                assert(c@.cells.len() == height_of(self@));
            }
            let cells = filter_cells(&c.cells, mask);
            cols.push(Column { name: c.name.clone(), cells });
            j += 1;
        }
        let r = Table { cols };
        proof {
            assert(r@.len() == self@.len());
            assert forall|k: int| 0 <= k < r@.len() implies (#[trigger] r@[k]).name == self@[k].name
                && r@[k].cells == filter_seq(self@[k].cells, mask@) by {
                assert(r@[k] == cols@[k]@);
            }
            assert forall|k: int| 0 <= k < r@.len() implies (#[trigger] r@[k].cells).len()
                == count_true(mask@) by {
                lemma_filter_seq_len(self@[k].cells, mask@);
            }
            if r@.len() > 0 {
                lemma_filter_seq_len(self@[0].cells, mask@);
                assert(height_of(r@) == r@[0].cells.len());
            }
        }
        r
    }

    /// The rows in `[start, end)`, all columns kept.
    pub fn slice_rows(&self, start: usize, end: usize) -> (r: Table)
        requires
            wf_table(self@),
            start <= end,
            end as nat <= height_of(self@),
        ensures
            wf_table(r@),
            r@.len() == self@.len(),
            forall|j: int|
                0 <= j < self@.len() ==> (#[trigger] r@[j]).name == self@[j].name && r@[j].cells
                    == self@[j].cells.subrange(start as int, end as int),
            height_of(r@) == if self@.len() == 0 {
                0nat
            } else {
                (end - start) as nat
            },
    {
        let mut cols: Vec<Column> = Vec::new();
        let mut j: usize = 0;
        while j < self.cols.len()
            invariant
                j <= self.cols@.len(),
                wf_table(self@),
                start <= end,
                end as nat <= height_of(self@),
                cols@.len() == j as int,
                forall|k: int|
                    0 <= k < j ==> (#[trigger] cols@[k]@).name == self@[k].name && cols@[k]@.cells
                        == self@[k].cells.subrange(start as int, end as int),
            decreases self.cols@.len() - j,
        {
            let c = &self.cols[j];
            proof {
                assert(self@[j as int] == c@);
                assert(c@.cells.len() == height_of(self@));
            }
            let mut cells: Vec<Cell> = Vec::new();
            let mut i: usize = start;
            while i < end
                invariant
                    start <= i <= end,
                    end <= c.cells@.len(),
                    cells@.len() == i - start,
                    forall|k: int| 0 <= k < i - start ==> (#[trigger] cells@[k])@ == c@.cells[
                        start + k],
                decreases end - i,
            {
                cells.push(c.cells[i].duplicate());
                i += 1;
            }
            proof {
                assert(cells@.map_values(|x: Cell| x@) =~= c@.cells.subrange(start as int,
                    end as int));
            }
            cols.push(Column { name: c.name.clone(), cells });
            j += 1;
        }
        let r = Table { cols };
        proof {
            assert forall|k: int| 0 <= k < r@.len() implies (#[trigger] r@[k]).name == self@[k].name
                && r@[k].cells == self@[k].cells.subrange(start as int, end as int) by {
                assert(r@[k] == cols@[k]@);
            }
        }
        r
    }
}

} // verus!
