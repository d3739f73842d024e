//! A column-oriented table: named columns of cells, rows aligned by position.
use vstd::prelude::*;

verus! {

/// What one cell of a table holds. Numbers are fixed-point with six decimal
/// places (see `number`).
#[derive(Debug)]
pub enum Cell {
    Null,
    Text(String),
    Number(u128),
}

/// The mathematical value of a cell.
pub enum CellModel {
    Null,
    Text(Seq<char>),
    Number(u128),
}

impl View for Cell {
    type V = CellModel;

    open spec fn view(&self) -> CellModel {
        match self {
            Cell::Null => CellModel::Null,
            Cell::Text(s) => CellModel::Text(s@),
            Cell::Number(n) => CellModel::Number(*n),
        }
    }
}

impl Cell {
    /// A copy of this cell.
    pub fn duplicate(&self) -> (r: Cell)
        ensures
            r@ == self@,
    {
        match self {
            Cell::Null => Cell::Null,
            Cell::Text(s) => Cell::Text(s.clone()),
            Cell::Number(n) => Cell::Number(*n),
        }
    }
}

/// The values of a sequence of cells.
pub open spec fn cells_model(cells: Seq<Cell>) -> Seq<CellModel> {
    cells.map_values(|c: Cell| c@)
}

/// A named column.
#[derive(Debug)]
pub struct Column {
    pub name: String,
    pub cells: Vec<Cell>,
}

pub struct ColumnModel {
    pub name: Seq<char>,
    pub cells: Seq<CellModel>,
}

impl View for Column {
    type V = ColumnModel;

    open spec fn view(&self) -> ColumnModel {
        ColumnModel { name: self.name@, cells: cells_model(self.cells@) }
    }
}

/// A table: its columns, in order. Row `i` is the `i`-th cell of every
/// column.
#[derive(Debug)]
pub struct Table {
    pub columns: Vec<Column>,
}

pub type TableModel = Seq<ColumnModel>;

/// The values of a sequence of columns.
pub open spec fn columns_model(cols: Seq<Column>) -> TableModel {
    cols.map_values(|c: Column| c@)
}

impl View for Table {
    type V = TableModel;

    open spec fn view(&self) -> TableModel {
        columns_model(self.columns@)
    }
}

/// The number of rows: that of the first column, none without columns.
pub open spec fn height(t: TableModel) -> nat {
    if t.len() == 0 {
        0
    } else {
        t[0].cells.len()
    }
}

/// Every column has the same number of cells.
pub open spec fn rectangular(t: TableModel) -> bool {
    forall|i: int| 0 <= i < t.len() ==> #[trigger] t[i].cells.len() == height(t)
}

/// The position of the first column named `name`.
pub open spec fn first_named(t: TableModel, name: Seq<char>) -> Option<int>
    decreases t.len(),
{
    if t.len() == 0 {
        None
    } else {
        match first_named(t.drop_last(), name) {
            Some(i) => Some(i),
            None => if t.last().name == name {
                Some(t.len() - 1)
            } else {
                None
            },
        }
    }
}

/// `t` with the column `name` holding `cells`: the first column of that
/// name is replaced, or a new one is added at the end.
pub open spec fn with_column(t: TableModel, name: Seq<char>, cells: Seq<CellModel>) -> TableModel {
    match first_named(t, name) {
        Some(i) => t.update(i, ColumnModel { name, cells }),
        None => t.push(ColumnModel { name, cells }),
    }
}

pub proof fn lemma_first_named(t: TableModel, name: Seq<char>)
    ensures
        match first_named(t, name) {
            Some(i) => 0 <= i < t.len() && t[i].name == name && forall|j: int|
                0 <= j < i ==> #[trigger] t[j].name != name,
            None => forall|j: int| 0 <= j < t.len() ==> #[trigger] t[j].name != name,
        },
    decreases t.len(),
{
    if t.len() > 0 {
        lemma_first_named(t.drop_last(), name);
        assert forall|j: int| 0 <= j < t.len() - 1 implies t.drop_last()[j] == #[trigger] t[j] by {}
    }
}

/// Adding or replacing a column of the table's height keeps it rectangular.
pub proof fn lemma_with_column_rectangular(t: TableModel, name: Seq<char>, cells: Seq<CellModel>)
    requires
        rectangular(t),
        t.len() == 0 || cells.len() == height(t),
    ensures
        rectangular(with_column(t, name, cells)),
        height(with_column(t, name, cells)) == cells.len(),
        with_column(t, name, cells).len() >= 1,
{
    lemma_first_named(t, name);
    let r = with_column(t, name, cells);
    assert forall|i: int| 0 <= i < r.len() implies #[trigger] r[i].cells.len() == height(r) by {
        if t.len() > 0 {
            assert(r[0].cells.len() == cells.len());
        }
    }
}

/// Setting a column whose name differs from `m` leaves the first column
/// named `m` where it was.
pub proof fn lemma_with_other_column(t: TableModel, n: Seq<char>, cells: Seq<CellModel>, m: Seq<char>)
    requires
        n != m,
    ensures
        first_named(with_column(t, n, cells), m) == first_named(t, m),
        match first_named(t, m) {
            Some(i) => with_column(t, n, cells)[i] == t[i],
            None => true,
        },
{
    let r = with_column(t, n, cells);
    lemma_first_named(t, m);
    lemma_first_named(t, n);
    lemma_first_named(r, m);
    match first_named(t, m) {
        Some(i) => {
            assert(r[i] == t[i]);
            match first_named(r, m) {
                Some(j) => {
                    if j < i {
                        assert(r[j] == t[j]);
                    }
                },
                None => {},
            }
        },
        None => {
            match first_named(r, m) {
                Some(j) => {
                    if j < t.len() {
                        assert(r[j] == t[j]);
                    }
                },
                None => {},
            }
        },
    }
}

/// After setting a column, the first column of that name holds the cells.
pub proof fn lemma_with_column_found(t: TableModel, n: Seq<char>, cells: Seq<CellModel>)
    ensures
        first_named(with_column(t, n, cells), n) is Some,
        with_column(t, n, cells)[first_named(with_column(t, n, cells), n)->Some_0]
            == (ColumnModel { name: n, cells }),
{
    let r = with_column(t, n, cells);
    let col = ColumnModel { name: n, cells };
    lemma_first_named(t, n);
    lemma_first_named(r, n);
    let i = match first_named(t, n) {
        Some(i) => i,
        None => t.len() as int,
    };
    assert(r[i] == col);
    match first_named(r, n) {
        Some(j) => {
            if j < i {
                assert(r[j] == t[j]);
            } else if j > i {
                assert(r[i].name == n);
            }
        },
        None => {
            assert(r[i].name == n);
        },
    }
}

/// Setting a column to the cells it already holds changes nothing.
pub proof fn lemma_with_present_column(t: TableModel, n: Seq<char>, cells: Seq<CellModel>)
    requires
        first_named(t, n) is Some,
        t[first_named(t, n)->Some_0] == (ColumnModel { name: n, cells }),
    ensures
        with_column(t, n, cells) == t,
{
    lemma_first_named(t, n);
    let i = first_named(t, n)->Some_0;
    assert(t.update(i, ColumnModel { name: n, cells }) =~= t);
}

impl Table {
    pub open spec fn wf(&self) -> bool {
        rectangular(self@)
    }

    /// A table without columns.
    pub fn new() -> (r: Table)
        ensures
            r@ == Seq::<ColumnModel>::empty(),
    {
        let r = Table { columns: Vec::new() };
        assert(r@ =~= Seq::<ColumnModel>::empty());
        r
    }

    /// The number of rows.
    pub fn height(&self) -> (r: usize)
        ensures
            r == height(self@),
    {
        if self.columns.len() == 0 {
            0
        } else {
            self.columns[0].cells.len()
        }
    }

    /// The position of the first column named `name`.
    pub fn find(&self, name: &str) -> (r: Option<usize>)
        ensures
            match r {
                Some(i) => first_named(self@, name@) == Some(i as int),
                None => first_named(self@, name@) is None,
            },
    {
        let key = String::from_str(name);
        let mut i: usize = 0;
        while i < self.columns.len()
            invariant
                i <= self.columns.len(),
                key@ == name@,
                first_named(self@.take(i as int), name@) is None,
            decreases self.columns.len() - i,
        {
            assert(self@.take(i + 1).drop_last() =~= self@.take(i as int));
            if self.columns[i].name == key {
                proof {
                    lemma_first_named_prefix(self@, name@, i as int + 1);
                }
                return Some(i);
            }
            i += 1;
        }
        assert(self@.take(self.columns.len() as int) =~= self@);
        None
    }

    /// The column named `name` holds `cells` afterwards: the first column of
    /// that name is replaced, or a new one is added at the end.
    pub fn set_column(&mut self, name: String, cells: Vec<Cell>)
        ensures
            final(self)@ == with_column(old(self)@, name@, cells_model(cells@)),
    {
        let found = self.find(name.as_str());
        let ghost name_v = name@;
        let ghost cells_v = cells_model(cells@);
        let column = Column { name, cells };
        match found {
            Some(i) => {
                proof {
                    lemma_first_named(self@, name_v);
                }
                self.columns.set(i, column);
                assert(self@ =~= old(self)@.update(i as int, ColumnModel { name: name_v, cells: cells_v }));
            },
            None => {
                self.columns.push(column);
                assert(self@ =~= old(self)@.push(ColumnModel { name: name_v, cells: cells_v }));
            },
        }
    }
}

proof fn lemma_first_named_prefix(t: TableModel, name: Seq<char>, k: int)
    requires
        0 < k <= t.len(),
        first_named(t.take(k - 1), name) is None,
        t[k - 1].name == name,
    ensures
        first_named(t, name) == Some(k - 1),
    decreases t.len() - k,
{
    assert(t.take(k).drop_last() =~= t.take(k - 1));
    if k == t.len() {
        assert(t.take(k) =~= t);
    } else {
        lemma_first_named_extend(t, name, k);
    }
}

proof fn lemma_first_named_extend(t: TableModel, name: Seq<char>, k: int)
    requires
        0 < k <= t.len(),
        first_named(t.take(k), name) is Some,
    ensures
        first_named(t, name) == first_named(t.take(k), name),
    decreases t.len() - k,
{
    if k < t.len() {
        assert(t.take(k + 1).drop_last() =~= t.take(k));
        lemma_first_named_extend(t, name, k + 1);
    } else {
        assert(t.take(k) =~= t);
    }
}

} // verus!
