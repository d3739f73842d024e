//! Tables from the rows of a spreadsheet or a delimited text file.
use vstd::prelude::*;
use crate::table::{Cell, CellModel, Column, ColumnModel, Table, TableModel};

verus! {

/// The text of every cell, row by row.
pub open spec fn rows_model(rows: Seq<Vec<String>>) -> Seq<Seq<Seq<char>>> {
    Seq::new(rows.len(), |i: int| Seq::new(rows[i]@.len(), |j: int| rows[i]@[j]@))
}

/// Cell `j` of a row, empty where the row is shorter.
pub open spec fn cell_text(row: Seq<Seq<char>>, j: int) -> Seq<char> {
    if j < row.len() {
        row[j]
    } else {
        seq![]
    }
}

/// The table whose column names are the first row and whose rows are the
/// other rows, every cell as text; no rows give no columns.
pub open spec fn sheet_table(rows: Seq<Seq<Seq<char>>>) -> TableModel {
    if rows.len() == 0 {
        seq![]
    } else {
        Seq::new(
            rows[0].len(),
            |j: int|
                ColumnModel {
                    name: rows[0][j],
                    cells: Seq::new((rows.len() - 1) as nat, |i: int| CellModel::Text(cell_text(rows[i + 1], j))),
                },
        )
    }
}

/// See `sheet_table`.
pub fn table_from_rows(rows: &Vec<Vec<String>>) -> (r: Table)
    ensures
        r@ == sheet_table(rows_model(rows@)),
        r.wf(),
{
    let ghost m = rows_model(rows@);
    let mut columns: Vec<Column> = Vec::new();
    if rows.len() == 0 {
        let r = Table { columns };
        assert(r@ =~= sheet_table(m));
        return r;
    }
    let ghost expected = sheet_table(m);
    let width = rows[0].len();
    let mut j: usize = 0;
    while j < width
        invariant
            rows@.len() > 0,
            m == rows_model(rows@),
            expected == sheet_table(m),
            width == rows@[0]@.len(),
            j <= width,
            columns@.len() == j,
            forall|k: int| 0 <= k < j ==> #[trigger] columns@[k]@ == expected[k],
        decreases width - j,
    {
        let mut cells: Vec<Cell> = Vec::new();
        let mut i: usize = 1;
        while i < rows.len()
            invariant
                rows@.len() > 0,
                m == rows_model(rows@),
                j < width,
                width == rows@[0]@.len(),
                1 <= i <= rows@.len(),
                cells@.len() == i - 1,
                forall|k: int| 0 <= k < i - 1 ==> #[trigger] cells@[k]@ == CellModel::Text(cell_text(m[k + 1], j as int)),
            decreases rows.len() - i,
        {
            let text = if j < rows[i].len() {
                rows[i][j].clone()
            } else {
                String::new()
            };
            cells.push(Cell::Text(text));
            i += 1;
        }
        let column = Column { name: rows[0][j].clone(), cells };
        assert(column@ =~= expected[j as int]) by {
            assert(column@.cells =~= expected[j as int].cells);
        }
        columns.push(column);
        j += 1;
    }
    let r = Table { columns };
    assert(r@ =~= expected);
    proof {
        if width > 0 {
            assert forall|k: int| 0 <= k < r@.len() implies #[trigger] r@[k].cells.len() == crate::table::height(r@) by {}
        }
    }
    r
}

/// `s` cut at every `d`: the pieces between the cuts, in order.
pub open spec fn split_on(s: Seq<char>, d: char) -> Seq<Seq<char>>
    decreases s.len(),
{
    if s.len() == 0 {
        seq![seq![]]
    } else {
        let parts = split_on(s.drop_last(), d);
        if s.last() == d {
            parts.push(seq![])
        } else {
            parts.update(parts.len() - 1, parts.last().push(s.last()))
        }
    }
}

proof fn lemma_split_on_len(s: Seq<char>, d: char)
    ensures
        split_on(s, d).len() >= 1,
    decreases s.len(),
{
    if s.len() > 0 {
        lemma_split_on_len(s.drop_last(), d);
    }
}

/// The lines of a text, a last empty line left out.
pub open spec fn text_lines(s: Seq<char>) -> Seq<Seq<char>> {
    let lines = split_on(s, '\n');
    if lines.last().len() == 0 {
        lines.drop_last()
    } else {
        lines
    }
}

/// The rows of a delimited text: its lines, each cut at the delimiter.
pub open spec fn delimited(s: Seq<char>, d: char) -> Seq<Seq<Seq<char>>> {
    let lines = text_lines(s);
    Seq::new(lines.len(), |i: int| split_on(lines[i], d))
}

pub open spec fn strings_model(v: Seq<String>) -> Seq<Seq<char>> {
    v.map_values(|x: String| x@)
}

/// The pieces of `s` between the occurrences of `d`.
pub fn split_text(s: &str, d: char) -> (r: Vec<String>)
    ensures
        strings_model(r@) == split_on(s@, d),
{
    let n = s.unicode_len();
    let mut done: Vec<String> = Vec::new();
    let mut start: usize = 0;
    let mut i: usize = 0;
    assert(s@.take(0) =~= Seq::<char>::empty());
    assert(strings_model(done@).push(s@.subrange(0, 0)) =~= seq![Seq::<char>::empty()]);
    while i < n
        invariant
            n == s@.len(),
            start <= i <= n,
            strings_model(done@).push(s@.subrange(start as int, i as int)) == split_on(s@.take(i as int), d),
        decreases n - i,
    {
        let c = s.get_char(i);
        let ghost before = strings_model(done@);
        assert(s@.take(i + 1).drop_last() =~= s@.take(i as int));
        assert(s@.take(i + 1).last() == c);
        proof {
            lemma_split_on_len(s@.take(i as int), d);
        }
        if c == d {
            let piece = String::from_str(s.substring_char(start, i));
            let ghost old_start = start;
            done.push(piece);
            assert(strings_model(done@) =~= before.push(s@.subrange(old_start as int, i as int)));
            start = i + 1;
            assert(s@.subrange(start as int, i + 1) =~= Seq::<char>::empty());
            assert(strings_model(done@).push(s@.subrange(start as int, i + 1)) =~= split_on(s@.take(i + 1), d));
        } else {
            assert(s@.subrange(start as int, i + 1) =~= s@.subrange(start as int, i as int).push(c));
            assert(strings_model(done@).push(s@.subrange(start as int, i + 1)) =~= split_on(s@.take(i + 1), d));
        }
        i += 1;
    }
    let last = String::from_str(s.substring_char(start, n));
    let ghost before = strings_model(done@);
    done.push(last);
    assert(s@.take(n as int) =~= s@);
    assert(strings_model(done@) =~= before.push(s@.subrange(start as int, n as int)));
    done
}

/// See `delimited`.
pub fn delimited_rows(text: &str, delimiter: char) -> (r: Vec<Vec<String>>)
    ensures
        rows_model(r@) == delimited(text@, delimiter),
{
    let mut lines = split_text(text, '\n');
    proof {
        lemma_split_on_len(text@, '\n');
    }
    let ghost all = strings_model(lines@);
    if lines[lines.len() - 1].unicode_len() == 0 {
        lines.pop();
        assert(strings_model(lines@) =~= all.drop_last());
    }
    let ghost ls = text_lines(text@);
    assert(strings_model(lines@) == ls);
    let mut rows: Vec<Vec<String>> = Vec::new();
    let mut i: usize = 0;
    while i < lines.len()
        invariant
            strings_model(lines@) == ls,
            i <= lines@.len(),
            rows@.len() == i,
            forall|k: int| 0 <= k < i ==> strings_model(#[trigger] rows@[k]@) == split_on(ls[k], delimiter),
        decreases lines.len() - i,
    {
        let fields = split_text(lines[i].as_str(), delimiter);
        rows.push(fields);
        i += 1;
    }
    assert(rows_model(rows@) =~= delimited(text@, delimiter)) by {
        assert forall|k: int| 0 <= k < rows@.len() implies #[trigger] rows_model(rows@)[k] =~= delimited(text@, delimiter)[k] by {
            assert(strings_model(rows@[k]@) == split_on(ls[k], delimiter));
            assert forall|j: int| 0 <= j < rows@[k]@.len() implies rows_model(rows@)[k][j] == strings_model(rows@[k]@)[j] by {}
        }
    }
    rows
}

} // verus!
