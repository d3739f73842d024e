//! Left joins of tables on a key column, and the commission columns.
use vstd::prelude::*;
use crate::error::PipelineError;
use crate::number::{MICROS, fixed_value, chars_of, parse_fixed};
use crate::table::{
    Cell, CellModel, Column, ColumnModel, Table, TableModel, cells_model, columns_model, first_named, with_column,
    height, rectangular, lemma_first_named,
};

verus! {

/// Two key cells match: equal, and not null.
pub open spec fn key_matches(a: CellModel, b: CellModel) -> bool {
    a == b && !(a is Null)
}

/// The rows of `rk` whose key matches `k`, in order.
pub open spec fn matching_rows(k: CellModel, rk: Seq<CellModel>) -> Seq<int>
    decreases rk.len(),
{
    if rk.len() == 0 {
        seq![]
    } else if key_matches(k, rk.last()) {
        matching_rows(k, rk.drop_last()).push(rk.len() - 1)
    } else {
        matching_rows(k, rk.drop_last())
    }
}

/// The output rows that left row `r` (key `k`) gives: one per matching
/// right row, or one without a match.
pub open spec fn row_pairs(r: int, k: CellModel, rk: Seq<CellModel>) -> Seq<(int, Option<int>)> {
    let m = matching_rows(k, rk);
    if m.len() == 0 {
        seq![(r, None)]
    } else {
        m.map_values(|q: int| (r, Some(q)))
    }
}

/// The output rows of a left join, as (left row, right row) pairs, in
/// left-row order.
pub open spec fn join_pairs(lk: Seq<CellModel>, rk: Seq<CellModel>) -> Seq<(int, Option<int>)>
    decreases lk.len(),
{
    if lk.len() == 0 {
        seq![]
    } else {
        join_pairs(lk.drop_last(), rk) + row_pairs(lk.len() - 1, lk.last(), rk)
    }
}

pub open spec fn left_column(c: ColumnModel, pairs: Seq<(int, Option<int>)>) -> ColumnModel {
    ColumnModel { name: c.name, cells: pairs.map_values(|p: (int, Option<int>)| c.cells[p.0]) }
}

pub open spec fn right_cell(c: ColumnModel, p: (int, Option<int>)) -> CellModel {
    match p.1 {
        Some(q) => c.cells[q],
        None => CellModel::Null,
    }
}

/// The name that a right column takes in the join: its own, with `_right`
/// added where the left table already has a column of that name.
pub open spec fn joined_name(l: TableModel, n: Seq<char>) -> Seq<char> {
    if first_named(l, n) is Some {
        n + "_right"@
    } else {
        n
    }
}

pub open spec fn right_cells_of(c: ColumnModel, pairs: Seq<(int, Option<int>)>) -> Seq<CellModel> {
    pairs.map_values(|p: (int, Option<int>)| right_cell(c, p))
}

pub open spec fn right_column(l: TableModel, c: ColumnModel, pairs: Seq<(int, Option<int>)>) -> ColumnModel {
    ColumnModel { name: joined_name(l, c.name), cells: right_cells_of(c, pairs) }
}

pub open spec fn left_columns(l: TableModel, pairs: Seq<(int, Option<int>)>) -> TableModel {
    l.map_values(|c: ColumnModel| left_column(c, pairs))
}

pub open spec fn right_columns(l: TableModel, r: TableModel, pairs: Seq<(int, Option<int>)>) -> TableModel {
    r.map_values(|c: ColumnModel| right_column(l, c, pairs))
}

/// The left join of `l` and `r` on `lkey` = `rkey`: every left row is kept,
/// in order, once per matching right row or once with nulls; the columns
/// are those of `l`, then those of `r` but its key, a right column named
/// like a left one taking the suffix `_right`. A missing key column is a
/// join error.
pub open spec fn left_join_of(l: TableModel, r: TableModel, lkey: Seq<char>, rkey: Seq<char>) -> Result<
    TableModel,
    PipelineError,
> {
    match (first_named(l, lkey), first_named(r, rkey)) {
        (Some(li), Some(ri)) => {
            let rest = r.remove(ri);
            let pairs = join_pairs(l[li].cells, r[ri].cells);
            Ok(left_columns(l, pairs) + right_columns(l, rest, pairs))
        },
        _ => Err(PipelineError::Join),
    }
}

fn keys_match(a: &Cell, b: &Cell) -> (r: bool)
    ensures
        r == key_matches(a@, b@),
{
    match (a, b) {
        (Cell::Text(x), Cell::Text(y)) => *x == *y,
        (Cell::Number(x), Cell::Number(y)) => *x == *y,
        _ => false,
    }
}

pub open spec fn pairs_model(p: Seq<(usize, Option<usize>)>) -> Seq<(int, Option<int>)> {
    p.map_values(
        |x: (usize, Option<usize>)|
            (
                x.0 as int,
                match x.1 {
                    Some(q) => Some(q as int),
                    None => None,
                },
            ),
    )
}

/// The (left row, right row) pairs of a left join on the given key cells.
fn pairs_of(lk: &Vec<Cell>, rk: &Vec<Cell>) -> (r: Vec<(usize, Option<usize>)>)
    ensures
        pairs_model(r@) == join_pairs(cells_model(lk@), cells_model(rk@)),
        forall|j: int| 0 <= j < r@.len() ==> (#[trigger] r@[j]).0 < lk@.len() && match r@[j].1 {
            Some(q) => q < rk@.len(),
            None => true,
        },
{
    let ghost lm = cells_model(lk@);
    let ghost rm = cells_model(rk@);
    let mut out: Vec<(usize, Option<usize>)> = Vec::new();
    let mut r: usize = 0;
    while r < lk.len()
        invariant
            r <= lk.len(),
            lm == cells_model(lk@),
            rm == cells_model(rk@),
            pairs_model(out@) == join_pairs(lm.take(r as int), rm),
            forall|j: int| 0 <= j < out@.len() ==> (#[trigger] out@[j]).0 < lk@.len() && match out@[j].1 {
                Some(q) => q < rk@.len(),
                None => true,
            },
        decreases lk.len() - r,
    {
        let mut found: Vec<usize> = Vec::new();
        let mut q: usize = 0;
        while q < rk.len()
            invariant
                q <= rk.len(),
                r < lk.len(),
                lm == cells_model(lk@),
                rm == cells_model(rk@),
                found@.map_values(|x: usize| x as int) == matching_rows(lm[r as int], rm.take(q as int)),
                forall|j: int| 0 <= j < found@.len() ==> #[trigger] found@[j] < q,
            decreases rk.len() - q,
        {
            assert(rm.take(q + 1).drop_last() =~= rm.take(q as int));
            if keys_match(&lk[r], &rk[q]) {
                found.push(q);
            }
            q += 1;
            assert(found@.map_values(|x: usize| x as int) =~= matching_rows(lm[r as int], rm.take(q as int)));
        }
        assert(rm.take(rk.len() as int) =~= rm);
        let ghost before = out@;
        let ghost row = row_pairs(r as int, lm[r as int], rm);
        if found.len() == 0 {
            out.push((r, None));
            assert(pairs_model(out@) =~= pairs_model(before) + row);
        } else {
            let mut k: usize = 0;
            while k < found.len()
                invariant
                    k <= found.len(),
                    found.len() > 0,
                    r < lk.len(),
                    lm == cells_model(lk@),
                    rm == cells_model(rk@),
                    forall|j: int| 0 <= j < found@.len() ==> #[trigger] found@[j] < rk@.len(),
                    found@.map_values(|x: usize| x as int) == matching_rows(lm[r as int], rm),
                    row == row_pairs(r as int, lm[r as int], rm),
                    out@.len() == before.len() + k,
                    pairs_model(out@) =~= pairs_model(before) + row.take(k as int),
                    forall|j: int| 0 <= j < out@.len() ==> (#[trigger] out@[j]).0 < lk@.len() && match out@[j].1 {
                        Some(q) => q < rk@.len(),
                        None => true,
                    },
                decreases found.len() - k,
            {
                let ghost before_k = out@;
                out.push((r, Some(found[k])));
                proof {
                    let fm = found@.map_values(|x: usize| x as int);
                    assert(fm[k as int] == found@[k as int] as int);
                    assert(row[k as int] == (r as int, Some(found@[k as int] as int)));
                    assert(pairs_model(out@) =~= pairs_model(before_k).push(row[k as int]));
                    assert(row.take(k + 1) =~= row.take(k as int).push(row[k as int]));
                }
                k += 1;
                assert(pairs_model(out@) =~= pairs_model(before) + row.take(k as int));
            }
            assert(row.take(found.len() as int) =~= row);
        }
        assert(lm.take(r + 1).drop_last() =~= lm.take(r as int));
        r += 1;
    }
    assert(lm.take(lk.len() as int) =~= lm);
    out
}

fn left_cells(c: &Column, pairs: &Vec<(usize, Option<usize>)>) -> (r: Column)
    requires
        forall|j: int| 0 <= j < pairs@.len() ==> (#[trigger] pairs@[j]).0 < c.cells@.len(),
    ensures
        r@ == left_column(c@, pairs_model(pairs@)),
{
    let mut cells: Vec<Cell> = Vec::new();
    let mut j: usize = 0;
    while j < pairs.len()
        invariant
            j <= pairs.len(),
            forall|k: int| 0 <= k < pairs@.len() ==> (#[trigger] pairs@[k]).0 < c.cells@.len(),
            cells@.len() == j,
            forall|k: int| 0 <= k < j ==> #[trigger] cells@[k]@ == c@.cells[pairs@[k].0 as int],
        decreases pairs.len() - j,
    {
        cells.push(c.cells[pairs[j].0].duplicate());
        j += 1;
    }
    let r = Column { name: c.name.clone(), cells };
    assert(r@.cells =~= left_column(c@, pairs_model(pairs@)).cells);
    r
}

fn right_cells(c: &Column, pairs: &Vec<(usize, Option<usize>)>, name: String) -> (r: Column)
    requires
        forall|j: int| 0 <= j < pairs@.len() ==> match (#[trigger] pairs@[j]).1 {
            Some(q) => q < c.cells@.len(),
            None => true,
        },
    ensures
        r@ == (ColumnModel { name: name@, cells: right_cells_of(c@, pairs_model(pairs@)) }),
{
    let mut cells: Vec<Cell> = Vec::new();
    let mut j: usize = 0;
    while j < pairs.len()
        invariant
            j <= pairs.len(),
            forall|k: int| 0 <= k < pairs@.len() ==> match (#[trigger] pairs@[k]).1 {
                Some(q) => q < c.cells@.len(),
                None => true,
            },
            cells@.len() == j,
            forall|k: int| 0 <= k < j ==> #[trigger] cells@[k]@ == right_cell(c@, pairs_model(pairs@)[k]),
        decreases pairs.len() - j,
    {
        let cell = match pairs[j].1 {
            Some(q) => c.cells[q].duplicate(),
            None => Cell::Null,
        };
        cells.push(cell);
        j += 1;
    }
    let r = Column { name, cells };
    assert(r@.cells =~= right_cells_of(c@, pairs_model(pairs@)));
    r
}

/// The left join of `left` and `right` on `left_key` = `right_key` (see
/// `left_join_of`).
pub fn left_join(left: &Table, right: &Table, left_key: &str, right_key: &str) -> (r: Result<
    Table,
    PipelineError,
>)
    requires
        left.wf(),
        right.wf(),
    ensures
        match r {
            Ok(t) => left_join_of(left@, right@, left_key@, right_key@) == Ok::<TableModel, PipelineError>(t@),
            Err(e) => left_join_of(left@, right@, left_key@, right_key@) == Err::<TableModel, PipelineError>(e),
        },
        r is Ok ==> r->Ok_0.wf(),
{
    let li = match left.find(left_key) {
        Some(i) => i,
        None => return Err(PipelineError::Join),
    };
    let ri = match right.find(right_key) {
        Some(i) => i,
        None => return Err(PipelineError::Join),
    };
    proof {
        lemma_first_named(left@, left_key@);
        lemma_first_named(right@, right_key@);
    }
    let ghost rest = right@.remove(ri as int);
    let pairs = pairs_of(&left.columns[li].cells, &right.columns[ri].cells);
    let ghost pm = pairs_model(pairs@);
    let mut columns: Vec<Column> = Vec::new();
    let mut c: usize = 0;
    while c < left.columns.len()
        invariant
            left.wf(),
            li < left@.len(),
            pm == pairs_model(pairs@),
            forall|k: int| 0 <= k < pairs@.len() ==> (#[trigger] pairs@[k]).0 < left@[li as int].cells.len(),
            c <= left.columns.len(),
            columns_model(columns@) == left_columns(left@.take(c as int), pm),
        decreases left.columns.len() - c,
    {
        assert(left@[c as int].cells.len() == left@[li as int].cells.len());
        let col = left_cells(&left.columns[c], &pairs);
        let ghost old_cols = columns@;
        columns.push(col);
        assert(columns_model(columns@) =~= columns_model(old_cols).push(col@));
        assert(left_columns(left@.take(c + 1), pm) =~= left_columns(left@.take(c as int), pm).push(
            left_column(left@[c as int], pm),
        ));
        c += 1;
    }
    let mut c: usize = 0;
    while c < right.columns.len()
        invariant
            right.wf(),
            ri < right@.len(),
            rest == right@.remove(ri as int),
            pm == pairs_model(pairs@),
            forall|k: int| 0 <= k < pairs@.len() ==> match (#[trigger] pairs@[k]).1 {
                Some(q) => q < right@[ri as int].cells.len(),
                None => true,
            },
            c <= right.columns.len(),
            columns_model(columns@) == left_columns(left@, pm) + right_columns(
                left@,
                rest.take(if c <= ri { c as int } else { c - 1 }),
                pm,
            ),
        decreases right.columns.len() - c,
    {
        if c != ri {
            assert(right@[c as int].cells.len() == right@[ri as int].cells.len());
            let name = if left.find(right.columns[c].name.as_str()).is_some() {
                right.columns[c].name.clone().concat("_right")
            } else {
                right.columns[c].name.clone()
            };
            let col = right_cells(&right.columns[c], &pairs, name);
            let ghost old_cols = columns@;
            columns.push(col);
            proof {
                let k = if c < ri { c as int } else { c - 1 };
                assert(rest[k] == right@[c as int]);
                assert(rest.take(k + 1) =~= rest.take(k).push(rest[k]));
                assert(right_columns(left@, rest.take(k + 1), pm) =~= right_columns(left@, rest.take(k), pm).push(
                    right_column(left@, rest[k], pm),
                ));
                assert(columns_model(columns@) =~= columns_model(old_cols).push(col@));
            }
        }
        c += 1;
    }
    assert(rest.take(right.columns.len() - 1) =~= rest);
    assert(left@.take(left.columns.len() as int) =~= left@);
    assert(columns_model(columns@) =~= left_columns(left@, pm) + right_columns(left@, rest, pm));
    let out = Table { columns };
    proof {
        lemma_join_rectangular(left@, rest, pm);
    }
    Ok(out)
}

proof fn lemma_join_rectangular(l: TableModel, rest: TableModel, pairs: Seq<(int, Option<int>)>)
    requires
        l.len() > 0,
    ensures
        rectangular(left_columns(l, pairs) + right_columns(l, rest, pairs)),
        height(left_columns(l, pairs) + right_columns(l, rest, pairs)) == pairs.len(),
{
    let t = left_columns(l, pairs) + right_columns(l, rest, pairs);
    assert forall|i: int| 0 <= i < t.len() implies #[trigger] t[i].cells.len() == pairs.len() by {
        if i < l.len() {
            assert(t[i] == left_column(l[i], pairs));
        } else {
            assert(t[i] == right_column(l, rest[i - l.len()], pairs));
        }
    }
    assert(t[0].cells.len() == pairs.len());
}

/// A commission rate cell: a number stays, a text is read as a number, and
/// what is no number (a null, or a text that is none) takes the base rate.
pub open spec fn rate_cell(c: CellModel, base: u64) -> CellModel {
    match c {
        CellModel::Number(n) => CellModel::Number(n),
        CellModel::Text(s) => match fixed_value(s) {
            Some(v) => CellModel::Number(v as u128),
            None => CellModel::Number(base as u128),
        },
        CellModel::Null => CellModel::Number(base as u128),
    }
}

pub open spec fn rate_cells(cells: Seq<CellModel>, base: u64) -> Seq<CellModel> {
    Seq::new(cells.len(), |i: int| rate_cell(cells[i], base))
}

/// Joins the reference data to the primary table: owners with zones on
/// `PROPIETARIO`, then the primary table's `listing_name` with the owners'
/// `ANUNCIO`; the `Comision` rate column is read as numbers, the base rate
/// standing in where there is none. A missing rate column is a schema
/// error; join errors as in `left_join_of`.
pub open spec fn join_references_of(primary: TableModel, owners: TableModel, zones: TableModel, base: u64) -> Result<
    TableModel,
    PipelineError,
> {
    match left_join_of(owners, zones, "PROPIETARIO"@, "PROPIETARIO"@) {
        Err(e) => Err(e),
        Ok(aux) => match left_join_of(primary, aux, "listing_name"@, "ANUNCIO"@) {
            Err(e) => Err(e),
            Ok(joined) => match first_named(joined, "Comision"@) {
                None => Err(PipelineError::Schema),
                Some(k) => Ok(with_column(joined, "Comision"@, rate_cells(joined[k].cells, base))),
            },
        },
    }
}

fn rate_of(c: &Cell, base: u64) -> (r: Cell)
    ensures
        r@ == rate_cell(c@, base),
{
    match c {
        Cell::Number(n) => Cell::Number(*n),
        Cell::Text(s) => {
            let chars = chars_of(s.as_str());
            match parse_fixed(&chars) {
                Some(v) => Cell::Number(v as u128),
                None => Cell::Number(base as u128),
            }
        },
        Cell::Null => Cell::Number(base as u128),
    }
}

/// See `join_references_of`.
pub fn join_references(primary: &Table, owners: &Table, zones: &Table, base_commission: u64) -> (r:
    Result<Table, PipelineError>)
    requires
        primary.wf(),
        owners.wf(),
        zones.wf(),
    ensures
        match r {
            Ok(t) => join_references_of(primary@, owners@, zones@, base_commission) == Ok::<
                TableModel,
                PipelineError,
            >(t@),
            Err(e) => join_references_of(primary@, owners@, zones@, base_commission) == Err::<
                TableModel,
                PipelineError,
            >(e),
        },
        r is Ok ==> r->Ok_0.wf(),
{
    let aux = left_join(owners, zones, "PROPIETARIO", "PROPIETARIO")?;
    let mut joined = left_join(primary, &aux, "listing_name", "ANUNCIO")?;
    let k = match joined.find("Comision") {
        Some(k) => k,
        None => return Err(PipelineError::Schema),
    };
    proof {
        lemma_first_named(joined@, "Comision"@);
    }
    let ghost source = joined@[k as int].cells;
    let mut rates: Vec<Cell> = Vec::new();
    let mut i: usize = 0;
    while i < joined.columns[k].cells.len()
        invariant
            k < joined@.len(),
            source == joined@[k as int].cells,
            i <= source.len(),
            rates@.len() == i,
            forall|j: int| 0 <= j < i ==> #[trigger] rates@[j]@ == rate_cell(source[j], base_commission),
        decreases source.len() - i,
    {
        rates.push(rate_of(&joined.columns[k].cells[i], base_commission));
        i += 1;
    }
    assert(cells_model(rates@) =~= rate_cells(source, base_commission));
    let ghost before = joined@;
    joined.set_column(String::from_str("Comision"), rates);
    proof {
        crate::table::lemma_with_column_rectangular(before, "Comision"@, rate_cells(source, base_commission));
    }
    Ok(joined)
}

/// The commission of a row: amount times rate, both fixed-point, rounded
/// down; null unless both are numbers.
pub open spec fn commission_cell(amount: CellModel, rate: CellModel) -> CellModel {
    match (amount, rate) {
        (CellModel::Number(a), CellModel::Number(r)) => CellModel::Number(((a * r) / (MICROS as int)) as u128),
        _ => CellModel::Null,
    }
}

pub open spec fn product_overflows(amount: CellModel, rate: CellModel) -> bool {
    match (amount, rate) {
        (CellModel::Number(a), CellModel::Number(r)) => a * r > u128::MAX,
        _ => false,
    }
}

/// Adds `commission_earnings` = `amount` x `Comision` per row. A missing
/// column is a schema error; a product past the number range an overflow.
pub open spec fn commission_of(t: TableModel) -> Result<TableModel, PipelineError> {
    match (first_named(t, "amount"@), first_named(t, "Comision"@)) {
        (Some(a), Some(c)) => if exists|i: int|
            0 <= i < t[a].cells.len() && #[trigger] product_overflows(t[a].cells[i], t[c].cells[i]) {
            Err(PipelineError::Overflow)
        } else {
            Ok(
                with_column(
                    t,
                    "commission_earnings"@,
                    Seq::new(t[a].cells.len(), |i: int| commission_cell(t[a].cells[i], t[c].cells[i])),
                ),
            )
        },
        _ => Err(PipelineError::Schema),
    }
}

/// See `commission_of`.
pub fn compute_commission(table: Table) -> (r: Result<Table, PipelineError>)
    requires
        table.wf(),
    ensures
        match r {
            Ok(t) => commission_of(table@) == Ok::<TableModel, PipelineError>(t@),
            Err(e) => commission_of(table@) == Err::<TableModel, PipelineError>(e),
        },
        r is Ok ==> r->Ok_0.wf(),
{
    let a = match table.find("amount") {
        Some(a) => a,
        None => return Err(PipelineError::Schema),
    };
    let c = match table.find("Comision") {
        Some(c) => c,
        None => return Err(PipelineError::Schema),
    };
    proof {
        lemma_first_named(table@, "amount"@);
        lemma_first_named(table@, "Comision"@);
    }
    let ghost amounts = table@[a as int].cells;
    let ghost rates = table@[c as int].cells;
    let ghost expected = Seq::new(amounts.len(), |i: int| commission_cell(amounts[i], rates[i]));
    let n = table.columns[a].cells.len();
    assert(rates.len() == n);
    let mut out: Vec<Cell> = Vec::new();
    let mut i: usize = 0;
    while i < n
        invariant
            a < table@.len(),
            c < table@.len(),
            amounts == table@[a as int].cells,
            rates == table@[c as int].cells,
            n == amounts.len(),
            n == rates.len(),
            expected == Seq::new(amounts.len(), |i: int| commission_cell(amounts[i], rates[i])),
            first_named(table@, "amount"@) == Some(a as int),
            first_named(table@, "Comision"@) == Some(c as int),
            i <= n,
            out@.len() == i,
            forall|j: int| 0 <= j < i ==> !#[trigger] product_overflows(amounts[j], rates[j]),
            forall|j: int| 0 <= j < i ==> #[trigger] out@[j]@ == expected[j],
        decreases n - i,
    {
        let cell = match (&table.columns[a].cells[i], &table.columns[c].cells[i]) {
            (Cell::Number(x), Cell::Number(y)) => match x.checked_mul(*y) {
                Some(p) => Cell::Number(p / (MICROS as u128)),
                None => {
                    assert(product_overflows(amounts[i as int], rates[i as int]));
                    return Err(PipelineError::Overflow);
                },
            },
            _ => Cell::Null,
        };
        out.push(cell);
        i += 1;
    }
    assert(cells_model(out@) =~= expected);
    let ghost before = table@;
    let mut result = table;
    result.set_column(String::from_str("commission_earnings"), out);
    proof {
        crate::table::lemma_with_column_rectangular(before, "commission_earnings"@, expected);
    }
    Ok(result)
}

/// The base commission rate: the first cell of the first column, a number
/// or the text of one. A table without it, or another cell, is a schema
/// error.
pub open spec fn base_commission_of(t: TableModel) -> Result<u64, PipelineError> {
    if t.len() == 0 || t[0].cells.len() == 0 {
        Err(PipelineError::Schema)
    } else {
        match t[0].cells[0] {
            CellModel::Text(s) => match fixed_value(s) {
                Some(v) => Ok(v),
                None => Err(PipelineError::Schema),
            },
            CellModel::Number(n) => if n <= u64::MAX {
                Ok(n as u64)
            } else {
                Err(PipelineError::Schema)
            },
            CellModel::Null => Err(PipelineError::Schema),
        }
    }
}

/// See `base_commission_of`.
pub fn base_commission(table: &Table) -> (r: Result<u64, PipelineError>)
    ensures
        r == base_commission_of(table@),
{
    if table.columns.len() == 0 || table.columns[0].cells.len() == 0 {
        return Err(PipelineError::Schema);
    }
    match &table.columns[0].cells[0] {
        Cell::Text(s) => {
            let chars = chars_of(s.as_str());
            match parse_fixed(&chars) {
                Some(v) => Ok(v),
                None => Err(PipelineError::Schema),
            }
        },
        Cell::Number(n) => if *n <= u64::MAX as u128 {
            Ok(*n as u64)
        } else {
            Err(PipelineError::Schema)
        },
        Cell::Null => Err(PipelineError::Schema),
    }
}


/// The owners table joined with the zones table: the reference data that
/// the primary rows are matched against.
pub open spec fn reference_of(owners: TableModel, zones: TableModel) -> TableModel {
    left_join_of(owners, zones, "PROPIETARIO"@, "PROPIETARIO"@)->Ok_0
}

/// The listing of primary row `r` matches no listing of the reference data.
pub open spec fn listing_unmatched(primary: TableModel, reference: TableModel, r: int) -> bool {
    let li = first_named(primary, "listing_name"@)->Some_0;
    let ai = first_named(reference, "ANUNCIO"@)->Some_0;
    forall|q: int|
        0 <= q < reference[ai].cells.len() ==> !#[trigger] key_matches(primary[li].cells[r], reference[ai].cells[q])
}

/// The output row at which primary row `r` first appears.
pub open spec fn output_row(primary: TableModel, reference: TableModel, r: int) -> int {
    let li = first_named(primary, "listing_name"@)->Some_0;
    let ai = first_named(reference, "ANUNCIO"@)->Some_0;
    join_pairs(primary[li].cells.take(r), reference[ai].cells).len() as int
}

proof fn lemma_no_match(k: CellModel, rk: Seq<CellModel>)
    requires
        forall|q: int| 0 <= q < rk.len() ==> !#[trigger] key_matches(k, rk[q]),
    ensures
        matching_rows(k, rk).len() == 0,
    decreases rk.len(),
{
    if rk.len() > 0 {
        assert forall|q: int| 0 <= q < rk.len() - 1 implies !#[trigger] key_matches(k, rk.drop_last()[q]) by {
            assert(rk.drop_last()[q] == rk[q]);
        }
        lemma_no_match(k, rk.drop_last());
        assert(!key_matches(k, rk[rk.len() - 1]));
    }
}

/// The pairs of the first `a` left rows begin the pairs of the first `b`.
proof fn lemma_pairs_prefix(lk: Seq<CellModel>, rk: Seq<CellModel>, a: int, b: int)
    requires
        0 <= a <= b <= lk.len(),
    ensures
        join_pairs(lk.take(a), rk).len() <= join_pairs(lk.take(b), rk).len(),
        join_pairs(lk.take(b), rk).take(join_pairs(lk.take(a), rk).len() as int) == join_pairs(lk.take(a), rk),
    decreases b - a,
{
    if a < b {
        lemma_pairs_prefix(lk, rk, a, b - 1);
        assert(lk.take(b).drop_last() =~= lk.take(b - 1));
        let pa = join_pairs(lk.take(a), rk);
        let pb1 = join_pairs(lk.take(b - 1), rk);
        let pb = join_pairs(lk.take(b), rk);
        assert(pb == pb1 + row_pairs(b - 1, lk.take(b).last(), rk));
        assert(pb.take(pa.len() as int) =~= pb1.take(pa.len() as int));
    } else {
        let pa = join_pairs(lk.take(a), rk);
        assert(pa.take(pa.len() as int) =~= pa);
    }
}

/// The output rows of the reference join, as (primary row, reference row)
/// pairs.
pub open spec fn output_pairs(primary: TableModel, reference: TableModel) -> Seq<(int, Option<int>)> {
    let li = first_named(primary, "listing_name"@)->Some_0;
    let ai = first_named(reference, "ANUNCIO"@)->Some_0;
    join_pairs(primary[li].cells, reference[ai].cells)
}

/// The pairs that the rows from `a` up to `b` add come from those rows.
proof fn lemma_pairs_rows(lk: Seq<CellModel>, rk: Seq<CellModel>, a: int, b: int)
    requires
        0 <= a <= b <= lk.len(),
    ensures
        join_pairs(lk.take(a), rk).len() <= join_pairs(lk.take(b), rk).len(),
        forall|x: int|
            join_pairs(lk.take(a), rk).len() <= x < join_pairs(lk.take(b), rk).len() ==> a <= (
            #[trigger] join_pairs(lk.take(b), rk)[x]).0 < b,
    decreases b - a,
{
    if a < b {
        lemma_pairs_rows(lk, rk, a, b - 1);
        lemma_pairs_prefix(lk, rk, a, b - 1);
        assert(lk.take(b).drop_last() =~= lk.take(b - 1));
        let pb1 = join_pairs(lk.take(b - 1), rk);
        let row = row_pairs(b - 1, lk.take(b).last(), rk);
        assert(join_pairs(lk.take(b), rk) == pb1 + row);
        assert forall|x: int| 0 <= x < row.len() implies (#[trigger] row[x]).0 == b - 1 by {}
        assert forall|x: int|
            join_pairs(lk.take(a), rk).len() <= x < join_pairs(lk.take(b), rk).len() implies a <= (
            #[trigger] join_pairs(lk.take(b), rk)[x]).0 < b by {
            if x >= pb1.len() {
                assert(join_pairs(lk.take(b), rk)[x] == row[x - pb1.len()]);
            } else {
                assert(join_pairs(lk.take(b), rk)[x] == pb1[x]);
            }
        }
    }
}

/// A primary row whose listing matches nothing in the reference data keeps
/// the value of every primary column, and its commission rate is the base
/// rate. (Where the primary table has a `Comision` column of its own, that
/// column is the one read as rates, so it is left out.)
pub proof fn lemma_unmatched_row_keeps_values(
    primary: TableModel,
    owners: TableModel,
    zones: TableModel,
    base: u64,
    r: int,
)
    requires
        rectangular(primary),
        join_references_of(primary, owners, zones, base) is Ok,
        first_named(primary, "Comision"@) is None,
        0 <= r < height(primary),
        listing_unmatched(primary, reference_of(owners, zones), r),
    ensures
        ({
            let out = join_references_of(primary, owners, zones, base)->Ok_0;
            let j = output_row(primary, reference_of(owners, zones), r);
            &&& first_named(out, "Comision"@) is Some
            &&& out[first_named(out, "Comision"@)->Some_0].cells[j] == CellModel::Number(base as u128)
            &&& forall|c: int|
                0 <= c < primary.len() ==> #[trigger] out[c].name == primary[c].name && out[c].cells[j]
                    == primary[c].cells[r]
            &&& out.len() >= primary.len()
            &&& j < output_pairs(primary, reference_of(owners, zones)).len()
            &&& output_pairs(primary, reference_of(owners, zones))[j] == (r, Option::<int>::None)
            &&& forall|x: int|
                0 <= x < output_pairs(primary, reference_of(owners, zones)).len() && (#[trigger] output_pairs(
                    primary,
                    reference_of(owners, zones),
                )[x]).0 == r ==> x == j
            &&& forall|c: int|
                primary.len() <= c < out.len() && c != first_named(out, "Comision"@)->Some_0
                    ==> #[trigger] out[c].cells[j] == CellModel::Null
            &&& forall|c: int| 0 <= c < out.len() ==> #[trigger] out[c].cells.len() == output_pairs(
                primary,
                reference_of(owners, zones),
            ).len()
        }),
{
    let aux = reference_of(owners, zones);
    lemma_first_named(primary, "listing_name"@);
    lemma_first_named(aux, "ANUNCIO"@);
    lemma_first_named(primary, "Comision"@);
    let li = first_named(primary, "listing_name"@)->Some_0;
    let ai = first_named(aux, "ANUNCIO"@)->Some_0;
    let lk = primary[li].cells;
    let rk = aux[ai].cells;
    let rest = aux.remove(ai);
    let pairs = join_pairs(lk, rk);
    let joined = left_columns(primary, pairs) + right_columns(primary, rest, pairs);
    assert(left_join_of(primary, aux, "listing_name"@, "ANUNCIO"@) == Ok::<TableModel, PipelineError>(joined));
    // the row's single output pair
    assert(lk.len() == height(primary));
    lemma_no_match(lk[r], rk);
    lemma_pairs_prefix(lk, rk, r + 1, lk.len() as int);
    assert(lk.take(r + 1).drop_last() =~= lk.take(r));
    let before = join_pairs(lk.take(r), rk);
    let j = before.len() as int;
    assert(join_pairs(lk.take(r + 1), rk) == before + seq![(r, Option::<int>::None)]);
    assert(lk.take(lk.len() as int) =~= lk);
    assert(pairs[j] == join_pairs(lk.take(r + 1), rk)[j]);
    assert(pairs[j] == (r, Option::<int>::None));
    // no other output row comes from row r
    lemma_pairs_rows(lk, rk, 0, r);
    lemma_pairs_rows(lk, rk, r + 1, lk.len() as int);
    lemma_pairs_prefix(lk, rk, r, lk.len() as int);
    assert(lk.take(0) =~= Seq::<CellModel>::empty());
    assert forall|x: int| 0 <= x < pairs.len() && (#[trigger] pairs[x]).0 == r implies x == j by {
        if x < j {
            assert(pairs[x] == before[x]);
        }
    }
    // the rate column comes from the reference side
    lemma_first_named(joined, "Comision"@);
    let k = first_named(joined, "Comision"@)->Some_0;
    assert forall|c: int| 0 <= c < primary.len() implies #[trigger] joined[c] == left_column(primary[c], pairs) by {}
    if k < primary.len() {
        assert(joined[k].name == primary[k].name);
    }
    assert(joined[k] == right_column(primary, rest[k - primary.len()], pairs));
    assert(joined[k].cells[j] == CellModel::Null);
    let out = with_column(joined, "Comision"@, rate_cells(joined[k].cells, base));
    assert(joined.len() == primary.len() + rest.len());
    lemma_first_named(out, "Comision"@);
    assert(out[k].name == "Comision"@);
    assert forall|c: int| 0 <= c < k implies out[c] == joined[c] by {}
    match first_named(out, "Comision"@) {
        Some(k2) => {
            if k2 < k {
                assert(out[k2] == joined[k2]);
            }
        },
        None => {},
    }
    assert(first_named(out, "Comision"@) == Some(k));
    assert forall|c: int| 0 <= c < primary.len() implies #[trigger] out[c].name == primary[c].name
        && out[c].cells[j] == primary[c].cells[r] by {
        assert(out[c] == joined[c]);
    }
    assert forall|c: int| primary.len() <= c < out.len() && c != k implies #[trigger] out[c].cells[j]
        == CellModel::Null by {
        assert(out[c] == joined[c]);
        assert(joined[c] == right_column(primary, rest[c - primary.len()], pairs));
    }
    assert forall|c: int| 0 <= c < out.len() implies #[trigger] out[c].cells.len() == pairs.len() by {
        if c != k {
            assert(out[c] == joined[c]);
            if c < primary.len() {
                assert(joined[c] == left_column(primary[c], pairs));
            } else {
                assert(joined[c] == right_column(primary, rest[c - primary.len()], pairs));
            }
        }
    }
}

/// Tables that agree on the names of their first columns agree on where
/// such a name is found first.
proof fn lemma_same_first_named(t: TableModel, u: TableModel, n: Seq<char>)
    requires
        first_named(t, n) is Some,
        t.len() <= u.len(),
        forall|c: int| 0 <= c < t.len() ==> #[trigger] u[c].name == t[c].name,
    ensures
        first_named(u, n) == first_named(t, n),
{
    lemma_first_named(t, n);
    lemma_first_named(u, n);
    let i = first_named(t, n)->Some_0;
    assert(u[i].name == n);
    match first_named(u, n) {
        Some(x) => {
            if x < i {
                assert(u[x].name == t[x].name);
            }
        },
        None => {},
    }
}

/// The commission of such a row is its amount times the base rate.
pub proof fn lemma_unmatched_row_commission(
    primary: TableModel,
    owners: TableModel,
    zones: TableModel,
    base: u64,
    r: int,
)
    requires
        rectangular(primary),
        join_references_of(primary, owners, zones, base) is Ok,
        first_named(primary, "Comision"@) is None,
        first_named(primary, "amount"@) is Some,
        0 <= r < height(primary),
        listing_unmatched(primary, reference_of(owners, zones), r),
        commission_of(join_references_of(primary, owners, zones, base)->Ok_0) is Ok,
    ensures
        ({
            let t = commission_of(join_references_of(primary, owners, zones, base)->Ok_0)->Ok_0;
            let j = output_row(primary, reference_of(owners, zones), r);
            &&& first_named(t, "commission_earnings"@) is Some
            &&& t[first_named(t, "commission_earnings"@)->Some_0].cells[j] == commission_cell(
                primary[first_named(primary, "amount"@)->Some_0].cells[r],
                CellModel::Number(base as u128),
            )
        }),
{
    lemma_unmatched_row_keeps_values(primary, owners, zones, base, r);
    let out = join_references_of(primary, owners, zones, base)->Ok_0;
    let j = output_row(primary, reference_of(owners, zones), r);
    lemma_first_named(primary, "amount"@);
    lemma_same_first_named(primary, out, "amount"@);
    let a = first_named(out, "amount"@)->Some_0;
    let k = first_named(out, "Comision"@)->Some_0;
    lemma_first_named(out, "Comision"@);
    let cells = Seq::new(out[a].cells.len(), |i: int| commission_cell(out[a].cells[i], out[k].cells[i]));
    crate::table::lemma_with_column_found(out, "commission_earnings"@, cells);
    assert(a == first_named(primary, "amount"@)->Some_0);
    assert(0 <= a < primary.len());
    assert(out[a].name == primary[a].name && out[a].cells[j] == primary[a].cells[r]);
    assert(cells[j] == commission_cell(primary[a].cells[r], CellModel::Number(base as u128)));
}

} // verus!
