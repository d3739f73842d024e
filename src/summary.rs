//! Grouping rows by key columns and summing their amounts.
use vstd::prelude::*;
use crate::error::PipelineError;
use crate::table::{
    Cell, CellModel, Column, ColumnModel, Table, TableModel, cells_model, columns_model, first_named,
    height, lemma_first_named,
};

verus! {

/// The key of row `i`: its cells in the key columns at `cols`.
pub open spec fn row_key(t: TableModel, cols: Seq<int>, i: int) -> Seq<CellModel> {
    Seq::new(cols.len(), |k: int| t[cols[k]].cells[i])
}

/// What a cell adds to a total: a number its value, a null nothing.
pub open spec fn amount_of(c: CellModel) -> int {
    match c {
        CellModel::Number(n) => n as int,
        _ => 0,
    }
}

/// The position of the first key equal to `k`.
pub open spec fn key_index(keys: Seq<Seq<CellModel>>, k: Seq<CellModel>) -> Option<int>
    decreases keys.len(),
{
    if keys.len() == 0 {
        None
    } else {
        match key_index(keys.drop_last(), k) {
            Some(i) => Some(i),
            None => if keys.last() == k {
                Some(keys.len() - 1)
            } else {
                None
            },
        }
    }
}

/// The groups of the rows (key, amount): their keys in first-seen order and
/// the sum of the amounts of each.
pub open spec fn group_rows(rows: Seq<(Seq<CellModel>, int)>) -> (Seq<Seq<CellModel>>, Seq<int>)
    decreases rows.len(),
{
    if rows.len() == 0 {
        (seq![], seq![])
    } else {
        let (keys, totals) = group_rows(rows.drop_last());
        let (k, a) = rows.last();
        match key_index(keys, k) {
            Some(p) => (keys, totals.update(p, totals[p] + a)),
            None => (keys.push(k), totals.push(a)),
        }
    }
}

/// How many leading entries of `order` have a total of at least `t`.
pub open spec fn lead(order: Seq<int>, totals: Seq<int>, t: int) -> nat
    decreases order.len(),
{
    if order.len() == 0 {
        0
    } else if totals[order[0]] >= t {
        1 + lead(order.skip(1), totals, t)
    } else {
        0
    }
}

pub open spec fn insert_at(s: Seq<int>, p: int, x: int) -> Seq<int> {
    s.take(p).push(x) + s.skip(p)
}

/// The first `n` groups ranked by total, largest first: each group is
/// placed after every earlier-seen group whose total is at least its own.
pub open spec fn rank_order(totals: Seq<int>, n: nat) -> Seq<int>
    decreases n,
{
    if n == 0 {
        seq![]
    } else {
        let s = rank_order(totals, (n - 1) as nat);
        insert_at(s, lead(s, totals, totals[n - 1]) as int, n - 1)
    }
}

/// Group `a` comes before group `b`: a larger total, or an equal total and
/// seen first.
pub open spec fn ranked_before(totals: Seq<int>, a: int, b: int) -> bool {
    totals[a] > totals[b] || (totals[a] == totals[b] && a < b)
}

pub open spec fn ranked(s: Seq<int>, totals: Seq<int>) -> bool {
    forall|i: int, j: int| 0 <= i < j < s.len() ==> #[trigger] ranked_before(totals, s[i], s[j])
}

/// The positions of the key columns, where all exist.
pub open spec fn key_columns(t: TableModel, names: Seq<Seq<char>>) -> Option<Seq<int>> {
    if forall|k: int| 0 <= k < names.len() ==> #[trigger] first_named(t, names[k]) is Some {
        Some(Seq::new(names.len(), |k: int| first_named(t, names[k])->Some_0))
    } else {
        None
    }
}

pub open spec fn summary_rows(t: TableModel, cols: Seq<int>, a: int) -> Seq<(Seq<CellModel>, int)> {
    Seq::new(height(t), |i: int| (row_key(t, cols, i), amount_of(t[a].cells[i])))
}

/// The summary table: one row per group, ranked by total; the key columns
/// (named as asked) then `total`.
pub open spec fn summary_table(names: Seq<Seq<char>>, keys: Seq<Seq<CellModel>>, totals: Seq<int>) -> TableModel {
    let order = rank_order(totals, keys.len());
    Seq::new(
        names.len(),
        |k: int|
            ColumnModel { name: names[k], cells: Seq::new(order.len(), |g: int| keys[order[g]][k]) },
    ).push(
        ColumnModel {
            name: "total"@,
            cells: Seq::new(order.len(), |g: int| CellModel::Number(totals[order[g]] as u128)),
        },
    )
}

/// Sums `amount` per distinct combination of the key columns. A missing key
/// or `amount` column, or a text amount, is a schema error; a total past
/// the number range an overflow.
pub open spec fn summarize_of(t: TableModel, names: Seq<Seq<char>>) -> Result<TableModel, PipelineError> {
    match (key_columns(t, names), first_named(t, "amount"@)) {
        (Some(cols), Some(a)) => if exists|i: int| 0 <= i < t[a].cells.len() && #[trigger] t[a].cells[i] is Text {
            Err(PipelineError::Schema)
        } else {
            let (keys, totals) = group_rows(summary_rows(t, cols, a));
            if exists|g: int| 0 <= g < totals.len() && #[trigger] totals[g] > u128::MAX {
                Err(PipelineError::Overflow)
            } else {
                Ok(summary_table(names, keys, totals))
            }
        },
        _ => Err(PipelineError::Schema),
    }
}

proof fn lemma_key_index(keys: Seq<Seq<CellModel>>, k: Seq<CellModel>)
    ensures
        match key_index(keys, k) {
            Some(i) => 0 <= i < keys.len() && keys[i] == k,
            None => forall|j: int| 0 <= j < keys.len() ==> #[trigger] keys[j] != k,
        },
    decreases keys.len(),
{
    if keys.len() > 0 {
        lemma_key_index(keys.drop_last(), k);
        assert forall|j: int| 0 <= j < keys.len() - 1 implies keys.drop_last()[j] == #[trigger] keys[j] by {}
    }
}

proof fn lemma_group_distinct(rows: Seq<(Seq<CellModel>, int)>)
    ensures
        group_rows(rows).0.len() == group_rows(rows).1.len(),
        forall|a: int, b: int|
            0 <= a < b < group_rows(rows).0.len() ==> #[trigger] group_rows(rows).0[a] != #[trigger] group_rows(rows).0[b],
    decreases rows.len(),
{
    if rows.len() > 0 {
        lemma_group_distinct(rows.drop_last());
        let (ks, ts) = group_rows(rows.drop_last());
        lemma_key_index(ks, rows.last().0);
    }
}

/// Adding row `n` keeps the earlier keys and lets no total shrink.
proof fn lemma_group_step(rows: Seq<(Seq<CellModel>, int)>, n: int)
    requires
        0 <= n < rows.len(),
        rows[n].1 >= 0,
    ensures
        group_rows(rows.take(n)).1.len() <= group_rows(rows.take(n + 1)).1.len(),
        forall|g: int| 0 <= g < group_rows(rows.take(n)).1.len() ==> group_rows(rows.take(n)).1[g]
            <= #[trigger] group_rows(rows.take(n + 1)).1[g],
{
    assert(rows.take(n + 1).drop_last() =~= rows.take(n));
    assert(rows.take(n + 1).last() == rows[n]);
    let (ks, ts) = group_rows(rows.take(n));
    lemma_group_distinct(rows.take(n));
    lemma_key_index(ks, rows[n].0);
}

/// No group total shrinks as rows are added.
proof fn lemma_group_grows(rows: Seq<(Seq<CellModel>, int)>, n: int, m: int)
    requires
        0 <= n <= m <= rows.len(),
        forall|i: int| 0 <= i < rows.len() ==> (#[trigger] rows[i]).1 >= 0,
    ensures
        group_rows(rows.take(n)).1.len() <= group_rows(rows.take(m)).1.len(),
        forall|g: int| 0 <= g < group_rows(rows.take(n)).1.len() ==> group_rows(rows.take(n)).1[g]
            <= #[trigger] group_rows(rows.take(m)).1[g],
    decreases m - n,
{
    if n < m {
        lemma_group_grows(rows, n, m - 1);
        assert(rows[m - 1].1 >= 0);
        lemma_group_step(rows, m - 1);
    }
}

/// Facts about where a group's total places it.
proof fn lemma_lead(s: Seq<int>, totals: Seq<int>, t: int)
    requires
        forall|k: int| 0 <= k < s.len() ==> 0 <= #[trigger] s[k] < totals.len(),
        ranked(s, totals),
    ensures
        lead(s, totals, t) <= s.len(),
        forall|k: int| 0 <= k < lead(s, totals, t) ==> totals[#[trigger] s[k]] >= t,
        forall|k: int| lead(s, totals, t) <= k < s.len() ==> totals[#[trigger] s[k]] < t,
    decreases s.len(),
{
    if s.len() > 0 {
        if totals[s[0]] >= t {
            let rest = s.skip(1);
            assert forall|i: int, j: int| 0 <= i < j < rest.len() implies #[trigger] ranked_before(totals, rest[i], rest[j]) by {
                assert(ranked_before(totals, s[i + 1], s[j + 1]));
            }
            lemma_lead(rest, totals, t);
            assert forall|k: int| 0 <= k < lead(s, totals, t) implies totals[#[trigger] s[k]] >= t by {
                if k > 0 {
                    assert(s[k] == rest[k - 1]);
                }
            }
            assert forall|k: int| lead(s, totals, t) <= k < s.len() implies totals[#[trigger] s[k]] < t by {
                assert(s[k] == rest[k - 1]);
            }
        } else {
            assert forall|k: int| 0 <= k < s.len() implies totals[#[trigger] s[k]] < t by {
                if k > 0 {
                    assert(ranked_before(totals, s[0], s[k]));
                }
            }
        }
    }
}

/// The ranking holds every group once, largest total first, and equal
/// totals in the order in which the groups were first seen.
pub proof fn lemma_rank_order_sorted(totals: Seq<int>, n: nat)
    requires
        n <= totals.len(),
    ensures
        rank_order(totals, n).len() == n,
        forall|k: int| 0 <= k < n ==> 0 <= #[trigger] rank_order(totals, n)[k] < n,
        ranked(rank_order(totals, n), totals),
    decreases n,
{
    if n > 0 {
        let m = (n - 1) as nat;
        lemma_rank_order_sorted(totals, m);
        let s = rank_order(totals, m);
        let t = totals[m as int];
        lemma_lead(s, totals, t);
        let p = lead(s, totals, t) as int;
        let r = insert_at(s, p, m as int);
        assert(r.len() == n);
        assert forall|k: int| 0 <= k < r.len() implies #[trigger] r[k] == (if k < p {
            s[k]
        } else if k == p {
            m as int
        } else {
            s[k - 1]
        }) by {}
        assert forall|k: int| 0 <= k < n implies 0 <= #[trigger] r[k] < n by {
            if k != p {
                let q = if k < p { k } else { k - 1 };
                assert(r[k] == s[q]);
            }
        }
        assert forall|i: int, j: int| 0 <= i < j < r.len() implies #[trigger] ranked_before(totals, r[i], r[j]) by {
            let qi = if i < p { i } else { i - 1 };
            let qj = if j < p { j } else { j - 1 };
            if i != p && j != p {
                assert(r[i] == s[qi]);
                assert(r[j] == s[qj]);
                assert(ranked_before(totals, s[qi], s[qj]));
            } else if i == p {
                assert(r[j] == s[qj]);
                assert(totals[s[qj]] < t);
            } else {
                assert(r[i] == s[qi]);
                assert(totals[s[qi]] >= t);
                assert(s[qi] < m);
            }
        }
    }
}

pub open spec fn order_model(v: Seq<usize>) -> Seq<int> {
    v.map_values(|x: usize| x as int)
}

pub open spec fn totals_model(v: Seq<u128>) -> Seq<int> {
    v.map_values(|x: u128| x as int)
}

pub open spec fn keys_model(v: Seq<Vec<Cell>>) -> Seq<Seq<CellModel>> {
    v.map_values(|k: Vec<Cell>| cells_model(k@))
}

pub open spec fn names_model(v: Seq<String>) -> Seq<Seq<char>> {
    v.map_values(|n: String| n@)
}

/// The groups in the order the summary lists them, as positions in
/// first-seen order.
pub open spec fn summary_order(t: TableModel, names: Seq<Seq<char>>) -> Seq<int> {
    let cols = key_columns(t, names)->Some_0;
    let a = first_named(t, "amount"@)->Some_0;
    let (keys, totals) = group_rows(summary_rows(t, cols, a));
    rank_order(totals, keys.len())
}

/// The summary lists larger totals first; rows with equal totals keep the
/// order in which their groups first appear in the table.
pub proof fn lemma_summary_ranked(t: TableModel, names: Seq<Seq<char>>)
    requires
        summarize_of(t, names) is Ok,
    ensures
        ({
            let out = summarize_of(t, names)->Ok_0;
            let total = out[names.len() as int].cells;
            let order = summary_order(t, names);
            &&& out[names.len() as int].name == "total"@
            &&& total.len() == order.len()
            &&& forall|i: int, j: int|
                0 <= i < j < total.len() ==> #[trigger] amount_of(total[i]) >= #[trigger] amount_of(total[j])
                    && (amount_of(total[i]) == amount_of(total[j]) ==> order[i] < order[j])
        }),
{
    let cols = key_columns(t, names)->Some_0;
    let a = first_named(t, "amount"@)->Some_0;
    let rows = summary_rows(t, cols, a);
    let (keys, totals) = group_rows(rows);
    lemma_group_distinct(rows);
    lemma_rank_order_sorted(totals, keys.len());
    let order = rank_order(totals, keys.len());
    let out = summary_table(names, keys, totals);
    let total = out[names.len() as int].cells;
    assert forall|i: int, j: int| 0 <= i < j < total.len() implies #[trigger] amount_of(total[i]) >= #[trigger] amount_of(total[j])
        && (amount_of(total[i]) == amount_of(total[j]) ==> order[i] < order[j]) by {
        assert(ranked_before(totals, order[i], order[j]));
        assert(totals[order[i]] <= u128::MAX);
        assert(totals[order[j]] <= u128::MAX);
        lemma_group_rows_nonneg(rows);
        assert(total[i] == CellModel::Number(totals[order[i]] as u128));
        assert(total[j] == CellModel::Number(totals[order[j]] as u128));
    }
}

proof fn lemma_group_rows_nonneg(rows: Seq<(Seq<CellModel>, int)>)
    requires
        forall|i: int| 0 <= i < rows.len() ==> (#[trigger] rows[i]).1 >= 0,
    ensures
        forall|g: int| 0 <= g < group_rows(rows).1.len() ==> #[trigger] group_rows(rows).1[g] >= 0,
{
    assert forall|g: int| 0 <= g < group_rows(rows).1.len() implies #[trigger] group_rows(rows).1[g] >= 0 by {
        lemma_group_cell_nonneg(rows, g);
    }
}

proof fn lemma_group_cell_nonneg(rows: Seq<(Seq<CellModel>, int)>, g: int)
    requires
        forall|i: int| 0 <= i < rows.len() ==> (#[trigger] rows[i]).1 >= 0,
        0 <= g < group_rows(rows).1.len(),
    ensures
        group_rows(rows).1[g] >= 0,
    decreases rows.len(),
{
    if rows.len() > 0 {
        let front = rows.drop_last();
        assert forall|i: int| 0 <= i < front.len() implies (#[trigger] front[i]).1 >= 0 by {
            assert(front[i] == rows[i]);
        }
        lemma_group_distinct(front);
        let (ks, ts) = group_rows(front);
        lemma_key_index(ks, rows.last().0);
        assert(rows[rows.len() - 1].1 >= 0);
        if g < ts.len() {
            lemma_group_cell_nonneg(front, g);
        }
    }
}

/// Where in `order` a group with total `t` goes.
fn lead_of(order: &Vec<usize>, totals: &Vec<u128>, t: u128) -> (r: usize)
    requires
        forall|k: int| 0 <= k < order@.len() ==> #[trigger] order@[k] < totals@.len(),
    ensures
        r as int == lead(order_model(order@), totals_model(totals@), t as int),
        r <= order@.len(),
{
    let ghost s = order_model(order@);
    let ghost ts = totals_model(totals@);
    let mut i: usize = 0;
    assert(s.skip(0) =~= s);
    while i < order.len() && totals[order[i]] >= t
        invariant
            i <= order@.len(),
            s == order_model(order@),
            ts == totals_model(totals@),
            forall|k: int| 0 <= k < order@.len() ==> #[trigger] order@[k] < totals@.len(),
            lead(s, ts, t as int) == i + lead(s.skip(i as int), ts, t as int),
        decreases order.len() - i,
    {
        assert(s.skip(i as int).skip(1) =~= s.skip(i + 1));
        assert(s.skip(i as int)[0] == s[i as int]);
        i += 1;
    }
    if i < order.len() {
        assert(s.skip(i as int)[0] == s[i as int]);
    } else {
        assert(s.skip(i as int).len() == 0);
    }
    i
}

fn same_cell(a: &Cell, b: &Cell) -> (r: bool)
    ensures
        r == (a@ == b@),
{
    match (a, b) {
        (Cell::Null, Cell::Null) => true,
        (Cell::Text(x), Cell::Text(y)) => *x == *y,
        (Cell::Number(x), Cell::Number(y)) => *x == *y,
        _ => false,
    }
}

fn same_key(a: &Vec<Cell>, b: &Vec<Cell>) -> (r: bool)
    ensures
        r == (cells_model(a@) == cells_model(b@)),
{
    if a.len() != b.len() {
        assert(cells_model(a@).len() != cells_model(b@).len());
        return false;
    }
    let mut i: usize = 0;
    while i < a.len()
        invariant
            a@.len() == b@.len(),
            i <= a@.len(),
            forall|k: int| 0 <= k < i ==> #[trigger] a@[k]@ == b@[k]@,
        decreases a.len() - i,
    {
        if !same_cell(&a[i], &b[i]) {
            assert(cells_model(a@)[i as int] != cells_model(b@)[i as int]);
            return false;
        }
        i += 1;
    }
    assert(cells_model(a@) =~= cells_model(b@));
    true
}

/// The position of the first key equal to `key`.
fn find_key(keys: &Vec<Vec<Cell>>, key: &Vec<Cell>) -> (r: Option<usize>)
    ensures
        match r {
            Some(p) => key_index(keys_model(keys@), cells_model(key@)) == Some(p as int),
            None => key_index(keys_model(keys@), cells_model(key@)) is None,
        },
{
    let ghost km = keys_model(keys@);
    let ghost k = cells_model(key@);
    let mut p: usize = 0;
    while p < keys.len()
        invariant
            km == keys_model(keys@),
            k == cells_model(key@),
            p <= keys@.len(),
            key_index(km.take(p as int), k) is None,
        decreases keys.len() - p,
    {
        assert(km.take(p + 1).drop_last() =~= km.take(p as int));
        if same_key(&keys[p], key) {
            proof {
                lemma_key_index_prefix(km, k, p as int + 1);
            }
            return Some(p);
        }
        p += 1;
    }
    assert(km.take(keys.len() as int) =~= km);
    None
}

proof fn lemma_key_index_prefix(keys: Seq<Seq<CellModel>>, k: Seq<CellModel>, n: int)
    requires
        0 < n <= keys.len(),
        key_index(keys.take(n), k) is Some,
    ensures
        key_index(keys, k) == key_index(keys.take(n), k),
    decreases keys.len() - n,
{
    if n < keys.len() {
        assert(keys.take(n + 1).drop_last() =~= keys.take(n));
        lemma_key_index_prefix(keys, k, n + 1);
    } else {
        assert(keys.take(n) =~= keys);
    }
}

/// The key of row `i`, copied.
fn key_of(table: &Table, cols: &Vec<usize>, i: usize) -> (r: Vec<Cell>)
    requires
        table.wf(),
        forall|k: int| 0 <= k < cols@.len() ==> #[trigger] cols@[k] < table@.len(),
        i < height(table@),
    ensures
        cells_model(r@) == row_key(table@, order_model(cols@), i as int),
{
    let mut key: Vec<Cell> = Vec::new();
    let mut k: usize = 0;
    while k < cols.len()
        invariant
            table.wf(),
            forall|j: int| 0 <= j < cols@.len() ==> #[trigger] cols@[j] < table@.len(),
            i < height(table@),
            k <= cols@.len(),
            key@.len() == k,
            forall|j: int| 0 <= j < k ==> #[trigger] key@[j]@ == table@[cols@[j] as int].cells[i as int],
        decreases cols.len() - k,
    {
        assert(table@[cols@[k as int] as int].cells.len() == height(table@));
        key.push(table.columns[cols[k]].cells[i].duplicate());
        k += 1;
    }
    assert(cells_model(key@) =~= row_key(table@, order_model(cols@), i as int));
    key
}

/// The groups of the rows by key, with their totals; `None` where a total
/// passes the number range.
fn group_totals(table: &Table, cols: &Vec<usize>, a: usize) -> (r: Option<(Vec<Vec<Cell>>, Vec<u128>)>)
    requires
        table.wf(),
        a < table@.len(),
        forall|j: int| 0 <= j < cols@.len() ==> #[trigger] cols@[j] < table@.len(),
    ensures
        match r {
            Some((keys, totals)) => {
                &&& keys_model(keys@) == group_rows(summary_rows(table@, order_model(cols@), a as int)).0
                &&& totals_model(totals@) == group_rows(summary_rows(table@, order_model(cols@), a as int)).1
                &&& forall|j: int| 0 <= j < keys@.len() ==> (#[trigger] keys@[j])@.len() == cols@.len()
            },
            None => exists|g: int|
                0 <= g < group_rows(summary_rows(table@, order_model(cols@), a as int)).1.len()
                    && #[trigger] group_rows(summary_rows(table@, order_model(cols@), a as int)).1[g] > u128::MAX,
        },
{
    let ghost cm = order_model(cols@);
    let ghost rows = summary_rows(table@, cm, a as int);
    assert forall|j: int| 0 <= j < rows.len() implies (#[trigger] rows[j]).1 >= 0 by {}
    let n = table.columns[a].cells.len();
    assert(table@[a as int].cells.len() == height(table@));
    let mut keys: Vec<Vec<Cell>> = Vec::new();
    let mut totals: Vec<u128> = Vec::new();
    let mut i: usize = 0;
    while i < n
        invariant
            table.wf(),
            a < table@.len(),
            n == height(table@),
            n == table@[a as int].cells.len(),
            cm == order_model(cols@),
            rows == summary_rows(table@, cm, a as int),
            forall|j: int| 0 <= j < rows.len() ==> (#[trigger] rows[j]).1 >= 0,
            forall|j: int| 0 <= j < cols@.len() ==> #[trigger] cols@[j] < table@.len(),
            i <= n,
            keys_model(keys@) == group_rows(rows.take(i as int)).0,
            totals_model(totals@) == group_rows(rows.take(i as int)).1,
            forall|j: int| 0 <= j < keys@.len() ==> (#[trigger] keys@[j])@.len() == cols@.len(),
        decreases n - i,
    {
        let key = key_of(table, cols, i);
        assert(cells_model(key@).len() == key@.len());
        let amount: u128 = match &table.columns[a].cells[i] {
            Cell::Number(x) => *x,
            _ => 0,
        };
        assert(rows.take(i + 1).drop_last() =~= rows.take(i as int));
        assert(rows.take(i + 1).last() == rows[i as int]);
        assert(rows[i as int] == (cells_model(key@), amount as int));
        proof {
            lemma_group_distinct(rows.take(i as int));
        }
        match find_key(&keys, &key) {
            Some(p) => {
                proof {
                    lemma_key_index(keys_model(keys@), cells_model(key@));
                }
                match totals[p].checked_add(amount) {
                    Some(sum) => {
                        totals.set(p, sum);
                        assert(totals_model(totals@) =~= group_rows(rows.take(i + 1)).1);
                    },
                    None => {
                        proof {
                            let ts0 = group_rows(rows.take(i as int)).1;
                            assert(group_rows(rows.take(i + 1)).1 == ts0.update(p as int, ts0[p as int] + amount as int));
                            assert(ts0[p as int] == totals@[p as int] as int);
                            lemma_group_grows(rows, i + 1, rows.len() as int);
                            assert(rows.take(rows.len() as int) =~= rows);
                            let ts = group_rows(rows).1;
                            assert(ts[p as int] > u128::MAX);
                        }
                        return None;
                    },
                }
            },
            None => {
                keys.push(key);
                totals.push(amount);
                assert(keys_model(keys@) =~= group_rows(rows.take(i + 1)).0);
                assert(totals_model(totals@) =~= group_rows(rows.take(i + 1)).1);
            },
        }
        i += 1;
    }
    assert(rows.take(n as int) =~= rows);
    Some((keys, totals))
}

/// Sums `amount` per distinct combination of the key columns named
/// `group_keys`: one row per group, largest total first, equal totals in
/// first-seen order (see `summarize_of`).
pub fn summarize(table: &Table, group_keys: &Vec<String>) -> (r: Result<Table, PipelineError>)
    requires
        table.wf(),
    ensures
        match r {
            Ok(t) => summarize_of(table@, names_model(group_keys@)) == Ok::<TableModel, PipelineError>(t@),
            Err(e) => summarize_of(table@, names_model(group_keys@)) == Err::<TableModel, PipelineError>(e),
        },
{
    let ghost names = names_model(group_keys@);
    let mut cols: Vec<usize> = Vec::new();
    let mut k: usize = 0;
    while k < group_keys.len()
        invariant
            names == names_model(group_keys@),
            k <= group_keys@.len(),
            cols@.len() == k,
            forall|j: int| 0 <= j < k ==> first_named(table@, names[j]) == Some(#[trigger] cols@[j] as int),
            forall|j: int| 0 <= j < k ==> #[trigger] cols@[j] < table@.len(),
        decreases group_keys.len() - k,
    {
        assert(names[k as int] == group_keys@[k as int]@);
        match table.find(group_keys[k].as_str()) {
            Some(c) => {
                proof {
                    lemma_first_named(table@, names[k as int]);
                }
                cols.push(c);
            },
            None => {
                assert(!(forall|j: int| 0 <= j < names.len() ==> #[trigger] first_named(table@, names[j]) is Some));
                return Err(PipelineError::Schema);
            },
        }
        k += 1;
    }
    let ghost cm = order_model(cols@);
    assert(key_columns(table@, names) == Some(cm)) by {
        assert(names.len() == cols@.len());
        assert forall|j: int| 0 <= j < names.len() implies #[trigger] first_named(table@, names[j]) is Some by {
            assert(first_named(table@, names[j]) == Some(cols@[j] as int));
        }
        assert(Seq::new(names.len(), |j: int| first_named(table@, names[j])->Some_0) =~= cm);
    }
    let a = match table.find("amount") {
        Some(a) => a,
        None => return Err(PipelineError::Schema),
    };
    proof {
        lemma_first_named(table@, "amount"@);
    }
    let n = table.columns[a].cells.len();
    let mut i: usize = 0;
    while i < n
        invariant
            a < table@.len(),
            n == table@[a as int].cells.len(),
            i <= n,
            forall|j: int| 0 <= j < i ==> !(#[trigger] table@[a as int].cells[j] is Text),
            key_columns(table@, names) == Some(cm),
            first_named(table@, "amount"@) == Some(a as int),
        decreases n - i,
    {
        if let Cell::Text(_) = &table.columns[a].cells[i] {
            assert(table@[a as int].cells[i as int] is Text);
            return Err(PipelineError::Schema);
        }
        i += 1;
    }
    let ghost rows = summary_rows(table@, cm, a as int);
    let (keys, totals) = match group_totals(table, &cols, a) {
        Some(groups) => groups,
        None => return Err(PipelineError::Overflow),
    };
    let ghost km = keys_model(keys@);
    let ghost tm = totals_model(totals@);
    proof {
        lemma_group_distinct(rows);
        assert(!(exists|g: int| 0 <= g < tm.len() && #[trigger] tm[g] > u128::MAX));
    }
    // rank the groups
    let mut order: Vec<usize> = Vec::new();
    let mut g: usize = 0;
    while g < totals.len()
        invariant
            tm == totals_model(totals@),
            g <= totals@.len(),
            order_model(order@) == rank_order(tm, g as nat),
            order@.len() == g,
            forall|j: int| 0 <= j < order@.len() ==> #[trigger] order@[j] < g,
        decreases totals.len() - g,
    {
        proof {
            lemma_rank_order_sorted(tm, g as nat);
        }
        let p = lead_of(&order, &totals, totals[g]);
        let mut next: Vec<usize> = Vec::new();
        let mut j: usize = 0;
        while j < p
            invariant
                p <= order@.len(),
                j <= p,
                next@ == order@.take(j as int),
            decreases p - j,
        {
            next.push(order[j]);
            j += 1;
            assert(next@ =~= order@.take(j as int));
        }
        next.push(g);
        let mut j: usize = p;
        while j < order.len()
            invariant
                p <= j <= order@.len(),
                next@ == order@.take(p as int).push(g) + order@.subrange(p as int, j as int),
            decreases order.len() - j,
        {
            next.push(order[j]);
            j += 1;
            assert(next@ =~= order@.take(p as int).push(g) + order@.subrange(p as int, j as int));
        }
        assert(order@.subrange(p as int, order@.len() as int) =~= order@.skip(p as int));
        assert(order_model(next@) =~= insert_at(order_model(order@), p as int, g as int));
        order = next;
        g += 1;
        proof {
            lemma_rank_order_sorted(tm, g as nat);
        }
    }
    proof {
        lemma_rank_order_sorted(tm, km.len());
    }
    let ghost om = rank_order(tm, km.len());
    assert(order_model(order@) == om);
    // build the columns
    let mut columns: Vec<Column> = Vec::new();
    let mut k: usize = 0;
    while k < group_keys.len()
        invariant
            names == names_model(group_keys@),
            cols@.len() == group_keys@.len(),
            km == keys_model(keys@),
            tm == totals_model(totals@),
            km.len() == tm.len(),
            om == rank_order(tm, km.len()),
            order_model(order@) == om,
            order@.len() == keys@.len(),
            forall|j: int| 0 <= j < order@.len() ==> #[trigger] order@[j] < keys@.len(),
            forall|j: int| 0 <= j < keys@.len() ==> (#[trigger] keys@[j])@.len() == cols@.len(),
            k <= group_keys@.len(),
            columns@.len() == k,
            forall|c: int| 0 <= c < k ==> (#[trigger] columns@[c])@ == (ColumnModel {
                name: names[c],
                cells: Seq::new(om.len(), |x: int| km[om[x]][c]),
            }),
        decreases group_keys.len() - k,
    {
        let mut cells: Vec<Cell> = Vec::new();
        let mut x: usize = 0;
        while x < order.len()
            invariant
                km == keys_model(keys@),
                order_model(order@) == om,
                forall|j: int| 0 <= j < order@.len() ==> #[trigger] order@[j] < keys@.len(),
                forall|j: int| 0 <= j < keys@.len() ==> (#[trigger] keys@[j])@.len() == cols@.len(),
                k < cols@.len(),
                x <= order@.len(),
                cells@.len() == x,
                forall|y: int| 0 <= y < x ==> #[trigger] cells@[y]@ == km[om[y]][k as int],
            decreases order.len() - x,
        {
            cells.push(keys[order[x]][k].duplicate());
            x += 1;
        }
        let column = Column { name: group_keys[k].clone(), cells };
        assert(column@.cells =~= Seq::new(om.len(), |y: int| km[om[y]][k as int]));
        columns.push(column);
        k += 1;
    }
    let mut cells: Vec<Cell> = Vec::new();
    let mut x: usize = 0;
    while x < order.len()
        invariant
            tm == totals_model(totals@),
            order_model(order@) == om,
            forall|j: int| 0 <= j < order@.len() ==> #[trigger] order@[j] < totals@.len(),
            x <= order@.len(),
            cells@.len() == x,
            forall|y: int| 0 <= y < x ==> #[trigger] cells@[y]@ == CellModel::Number(tm[om[y]] as u128),
        decreases order.len() - x,
    {
        cells.push(Cell::Number(totals[order[x]]));
        x += 1;
    }
    let total = Column { name: String::from_str("total"), cells };
    assert(total@.cells =~= Seq::new(om.len(), |y: int| CellModel::Number(tm[om[y]] as u128)));
    let ghost before = columns@;
    columns.push(total);
    let out = Table { columns };
    assert(out@ =~= summary_table(names, km, tm)) by {
        assert(columns_model(before) =~= Seq::new(
            names.len(),
            |c: int| ColumnModel { name: names[c], cells: Seq::new(om.len(), |y: int| km[om[y]][c]) },
        ));
    }
    Ok(out)
}

/// Totals of `amount` per listing and currency, ranked (see `summarize`).
pub fn get_summary(df: Table) -> (r: Result<Table, PipelineError>)
    requires
        df.wf(),
    ensures
        match r {
            Ok(t) => summarize_of(df@, seq!["listing_name"@, "currency"@]) == Ok::<TableModel, PipelineError>(t@),
            Err(e) => summarize_of(df@, seq!["listing_name"@, "currency"@]) == Err::<TableModel, PipelineError>(e),
        },
{
    let keys = vec![String::from_str("listing_name"), String::from_str("currency")];
    assert(names_model(keys@) =~= seq!["listing_name"@, "currency"@]);
    summarize(&df, &keys)
}

} // verus!
