//! Splitting the earnings text ("$1,234.56") into a currency marker and an
//! amount.
use vstd::prelude::*;
use crate::error::PipelineError;
use crate::number::{fixed_value, without_commas, chars_of, strip_commas, parse_fixed};
use crate::table::{
    Cell, CellModel, Table, TableModel, first_named, with_column, rectangular,
    lemma_first_named, lemma_with_column_rectangular, lemma_with_other_column, lemma_with_column_found,
    lemma_with_present_column,
};

verus! {

/// What the earnings pattern `([^\d,.]+)?([\d,]+\.\d+)` captures in `s`:
/// the currency group (empty when it did not take part) and the amount
/// group of the leftmost match, or `None` without a match.
pub uninterp spec fn earnings_match(s: Seq<char>) -> Option<(Seq<char>, Seq<char>)>;

pub open spec fn is_ascii_digit(c: char) -> bool {
    '0' <= c && c <= '9'
}

/// `s[i..j]` is digits or commas, a point at `p`, and digits.
pub open spec fn amount_at(s: Seq<char>, i: int, p: int, j: int) -> bool {
    &&& 0 <= i < p
    &&& p + 1 < j <= s.len()
    &&& s[p] == '.'
    &&& forall|k: int| i <= k < p ==> is_ascii_digit(#[trigger] s[k]) || s[k] == ','
    &&& forall|k: int| p < k < j ==> is_ascii_digit(#[trigger] s[k])
}

/// Somewhere in `s` stand digits or commas, a point, and digits.
pub open spec fn holds_amount(s: Seq<char>) -> bool {
    exists|i: int, p: int, j: int| #[trigger] amount_at(s, i, p, j)
}

/// `s` holds a point somewhere.
pub open spec fn has_point(s: Seq<char>) -> bool {
    exists|k: int| 0 <= k < s.len() && #[trigger] s[k] == '.'
}

/// Relies on `regex::Regex::captures` with the earnings pattern: `None`
/// exactly when nothing in `s` matches, which cannot happen where `s`
/// holds ASCII digits and commas, a point and ASCII digits (all of them
/// are matched by `[\d,]` and `\d`), and must happen where `s` holds no
/// point (the pattern requires a literal `.`); otherwise the text of
/// group 1 (empty when it took no part) and of group 2, which always
/// takes part.
#[verifier::external_body]
fn capture_earnings(s: &str) -> (r: Option<(String, String)>)
    ensures
        match r {
            Some((c, a)) => earnings_match(s@) == Some((c@, a@)),
            None => earnings_match(s@) is None,
        },
        holds_amount(s@) ==> r is Some,
        !has_point(s@) ==> r is None,
{
    let pattern = regex::Regex::new(r"([^\d,.]+)?([\d,]+\.\d+)").unwrap();
    match pattern.captures(s) {
        Some(caps) => {
            let currency = match caps.get(1) {
                Some(m) => m.as_str().to_string(),
                None => String::new(),
            };
            Some((currency, caps[2].to_string()))
        },
        None => None,
    }
}

/// The amount that the text of the amount group stands for: the number
/// that remains once the commas are taken out, or zero where that is no
/// number in range.
pub open spec fn amount_value(a: Seq<char>) -> u64 {
    match fixed_value(without_commas(a)) {
        Some(v) => v,
        None => 0,
    }
}

/// The currency marker and the amount of an earnings text.
pub open spec fn split_earnings(s: Seq<char>) -> Option<(Seq<char>, u64)> {
    match earnings_match(s) {
        Some((c, a)) => Some((c, amount_value(a))),
        None => None,
    }
}

pub open spec fn cell_earnings(c: CellModel) -> Option<(Seq<char>, u64)> {
    match c {
        CellModel::Text(s) => split_earnings(s),
        _ => None,
    }
}

pub open spec fn currency_cells(cells: Seq<CellModel>) -> Seq<CellModel> {
    Seq::new(
        cells.len(),
        |i: int|
            match cell_earnings(cells[i]) {
                Some((c, _)) => CellModel::Text(c),
                None => CellModel::Null,
            },
    )
}

pub open spec fn amount_cells(cells: Seq<CellModel>) -> Seq<CellModel> {
    Seq::new(
        cells.len(),
        |i: int|
            match cell_earnings(cells[i]) {
                Some((_, v)) => CellModel::Number(v as u128),
                None => CellModel::Null,
            },
    )
}

/// An earnings cell that holds an amount: text with digits, a point and
/// digits.
pub open spec fn cell_holds_amount(c: CellModel) -> bool {
    match c {
        CellModel::Text(s) => holds_amount(s),
        _ => false,
    }
}

/// An earnings cell that cannot hold an amount: not text, or text without
/// a point.
pub open spec fn cell_lacks_amount(c: CellModel) -> bool {
    match c {
        CellModel::Text(s) => !has_point(s),
        _ => true,
    }
}

/// What decomposing the earnings column does to a table: `currency` and
/// `amount` columns set from each row's earnings text; an error where the
/// column is missing or a value holds no amount.
pub open spec fn parse_earnings(t: TableModel) -> Result<TableModel, PipelineError> {
    match first_named(t, "earnings"@) {
        None => Err(PipelineError::Parse),
        Some(e) => if forall|i: int|
            0 <= i < t[e].cells.len() ==> #[trigger] cell_earnings(t[e].cells[i]) is Some {
            Ok(
                with_column(
                    with_column(t, "currency"@, currency_cells(t[e].cells)),
                    "amount"@,
                    amount_cells(t[e].cells),
                ),
            )
        } else {
            Err(PipelineError::Parse)
        },
    }
}

/// The amount that the text of an amount group stands for.
pub fn parse_amount(a: &str) -> (r: u64)
    ensures
        r == amount_value(a@),
{
    let chars = chars_of(a);
    let digits = strip_commas(&chars);
    match parse_fixed(&digits) {
        Some(v) => v,
        None => 0,
    }
}

/// The currency marker and the amount of one earnings text.
pub fn earnings_parts(s: &str) -> (r: Option<(String, u64)>)
    ensures
        match r {
            Some((c, v)) => split_earnings(s@) == Some((c@, v)),
            None => split_earnings(s@) is None,
        },
        holds_amount(s@) ==> r is Some,
        !has_point(s@) ==> r is None,
{
    match capture_earnings(s) {
        Some((c, a)) => {
            let v = parse_amount(a.as_str());
            Some((c, v))
        },
        None => None,
    }
}

/// Adds (or replaces) the `currency` and `amount` columns, taken row by row
/// from the earnings text; fails where the earnings column is missing or
/// one of its values holds no amount.
pub fn process_data(df: Table) -> (r: Result<Table, PipelineError>)
    ensures
        match r {
            Ok(t) => parse_earnings(df@) == Ok::<TableModel, PipelineError>(t@),
            Err(e) => parse_earnings(df@) == Err::<TableModel, PipelineError>(e),
        },
        df.wf() && r is Ok ==> r->Ok_0.wf(),
        first_named(df@, "earnings"@) is Some && (forall|i: int|
            0 <= i < df@[first_named(df@, "earnings"@)->Some_0].cells.len()
                ==> #[trigger] cell_holds_amount(df@[first_named(df@, "earnings"@)->Some_0].cells[i]))
            ==> r is Ok,
        first_named(df@, "earnings"@) is Some && (exists|i: int|
            0 <= i < df@[first_named(df@, "earnings"@)->Some_0].cells.len()
                && #[trigger] cell_lacks_amount(df@[first_named(df@, "earnings"@)->Some_0].cells[i]))
            ==> r == Err::<Table, PipelineError>(PipelineError::Parse),
{
    let e = match df.find("earnings") {
        Some(e) => e,
        None => return Err(PipelineError::Parse),
    };
    proof {
        lemma_first_named(df@, "earnings"@);
    }
    let ghost source = df@[e as int].cells;
    let n = df.columns[e].cells.len();
    let mut currencies: Vec<Cell> = Vec::new();
    let mut amounts: Vec<Cell> = Vec::new();
    let mut i: usize = 0;
    while i < n
        invariant
            e < df@.len(),
            first_named(df@, "earnings"@) == Some(e as int),
            source == df@[e as int].cells,
            n == source.len(),
            i <= n,
            currencies@.len() == i,
            amounts@.len() == i,
            forall|k: int| 0 <= k < i ==> #[trigger] cell_earnings(source[k]) is Some,
            forall|k: int| 0 <= k < i ==> !#[trigger] cell_lacks_amount(source[k]),
            forall|k: int| 0 <= k < i ==> #[trigger] currencies@[k]@ == currency_cells(source)[k],
            forall|k: int| 0 <= k < i ==> #[trigger] amounts@[k]@ == amount_cells(source)[k],
        decreases n - i,
    {
        assert(df.columns@[e as int].cells@[i as int]@ == source[i as int]);
        match &df.columns[e].cells[i] {
            Cell::Text(s) => {
                match earnings_parts(s.as_str()) {
                    Some((c, v)) => {
                        currencies.push(Cell::Text(c));
                        amounts.push(Cell::Number(v as u128));
                    },
                    None => {
                        assert(cell_earnings(source[i as int]) is None);
                        assert(!cell_holds_amount(source[i as int]));
                        return Err(PipelineError::Parse);
                    },
                }
            },
            _ => {
                assert(cell_earnings(source[i as int]) is None);
                assert(!cell_holds_amount(source[i as int]));
                return Err(PipelineError::Parse);
            },
        }
        i += 1;
    }
    let ghost before = df@;
    let mut out = df;
    let ghost cur = crate::table::cells_model(currencies@);
    let ghost amt = crate::table::cells_model(amounts@);
    assert(cur =~= currency_cells(source));
    assert(amt =~= amount_cells(source));
    out.set_column(String::from_str("currency"), currencies);
    proof {
        if rectangular(before) {
            lemma_with_column_rectangular(before, "currency"@, cur);
        }
    }
    let ghost middle = out@;
    out.set_column(String::from_str("amount"), amounts);
    proof {
        if rectangular(before) {
            lemma_with_column_rectangular(middle, "amount"@, amt);
        }
    }
    Ok(out)
}

proof fn lemma_names_differ()
    ensures
        "currency"@ != "earnings"@,
        "amount"@ != "earnings"@,
        "amount"@ != "currency"@,
{
    reveal_strlit("currency");
    reveal_strlit("earnings");
    reveal_strlit("amount");
    assert("currency"@[0] != "earnings"@[0]);
    assert("amount"@.len() != "earnings"@.len());
    assert("amount"@.len() != "currency"@.len());
}

/// Decomposing the earnings column a second time changes nothing: the
/// `currency` and `amount` columns (and every other) stay as the first
/// pass left them.
pub proof fn lemma_parse_earnings_idempotent(t: TableModel)
    requires
        parse_earnings(t) is Ok,
    ensures
        parse_earnings(parse_earnings(t)->Ok_0) == parse_earnings(t),
{
    lemma_names_differ();
    lemma_first_named(t, "earnings"@);
    let e = first_named(t, "earnings"@)->Some_0;
    let cur = currency_cells(t[e].cells);
    let amt = amount_cells(t[e].cells);
    let t1 = with_column(t, "currency"@, cur);
    let t2 = with_column(t1, "amount"@, amt);
    lemma_with_other_column(t, "currency"@, cur, "earnings"@);
    lemma_with_other_column(t1, "amount"@, amt, "earnings"@);
    assert(first_named(t2, "earnings"@) == Some(e));
    assert(t2[e] == t[e]);
    lemma_with_column_found(t, "currency"@, cur);
    lemma_with_other_column(t1, "amount"@, amt, "currency"@);
    lemma_with_present_column(t2, "currency"@, cur);
    lemma_with_column_found(t1, "amount"@, amt);
    lemma_with_present_column(t2, "amount"@, amt);
}

} // verus!
