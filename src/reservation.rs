//! Reservation records and their column-oriented form.
use vstd::prelude::*;
use crate::table::{Cell, CellModel, Column, ColumnModel, Table, TableModel, cells_model};

verus! {

/// One booking. Counts and nights are fixed-point numbers (see `number`).
#[derive(Debug)]
pub struct Reservation {
    pub confirmation_code: String,
    pub status: String,
    pub guest_user_full_name: String,
    pub guest_user_phone: String,
    pub guest_details_number_of_adults: u64,
    pub guest_details_number_of_children: u64,
    pub guest_details_number_of_infants: u64,
    pub start_date: String,
    pub end_date: String,
    pub nights: u64,
    pub booked_date: String,
    pub listing_name: String,
    pub earnings: String,
}

/// The values of a reservation's fields.
pub struct ReservationModel {
    pub confirmation_code: Seq<char>,
    pub status: Seq<char>,
    pub guest_user_full_name: Seq<char>,
    pub guest_user_phone: Seq<char>,
    pub guest_details_number_of_adults: int,
    pub guest_details_number_of_children: int,
    pub guest_details_number_of_infants: int,
    pub start_date: Seq<char>,
    pub end_date: Seq<char>,
    pub nights: int,
    pub booked_date: Seq<char>,
    pub listing_name: Seq<char>,
    pub earnings: Seq<char>,
}

impl View for Reservation {
    type V = ReservationModel;

    open spec fn view(&self) -> ReservationModel {
        ReservationModel {
            confirmation_code: self.confirmation_code@,
            status: self.status@,
            guest_user_full_name: self.guest_user_full_name@,
            guest_user_phone: self.guest_user_phone@,
            guest_details_number_of_adults: self.guest_details_number_of_adults as int,
            guest_details_number_of_children: self.guest_details_number_of_children as int,
            guest_details_number_of_infants: self.guest_details_number_of_infants as int,
            start_date: self.start_date@,
            end_date: self.end_date@,
            nights: self.nights as int,
            booked_date: self.booked_date@,
            listing_name: self.listing_name@,
            earnings: self.earnings@,
        }
    }
}

/// The same records, one vector per field.
#[derive(Debug)]
pub struct ReservationTable {
    pub confirmation_code: Vec<String>,
    pub status: Vec<String>,
    pub guest_user_full_name: Vec<String>,
    pub guest_user_phone: Vec<String>,
    pub guest_details_number_of_adults: Vec<u64>,
    pub guest_details_number_of_children: Vec<u64>,
    pub guest_details_number_of_infants: Vec<u64>,
    pub start_date: Vec<String>,
    pub end_date: Vec<String>,
    pub nights: Vec<u64>,
    pub booked_date: Vec<String>,
    pub listing_name: Vec<String>,
    pub earnings: Vec<String>,
}

impl ReservationTable {
    /// Every field vector holds, in order, that field of `data`.
    pub open spec fn holds(&self, data: Seq<Reservation>) -> bool {
        &&& self.confirmation_code@.len() == data.len()
        &&& self.status@.len() == data.len()
        &&& self.guest_user_full_name@.len() == data.len()
        &&& self.guest_user_phone@.len() == data.len()
        &&& self.guest_details_number_of_adults@.len() == data.len()
        &&& self.guest_details_number_of_children@.len() == data.len()
        &&& self.guest_details_number_of_infants@.len() == data.len()
        &&& self.start_date@.len() == data.len()
        &&& self.end_date@.len() == data.len()
        &&& self.nights@.len() == data.len()
        &&& self.booked_date@.len() == data.len()
        &&& self.listing_name@.len() == data.len()
        &&& self.earnings@.len() == data.len()
        &&& forall|i: int| 0 <= i < data.len() ==> #[trigger] self.row(i) == data[i]@
    }

    /// Row `i`, read back from the field vectors.
    pub open spec fn row(&self, i: int) -> ReservationModel {
        ReservationModel {
            confirmation_code: self.confirmation_code@[i]@,
            status: self.status@[i]@,
            guest_user_full_name: self.guest_user_full_name@[i]@,
            guest_user_phone: self.guest_user_phone@[i]@,
            guest_details_number_of_adults: self.guest_details_number_of_adults@[i] as int,
            guest_details_number_of_children: self.guest_details_number_of_children@[i] as int,
            guest_details_number_of_infants: self.guest_details_number_of_infants@[i] as int,
            start_date: self.start_date@[i]@,
            end_date: self.end_date@[i]@,
            nights: self.nights@[i] as int,
            booked_date: self.booked_date@[i]@,
            listing_name: self.listing_name@[i]@,
            earnings: self.earnings@[i]@,
        }
    }

    /// A table without rows.
    pub fn new() -> (r: ReservationTable)
        ensures
            r.holds(Seq::empty()),
    {
        ReservationTable {
            confirmation_code: Vec::new(),
            status: Vec::new(),
            guest_user_full_name: Vec::new(),
            guest_user_phone: Vec::new(),
            guest_details_number_of_adults: Vec::new(),
            guest_details_number_of_children: Vec::new(),
            guest_details_number_of_infants: Vec::new(),
            start_date: Vec::new(),
            end_date: Vec::new(),
            nights: Vec::new(),
            booked_date: Vec::new(),
            listing_name: Vec::new(),
            earnings: Vec::new(),
        }
    }
}

/// Spreads the records over one vector per field, keeping their order.
pub fn row_to_column_structure(data: Vec<Reservation>) -> (table: ReservationTable)
    ensures
        table.holds(data@),
{
    let mut table = ReservationTable::new();
    let mut i: usize = 0;
    while i < data.len()
        invariant
            i <= data.len(),
            table.holds(data@.take(i as int)),
        decreases data.len() - i,
    {
        let record = &data[i];
        let ghost before = table;
        table.confirmation_code.push(record.confirmation_code.clone());
        table.status.push(record.status.clone());
        table.guest_user_full_name.push(record.guest_user_full_name.clone());
        table.guest_user_phone.push(record.guest_user_phone.clone());
        table.guest_details_number_of_adults.push(record.guest_details_number_of_adults);
        table.guest_details_number_of_children.push(record.guest_details_number_of_children);
        table.guest_details_number_of_infants.push(record.guest_details_number_of_infants);
        table.start_date.push(record.start_date.clone());
        table.end_date.push(record.end_date.clone());
        table.nights.push(record.nights);
        table.booked_date.push(record.booked_date.clone());
        table.listing_name.push(record.listing_name.clone());
        table.earnings.push(record.earnings.clone());
        proof {
            let prefix = data@.take(i + 1);
            assert forall|j: int| 0 <= j < prefix.len() implies #[trigger] table.row(j) == prefix[j]@ by {
                if j < i {
                    assert(data@.take(i as int)[j] == prefix[j]);
                    assert(before.row(j) == data@.take(i as int)[j]@);
                    assert(table.row(j) == before.row(j));
                } else {
                    assert(table.row(j) == data@[j]@);
                }
            }
        }
        i += 1;
    }
    assert(data@.take(data.len() as int) =~= data@);
    table
}

pub open spec fn text_cells(v: Seq<String>) -> Seq<CellModel> {
    Seq::new(v.len(), |i: int| CellModel::Text(v[i]@))
}

pub open spec fn number_cells(v: Seq<u64>) -> Seq<CellModel> {
    Seq::new(v.len(), |i: int| CellModel::Number(v[i] as u128))
}

fn text_column(name: &str, values: Vec<String>) -> (r: Column)
    ensures
        r@ == (ColumnModel { name: name@, cells: text_cells(values@) }),
{
    let mut cells: Vec<Cell> = Vec::new();
    let mut i: usize = 0;
    while i < values.len()
        invariant
            i <= values.len(),
            cells@.len() == i,
            forall|k: int| 0 <= k < i ==> #[trigger] cells@[k]@ == CellModel::Text(values@[k]@),
        decreases values.len() - i,
    {
        cells.push(Cell::Text(values[i].clone()));
        i += 1;
    }
    assert(cells_model(cells@) =~= text_cells(values@));
    Column { name: String::from_str(name), cells }
}

fn number_column(name: &str, values: Vec<u64>) -> (r: Column)
    ensures
        r@ == (ColumnModel { name: name@, cells: number_cells(values@) }),
{
    let mut cells: Vec<Cell> = Vec::new();
    let mut i: usize = 0;
    while i < values.len()
        invariant
            i <= values.len(),
            cells@.len() == i,
            forall|k: int| 0 <= k < i ==> #[trigger] cells@[k]@ == CellModel::Number(values@[k] as u128),
        decreases values.len() - i,
    {
        cells.push(Cell::Number(values[i] as u128));
        i += 1;
    }
    assert(cells_model(cells@) =~= number_cells(values@));
    Column { name: String::from_str(name), cells }
}

/// The thirteen columns, in field order, that a reservation table becomes.
pub open spec fn reservation_columns(t: ReservationTable) -> TableModel {
    seq![
        ColumnModel { name: "confirmation_code"@, cells: text_cells(t.confirmation_code@) },
        ColumnModel { name: "status"@, cells: text_cells(t.status@) },
        ColumnModel { name: "guest_user_full_name"@, cells: text_cells(t.guest_user_full_name@) },
        ColumnModel { name: "guest_user_phone"@, cells: text_cells(t.guest_user_phone@) },
        ColumnModel {
            name: "guest_details_number_of_adults"@,
            cells: number_cells(t.guest_details_number_of_adults@),
        },
        ColumnModel {
            name: "guest_details_number_of_children"@,
            cells: number_cells(t.guest_details_number_of_children@),
        },
        ColumnModel {
            name: "guest_details_number_of_infants"@,
            cells: number_cells(t.guest_details_number_of_infants@),
        },
        ColumnModel { name: "start_date"@, cells: text_cells(t.start_date@) },
        ColumnModel { name: "end_date"@, cells: text_cells(t.end_date@) },
        ColumnModel { name: "nights"@, cells: number_cells(t.nights@) },
        ColumnModel { name: "booked_date"@, cells: text_cells(t.booked_date@) },
        ColumnModel { name: "listing_name"@, cells: text_cells(t.listing_name@) },
        ColumnModel { name: "earnings"@, cells: text_cells(t.earnings@) },
    ]
}

/// Turns each field vector into a named column.
pub fn column_to_series_structure(table: ReservationTable) -> (r: Vec<Column>)
    ensures
        r@.map_values(|c: Column| c@) == reservation_columns(table),
{
    let ghost t = table;
    let mut r: Vec<Column> = Vec::new();
    r.push(text_column("confirmation_code", table.confirmation_code));
    r.push(text_column("status", table.status));
    r.push(text_column("guest_user_full_name", table.guest_user_full_name));
    r.push(text_column("guest_user_phone", table.guest_user_phone));
    r.push(number_column("guest_details_number_of_adults", table.guest_details_number_of_adults));
    r.push(number_column("guest_details_number_of_children", table.guest_details_number_of_children));
    r.push(number_column("guest_details_number_of_infants", table.guest_details_number_of_infants));
    r.push(text_column("start_date", table.start_date));
    r.push(text_column("end_date", table.end_date));
    r.push(number_column("nights", table.nights));
    r.push(text_column("booked_date", table.booked_date));
    r.push(text_column("listing_name", table.listing_name));
    r.push(text_column("earnings", table.earnings));
    assert(r@.map_values(|c: Column| c@) =~= reservation_columns(t));
    r
}

/// The table of the records: the thirteen fields as columns, in field
/// order, one row per record in input order.
pub open spec fn records_table(data: Seq<Reservation>) -> TableModel {
    seq![
        ColumnModel { name: "confirmation_code"@, cells: Seq::new(data.len(), |i: int| CellModel::Text(data[i].confirmation_code@)) },
        ColumnModel { name: "status"@, cells: Seq::new(data.len(), |i: int| CellModel::Text(data[i].status@)) },
        ColumnModel { name: "guest_user_full_name"@, cells: Seq::new(data.len(), |i: int| CellModel::Text(data[i].guest_user_full_name@)) },
        ColumnModel { name: "guest_user_phone"@, cells: Seq::new(data.len(), |i: int| CellModel::Text(data[i].guest_user_phone@)) },
        ColumnModel {
            name: "guest_details_number_of_adults"@,
            cells: Seq::new(data.len(), |i: int| CellModel::Number(data[i].guest_details_number_of_adults as u128)),
        },
        ColumnModel {
            name: "guest_details_number_of_children"@,
            cells: Seq::new(data.len(), |i: int| CellModel::Number(data[i].guest_details_number_of_children as u128)),
        },
        ColumnModel {
            name: "guest_details_number_of_infants"@,
            cells: Seq::new(data.len(), |i: int| CellModel::Number(data[i].guest_details_number_of_infants as u128)),
        },
        ColumnModel { name: "start_date"@, cells: Seq::new(data.len(), |i: int| CellModel::Text(data[i].start_date@)) },
        ColumnModel { name: "end_date"@, cells: Seq::new(data.len(), |i: int| CellModel::Text(data[i].end_date@)) },
        ColumnModel { name: "nights"@, cells: Seq::new(data.len(), |i: int| CellModel::Number(data[i].nights as u128)) },
        ColumnModel { name: "booked_date"@, cells: Seq::new(data.len(), |i: int| CellModel::Text(data[i].booked_date@)) },
        ColumnModel { name: "listing_name"@, cells: Seq::new(data.len(), |i: int| CellModel::Text(data[i].listing_name@)) },
        ColumnModel { name: "earnings"@, cells: Seq::new(data.len(), |i: int| CellModel::Text(data[i].earnings@)) },
    ]
}

/// The table of the records (see `records_table`); no records give the
/// thirteen columns with no rows.
pub fn get_dataframe(data: Vec<Reservation>) -> (r: Table)
    ensures
        r@ == records_table(data@),
        r.wf(),
{
    let ghost d = data@;
    let table = row_to_column_structure(data);
    let columns = column_to_series_structure(table);
    let r = Table { columns };
    assert(r@ =~= records_table(d)) by {
        assert(r@ == reservation_columns(table));
        assert forall|k: int| 0 <= k < 13 implies r@[k] =~= #[trigger] records_table(d)[k] by {
            assert(r@[k].cells =~= records_table(d)[k].cells) by {
                assert forall|i: int| 0 <= i < d.len() implies #[trigger] r@[k].cells[i] == records_table(d)[k].cells[i] by {
                    assert(table.row(i) == d[i]@);
                }
            }
        }
    }
    r
}

/// Reads row `i` of a table back as a record's fields, where the thirteen
/// columns come first in field order and hold text and numbers as the
/// fields do.
pub open spec fn row_fields(t: TableModel, i: int) -> Option<ReservationModel> {
    if t.len() >= 13 && forall|k: int| 0 <= k < 13 ==> 0 <= i < #[trigger] t[k].cells.len() {
        match (t[0].cells[i], t[1].cells[i], t[2].cells[i], t[3].cells[i], t[4].cells[i], t[5].cells[i], t[6].cells[i]) {
            (CellModel::Text(a), CellModel::Text(b), CellModel::Text(c), CellModel::Text(d), CellModel::Number(e), CellModel::Number(f), CellModel::Number(g)) =>
                match (t[7].cells[i], t[8].cells[i], t[9].cells[i], t[10].cells[i], t[11].cells[i], t[12].cells[i]) {
                    (CellModel::Text(h), CellModel::Text(j), CellModel::Number(k), CellModel::Text(l), CellModel::Text(m), CellModel::Text(n)) =>
                        Some(ReservationModel {
                            confirmation_code: a,
                            status: b,
                            guest_user_full_name: c,
                            guest_user_phone: d,
                            guest_details_number_of_adults: e as int,
                            guest_details_number_of_children: f as int,
                            guest_details_number_of_infants: g as int,
                            start_date: h,
                            end_date: j,
                            nights: k as int,
                            booked_date: l,
                            listing_name: m,
                            earnings: n,
                        }),
                    _ => None,
                },
            _ => None,
        }
    } else {
        None
    }
}

/// Building the table of some records and reading each row back gives
/// every record's thirteen fields unchanged, and the table has one row per
/// record.
pub proof fn lemma_build_round_trip(data: Seq<Reservation>)
    ensures
        crate::table::height(records_table(data)) == data.len(),
        crate::table::rectangular(records_table(data)),
        forall|i: int| 0 <= i < data.len() ==> #[trigger] row_fields(records_table(data), i) == Some(data[i]@),
{
    let t = records_table(data);
    assert forall|i: int| 0 <= i < data.len() implies #[trigger] row_fields(records_table(data), i) == Some(data[i]@) by {
        assert forall|k: int| 0 <= k < 13 implies 0 <= i < #[trigger] t[k].cells.len() by {}
    }
}

} // verus!
