use reservations::config::Config;
use reservations::earnings::{earnings_parts, parse_amount, process_data};
use reservations::error::PipelineError;
use reservations::extract::{decode_page, record_from_fields, Extraction, Page, RawRecord};
use reservations::join::{base_commission, compute_commission, join_references, left_join};
use reservations::number::parse_fixed;
use reservations::reservation::{get_dataframe, row_to_column_structure, Reservation};
use reservations::sheet::{delimited_rows, split_text, table_from_rows};
use reservations::summary::{get_summary, summarize};
use reservations::table::{Cell, Column, Table};

fn text(s: &str) -> Cell {
    Cell::Text(s.to_string())
}

fn column(name: &str, cells: Vec<Cell>) -> Column {
    Column { name: name.to_string(), cells }
}

fn cells_of<'a>(t: &'a Table, name: &str) -> &'a Vec<Cell> {
    &t.columns[t.find(name).expect("column")].cells
}

fn as_text(c: &Cell) -> &str {
    match c {
        Cell::Text(s) => s.as_str(),
        other => panic!("not text: {:?}", other),
    }
}

fn as_number(c: &Cell) -> u128 {
    match c {
        Cell::Number(n) => *n,
        other => panic!("not a number: {:?}", other),
    }
}

fn fixed(s: &str) -> Option<u64> {
    parse_fixed(&s.chars().collect())
}

fn booking(code: &str, listing: &str, earnings: &str) -> Reservation {
    Reservation {
        confirmation_code: code.to_string(),
        status: "Confirmed".to_string(),
        guest_user_full_name: "Ana".to_string(),
        guest_user_phone: String::new(),
        guest_details_number_of_adults: 2_000_000,
        guest_details_number_of_children: 0,
        guest_details_number_of_infants: 0,
        start_date: "2024-01-01".to_string(),
        end_date: "2024-01-03".to_string(),
        nights: 2_000_000,
        booked_date: "2023-12-01".to_string(),
        listing_name: listing.to_string(),
        earnings: earnings.to_string(),
    }
}

fn page_body(total: i64, pages: i64, codes: &[&str]) -> String {
    let mut records = Vec::new();
    for code in codes {
        records.push(format!(
            "{{\"confirmation_code\":\"{}\",\"user_facing_status_localized\":\"Confirmed\",\
             \"guest_user\":{{\"full_name\":\"Ana\"}},\
             \"guest_details\":{{\"number_of_adults\":2,\"number_of_children\":1,\"number_of_infants\":0}},\
             \"start_date\":\"2024-01-01\",\"end_date\":\"2024-01-03\",\"nights\":2.5,\
             \"booked_date\":\"2023-12-01\",\"listing_name\":\"Casa\",\"earnings\":\"$10.00\"}}",
            code
        ));
    }
    format!(
        "{{\"metadata\":{{\"total_count\":{},\"page_count\":{}}},\"reservations\":[{}]}}",
        total,
        pages,
        records.join(",")
    )
}

#[test]
fn fixed_point_text_forms() {
    assert_eq!(fixed("12"), Some(12_000_000));
    assert_eq!(fixed("12.5"), Some(12_500_000));
    assert_eq!(fixed(".5"), Some(500_000));
    assert_eq!(fixed("1."), Some(1_000_000));
    assert_eq!(fixed("0.1234567"), Some(123_456));
    assert_eq!(fixed("."), None);
    assert_eq!(fixed(""), None);
    assert_eq!(fixed("1.2.3"), None);
    assert_eq!(fixed("-1"), None);
    assert_eq!(fixed("18446744073709.551615"), Some(u64::MAX));
    assert_eq!(fixed("18446744073709.551616"), None);
    assert_eq!(fixed("99999999999999999999999"), None);
}

#[test]
fn earnings_split_with_commas() {
    let (currency, amount) = earnings_parts("S/1,234.50").expect("match");
    assert_eq!(currency, "S/");
    assert_eq!(amount, 1_234_500_000);
    let (currency, amount) = earnings_parts("$1,234.56").expect("match");
    assert_eq!(currency, "$");
    assert_eq!(amount, 1_234_560_000);
    let (currency, amount) = earnings_parts("99.90").expect("match");
    assert_eq!(currency, "");
    assert_eq!(amount, 99_900_000);
    assert_eq!(parse_amount("1,000.25"), 1_000_250_000);
}

#[test]
fn earnings_without_amount_is_parse_error() {
    assert!(earnings_parts("abc").is_none());
    assert!(earnings_parts("$100").is_none());
    let t = Table { columns: vec![column("earnings", vec![text("$5.00"), text("no amount")])] };
    assert_eq!(process_data(t).unwrap_err(), PipelineError::Parse);
    let missing = Table { columns: vec![column("listing_name", vec![text("A")])] };
    assert_eq!(process_data(missing).unwrap_err(), PipelineError::Parse);
}

#[test]
fn earnings_columns_are_stable_on_reapply() {
    let t = Table { columns: vec![column("earnings", vec![text("S/1,234.50"), text("$7.25")])] };
    let once = process_data(t).expect("first pass");
    assert_eq!(as_text(&cells_of(&once, "currency")[0]), "S/");
    assert_eq!(as_number(&cells_of(&once, "amount")[0]), 1_234_500_000);
    assert_eq!(as_text(&cells_of(&once, "currency")[1]), "$");
    assert_eq!(as_number(&cells_of(&once, "amount")[1]), 7_250_000);
    let columns_before = once.columns.len();
    let twice = process_data(once).expect("second pass");
    assert_eq!(twice.columns.len(), columns_before);
    assert_eq!(as_text(&cells_of(&twice, "currency")[0]), "S/");
    assert_eq!(as_number(&cells_of(&twice, "amount")[0]), 1_234_500_000);
    assert_eq!(as_number(&cells_of(&twice, "amount")[1]), 7_250_000);
}

#[test]
fn columns_round_trip_the_records() {
    let data = vec![booking("HM1", "A", "$1.00"), booking("HM2", "B", "$2.00")];
    let table = row_to_column_structure(data);
    assert_eq!(table.confirmation_code, vec!["HM1".to_string(), "HM2".to_string()]);
    assert_eq!(table.listing_name, vec!["A".to_string(), "B".to_string()]);
    assert_eq!(table.earnings, vec!["$1.00".to_string(), "$2.00".to_string()]);
    assert_eq!(table.nights, vec![2_000_000, 2_000_000]);
    assert_eq!(table.guest_user_phone, vec![String::new(), String::new()]);
}

#[test]
fn table_of_records_has_thirteen_columns() {
    let t = get_dataframe(vec![booking("HM1", "A", "$1.00")]);
    assert_eq!(t.columns.len(), 13);
    assert_eq!(t.columns[0].name, "confirmation_code");
    assert_eq!(t.columns[12].name, "earnings");
    assert_eq!(t.height(), 1);
    assert_eq!(as_text(&cells_of(&t, "listing_name")[0]), "A");
    assert_eq!(as_number(&cells_of(&t, "nights")[0]), 2_000_000);
}

#[test]
fn no_records_give_empty_thirteen_column_table() {
    let t = get_dataframe(Vec::new());
    assert_eq!(t.columns.len(), 13);
    assert_eq!(t.height(), 0);
    let mut ex = Extraction::new();
    let done = ex.step(200, "{\"metadata\":{\"total_count\":0,\"page_count\":0},\"reservations\":[]}");
    assert_eq!(done, Ok(true));
    assert_eq!(ex.total_count(), 0);
    assert!(ex.into_records().is_empty());
}

#[test]
fn extraction_takes_every_page_in_order() {
    let mut ex = Extraction::new();
    assert_eq!(ex.offset(), 0);
    assert_eq!(ex.step(200, &page_body(3, 2, &["A1", "A2"])), Ok(false));
    assert_eq!(ex.offset(), 40);
    assert_eq!(ex.page(), 2);
    assert_eq!(ex.total_pages(), 2);
    assert_eq!(ex.step(200, &page_body(99, 99, &["B1"])), Ok(true));
    assert!(ex.is_finished());
    assert_eq!(ex.total_count(), 3);
    let records = ex.into_records();
    let codes: Vec<&str> = records.iter().map(|r| r.confirmation_code.as_str()).collect();
    assert_eq!(codes, vec!["A1", "A2", "B1"]);
    assert_eq!(records[0].nights, 2_500_000);
    assert_eq!(records[0].guest_details_number_of_children, 1_000_000);
    assert_eq!(records[0].guest_user_phone, "");
}

#[test]
fn refused_status_ends_extraction() {
    let mut ex = Extraction::new();
    assert_eq!(ex.step(401, "{}"), Err(PipelineError::Auth));
    assert_eq!(ex.step(500, "{}"), Err(PipelineError::Network(500)));
    assert_eq!(ex.offset(), 0);
    assert_eq!(ex.step(202, &page_body(1, 1, &["C1"])), Ok(true));
}

#[test]
fn missing_count_is_schema_error() {
    let body = "{\"metadata\":{\"total_count\":1,\"page_count\":1},\"reservations\":[{\"confirmation_code\":\"X\"}]}";
    assert_eq!(decode_page(body).unwrap_err(), PipelineError::Schema);
    assert_eq!(decode_page("not json").unwrap_err(), PipelineError::Schema);
    let page: Page = decode_page("{\"metadata\":{\"total_count\":5,\"page_count\":2}}").expect("page");
    assert_eq!(page.total_count, Some(5));
    assert_eq!(page.page_count, Some(2));
    assert!(page.records.is_empty());
}

#[test]
fn raw_fields_follow_the_schema() {
    let raw = RawRecord {
        confirmation_code: Some("HM9".to_string()),
        status: None,
        guest_user_full_name: None,
        guest_user_phone: None,
        guest_details_number_of_adults: Some("3".to_string()),
        guest_details_number_of_children: Some("0".to_string()),
        guest_details_number_of_infants: Some("1".to_string()),
        start_date: None,
        end_date: None,
        nights: Some("1.5".to_string()),
        booked_date: None,
        listing_name: Some("Casa".to_string()),
        earnings: None,
    };
    let r = record_from_fields(raw).expect("record");
    assert_eq!(r.status, "");
    assert_eq!(r.guest_details_number_of_adults, 3_000_000);
    assert_eq!(r.nights, 1_500_000);
    let bad = RawRecord {
        confirmation_code: None,
        status: None,
        guest_user_full_name: None,
        guest_user_phone: None,
        guest_details_number_of_adults: Some("3".to_string()),
        guest_details_number_of_children: None,
        guest_details_number_of_infants: Some("1".to_string()),
        start_date: None,
        end_date: None,
        nights: Some("1".to_string()),
        booked_date: None,
        listing_name: None,
        earnings: None,
    };
    assert_eq!(record_from_fields(bad).unwrap_err(), PipelineError::Schema);
}

fn reference_tables() -> (Table, Table) {
    let owners = Table {
        columns: vec![
            column("ANUNCIO", vec![text("B")]),
            column("PROPIETARIO", vec![text("Olga")]),
            column("Comision", vec![text("0.1")]),
        ],
    };
    let zones = Table {
        columns: vec![column("PROPIETARIO", vec![text("Olga")]), column("ZONA", vec![text("Norte")])],
    };
    (owners, zones)
}

#[test]
fn commission_end_to_end() {
    let primary = Table {
        columns: vec![
            column("listing_name", vec![text("A"), text("B")]),
            column("amount", vec![Cell::Number(100_000_000), Cell::Number(50_000_000)]),
        ],
    };
    let (owners, zones) = reference_tables();
    let joined = join_references(&primary, &owners, &zones, 200_000).expect("join");
    let names: Vec<&str> = joined.columns.iter().map(|c| c.name.as_str()).collect();
    assert_eq!(names, vec!["listing_name", "amount", "PROPIETARIO", "Comision", "ZONA"]);
    assert_eq!(as_number(&cells_of(&joined, "Comision")[0]), 200_000);
    assert_eq!(as_number(&cells_of(&joined, "Comision")[1]), 100_000);
    let out = compute_commission(joined).expect("commission");
    let earned = cells_of(&out, "commission_earnings");
    assert_eq!(as_number(&earned[0]), 20_000_000);
    assert_eq!(as_number(&earned[1]), 5_000_000);
}

#[test]
fn unmatched_row_keeps_its_values() {
    let primary = Table {
        columns: vec![
            column("listing_name", vec![text("Z")]),
            column("amount", vec![Cell::Number(7_000_000)]),
        ],
    };
    let (owners, zones) = reference_tables();
    let joined = join_references(&primary, &owners, &zones, 150_000).expect("join");
    assert_eq!(joined.height(), 1);
    assert_eq!(as_text(&cells_of(&joined, "listing_name")[0]), "Z");
    assert_eq!(as_number(&cells_of(&joined, "amount")[0]), 7_000_000);
    assert!(matches!(cells_of(&joined, "ZONA")[0], Cell::Null));
    assert_eq!(as_number(&cells_of(&joined, "Comision")[0]), 150_000);
}

#[test]
fn left_join_fans_out_and_checks_keys() {
    let left = Table { columns: vec![column("k", vec![text("x"), text("y"), Cell::Null])] };
    let right = Table {
        columns: vec![
            column("key", vec![text("x"), text("x"), Cell::Null]),
            column("v", vec![text("1"), text("2"), text("3")]),
        ],
    };
    let out = left_join(&left, &right, "k", "key").expect("join");
    let ks: Vec<Cell> = out.columns[0].cells.iter().map(|c| c.duplicate()).collect();
    assert_eq!(ks.len(), 4);
    assert_eq!(as_text(&ks[0]), "x");
    assert_eq!(as_text(&ks[1]), "x");
    assert_eq!(as_text(&ks[2]), "y");
    assert!(matches!(ks[3], Cell::Null));
    assert_eq!(as_text(&out.columns[1].cells[0]), "1");
    assert_eq!(as_text(&out.columns[1].cells[1]), "2");
    assert!(matches!(out.columns[1].cells[2], Cell::Null));
    assert!(matches!(out.columns[1].cells[3], Cell::Null));
    assert_eq!(left_join(&left, &right, "nope", "key").unwrap_err(), PipelineError::Join);
    let clash = Table { columns: vec![column("key", vec![text("x")]), column("k", vec![text("q")])] };
    let renamed = left_join(&left, &clash, "k", "key").expect("join");
    let names: Vec<&str> = renamed.columns.iter().map(|c| c.name.as_str()).collect();
    assert_eq!(names, vec!["k", "k_right"]);
    assert_eq!(as_text(&renamed.columns[1].cells[0]), "q");
    assert!(matches!(renamed.columns[1].cells[1], Cell::Null));
}

#[test]
fn missing_columns_and_overflow() {
    let t = Table { columns: vec![column("amount", vec![Cell::Number(1)])] };
    assert_eq!(compute_commission(t).unwrap_err(), PipelineError::Schema);
    let big = Table {
        columns: vec![
            column("amount", vec![Cell::Number(u128::MAX)]),
            column("Comision", vec![Cell::Number(2)]),
        ],
    };
    assert_eq!(compute_commission(big).unwrap_err(), PipelineError::Overflow);
    let nulls = Table {
        columns: vec![column("amount", vec![Cell::Null]), column("Comision", vec![Cell::Number(2)])],
    };
    let out = compute_commission(nulls).expect("commission");
    assert!(matches!(cells_of(&out, "commission_earnings")[0], Cell::Null));
    let primary = Table { columns: vec![column("listing_name", vec![text("A")])] };
    let (owners, _) = reference_tables();
    let zones_without_key = Table { columns: vec![column("ZONA", vec![text("N")])] };
    assert_eq!(
        join_references(&primary, &owners, &zones_without_key, 0).unwrap_err(),
        PipelineError::Join
    );
}

#[test]
fn base_commission_from_first_cell() {
    let t = Table { columns: vec![column("base", vec![text("0.2")])] };
    assert_eq!(base_commission(&t), Ok(200_000));
    let n = Table { columns: vec![column("base", vec![Cell::Number(150_000)])] };
    assert_eq!(base_commission(&n), Ok(150_000));
    let bad = Table { columns: vec![column("base", vec![text("x")])] };
    assert_eq!(base_commission(&bad), Err(PipelineError::Schema));
    assert_eq!(base_commission(&Table::new()), Err(PipelineError::Schema));
}

#[test]
fn sheet_rows_become_text_columns() {
    let rows = vec![
        vec!["ANUNCIO".to_string(), "Comision".to_string()],
        vec!["A".to_string(), "0.1".to_string()],
        vec!["B".to_string()],
    ];
    let t = table_from_rows(&rows);
    assert_eq!(t.columns.len(), 2);
    assert_eq!(t.height(), 2);
    assert_eq!(as_text(&cells_of(&t, "Comision")[0]), "0.1");
    assert_eq!(as_text(&cells_of(&t, "Comision")[1]), "");
    assert_eq!(table_from_rows(&Vec::new()).columns.len(), 0);
}

#[test]
fn config_names_output_files() {
    let c = Config::new(
        "in.csv".to_string(),
        "base.xlsx".to_string(),
        "owners".to_string(),
        "zones".to_string(),
        "base".to_string(),
        "reservations".to_string(),
        "report".to_string(),
        "20240101120000".to_string(),
    );
    assert_eq!(c.extraction_file(), "reservations_20240101120000.xlsx");
    assert_eq!(c.report_file(), "report_20240101120000.xlsx");
}

fn summary_input() -> Table {
    Table {
        columns: vec![
            column("listing_name", vec![text("A"), text("B"), text("A"), text("C"), text("B")]),
            column("currency", vec![text("$"), text("$"), text("$"), text("$"), text("S/")]),
            column(
                "amount",
                vec![
                    Cell::Number(10_000_000),
                    Cell::Number(30_000_000),
                    Cell::Number(20_000_000),
                    Cell::Number(30_000_000),
                    Cell::Null,
                ],
            ),
        ],
    }
}

#[test]
fn summary_ranks_totals_and_keeps_ties_in_first_seen_order() {
    let out = get_summary(summary_input()).expect("summary");
    let names: Vec<&str> = out.columns.iter().map(|c| c.name.as_str()).collect();
    assert_eq!(names, vec!["listing_name", "currency", "total"]);
    let listings: Vec<&str> = out.columns[0].cells.iter().map(as_text).collect();
    let currencies: Vec<&str> = out.columns[1].cells.iter().map(as_text).collect();
    let totals: Vec<u128> = out.columns[2].cells.iter().map(as_number).collect();
    assert_eq!(listings, vec!["A", "B", "C", "B"]);
    assert_eq!(currencies, vec!["$", "$", "$", "S/"]);
    assert_eq!(totals, vec![30_000_000, 30_000_000, 30_000_000, 0]);
}

#[test]
fn summary_by_listing_alone() {
    let t = Table {
        columns: vec![
            column("listing_name", vec![text("A"), text("B"), text("A"), text("C")]),
            column(
                "amount",
                vec![Cell::Number(1_000_000), Cell::Number(5_000_000), Cell::Number(1_000_000), Cell::Number(2_000_000)],
            ),
        ],
    };
    let keys = vec!["listing_name".to_string()];
    let out = summarize(&t, &keys).expect("summary");
    let listings: Vec<&str> = out.columns[0].cells.iter().map(as_text).collect();
    let totals: Vec<u128> = out.columns[1].cells.iter().map(as_number).collect();
    assert_eq!(listings, vec!["B", "A", "C"]);
    assert_eq!(totals, vec![5_000_000, 2_000_000, 2_000_000]);
}

#[test]
fn summary_errors() {
    let keys = vec!["nope".to_string()];
    assert_eq!(summarize(&summary_input(), &keys).unwrap_err(), PipelineError::Schema);
    let text_amount = Table {
        columns: vec![column("listing_name", vec![text("A")]), column("amount", vec![text("1")])],
    };
    let keys = vec!["listing_name".to_string()];
    assert_eq!(summarize(&text_amount, &keys).unwrap_err(), PipelineError::Schema);
    let huge = Table {
        columns: vec![
            column("listing_name", vec![text("A"), text("A")]),
            column("amount", vec![Cell::Number(u128::MAX), Cell::Number(1)]),
        ],
    };
    assert_eq!(summarize(&huge, &keys).unwrap_err(), PipelineError::Overflow);
    let empty = Table {
        columns: vec![column("listing_name", Vec::new()), column("amount", Vec::new())],
    };
    let out = summarize(&empty, &keys).expect("summary");
    assert_eq!(out.columns.len(), 2);
    assert_eq!(out.height(), 0);
}

#[test]
fn delimited_text_becomes_rows() {
    let rows = delimited_rows("a,b\n1,2\n3\n", ',');
    let expected: Vec<Vec<String>> = vec![
        vec!["a".to_string(), "b".to_string()],
        vec!["1".to_string(), "2".to_string()],
        vec!["3".to_string()],
    ];
    assert_eq!(rows, expected);
    let t = table_from_rows(&rows);
    assert_eq!(t.height(), 2);
    assert_eq!(as_text(&cells_of(&t, "b")[1]), "");
    assert_eq!(split_text("x,,y", ','), vec!["x".to_string(), String::new(), "y".to_string()]);
    assert_eq!(split_text("", ','), vec![String::new()]);
}

#[test]
fn step_reads_the_body() {
    let mut ex = Extraction::new();
    assert_eq!(ex.step(200, "not json"), Err(PipelineError::Schema));
    assert_eq!(ex.offset(), 0);
    let bad_record = "{\"metadata\":{\"total_count\":1,\"page_count\":1},\"reservations\":[{\"nights\":1}]}";
    assert_eq!(ex.step(200, bad_record), Err(PipelineError::Schema));
    assert_eq!(ex.page(), 1);
    assert_eq!(ex.step(201, &page_body(2, 1, &["D1", "D2"])), Ok(true));
    assert_eq!(ex.total_count(), 2);
    assert_eq!(ex.into_records().len(), 2);
}

#[test]
fn metadata_counts_are_whole_numbers() {
    let page = decode_page("{\"metadata\":{\"total_count\":2.5,\"page_count\":-1}}").expect("page");
    assert_eq!(page.total_count, None);
    assert_eq!(page.page_count, None);
}

#[test]
fn earnings_with_amounts_always_parse() {
    let t = Table {
        columns: vec![column("earnings", vec![text("$0.10"), text("x 12.5 y"), text("S/1,000.00")])],
    };
    let out = process_data(t).expect("every value holds an amount");
    let amounts: Vec<u128> = cells_of(&out, "amount").iter().map(as_number).collect();
    assert_eq!(amounts, vec![100_000, 12_500_000, 1_000_000_000]);
    let currencies: Vec<&str> = cells_of(&out, "currency").iter().map(as_text).collect();
    assert_eq!(currencies, vec!["$", "x ", "S/"]);
    let nulls = Table { columns: vec![column("earnings", vec![Cell::Null])] };
    assert_eq!(process_data(nulls).unwrap_err(), PipelineError::Parse);
}
