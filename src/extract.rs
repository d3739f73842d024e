//! Page-by-page extraction of reservations from the listing service.
//!
//! The service is reached from outside the library: the caller asks
//! `Extraction::offset` which page to request, fetches it, and hands the
//! status and the body to `Extraction::step`, until `step` says the last
//! page was taken.
use vstd::prelude::*;
use crate::error::PipelineError;
use crate::json::{Json, json_of, member_of, parse_json, member};
use crate::number::{fixed_value, count_value, chars_of, parse_fixed, parse_count};
use crate::reservation::{Reservation, ReservationModel};

verus! {

/// Records asked for per page.
pub const PAGE_SIZE: u64 = 40;

/// The largest page count that a response may announce.
pub const MAX_PAGES: u64 = 400_000_000_000_000_000;

/// One page as the service returns it: the totals of its metadata (read on
/// the first page) and its records, in order.
#[derive(Debug)]
pub struct Page {
    pub total_count: Option<u64>,
    pub page_count: Option<u64>,
    pub records: Vec<Reservation>,
}

pub struct PageModel {
    pub total_count: Option<u64>,
    pub page_count: Option<u64>,
    pub records: Seq<ReservationModel>,
}

impl View for Page {
    type V = PageModel;

    open spec fn view(&self) -> PageModel {
        PageModel {
            total_count: self.total_count,
            page_count: self.page_count,
            records: records_model(self.records@),
        }
    }
}

/// Where an extraction stands.
pub struct Progress {
    /// The offset of the next page to request.
    pub offset: int,
    /// The number (from 1) of the next page.
    pub page: int,
    pub total_pages: int,
    pub total_count: int,
    /// The records taken so far, in page order.
    pub records: Seq<ReservationModel>,
    pub finished: bool,
}

pub open spec fn start() -> Progress {
    Progress { offset: 0, page: 1, total_pages: 0, total_count: 0, records: seq![], finished: false }
}

/// A count announced in the metadata; a missing one is zero.
pub open spec fn announced(v: Option<u64>) -> int {
    match v {
        Some(n) => n as int,
        None => 0,
    }
}

/// The values of a sequence of records.
pub open spec fn records_model(v: Seq<Reservation>) -> Seq<ReservationModel> {
    v.map_values(|r: Reservation| r@)
}

/// The totals are learned from the first page.
pub open spec fn learned_pages(s: Progress, p: PageModel) -> int {
    if s.page == 1 {
        announced(p.page_count)
    } else {
        s.total_pages
    }
}

/// Taking a successful page: its records are appended; the page whose
/// number reaches the page count is the last one.
pub open spec fn advance(s: Progress, p: PageModel) -> Progress {
    let total_pages = learned_pages(s, p);
    let total_count = if s.page == 1 {
        announced(p.total_count)
    } else {
        s.total_count
    };
    let records = s.records + p.records;
    if s.page >= total_pages {
        Progress { total_pages, total_count, records, finished: true, ..s }
    } else {
        Progress {
            offset: s.offset + PAGE_SIZE,
            page: s.page + 1,
            total_pages,
            total_count,
            records,
            finished: false,
        }
    }
}

/// Taking the pages in order, up to the one that finishes the extraction.
pub open spec fn feed(s: Progress, pages: Seq<PageModel>) -> Progress
    decreases pages.len(),
{
    if pages.len() == 0 || s.finished {
        s
    } else {
        feed(advance(s, pages[0]), pages.skip(1))
    }
}

/// All records of the pages, in page order.
pub open spec fn all_records(pages: Seq<PageModel>) -> Seq<ReservationModel>
    decreases pages.len(),
{
    if pages.len() == 0 {
        seq![]
    } else {
        all_records(pages.drop_last()) + pages.last().records
    }
}

/// The status of a response that carries a page.
pub open spec fn accepted(status: u16) -> bool {
    status == 200 || status == 201 || status == 202
}

/// The error that a refused response gives.
pub open spec fn refusal(status: u16) -> PipelineError {
    if status == 401 {
        PipelineError::Auth
    } else {
        PipelineError::Network(status)
    }
}

/// The state of one extraction.
pub struct Extraction {
    pub offset: u64,
    pub page: u64,
    pub total_pages: u64,
    pub total_count: u64,
    pub records: Vec<Reservation>,
    pub finished: bool,
}

impl View for Extraction {
    type V = Progress;

    open spec fn view(&self) -> Progress {
        Progress {
            offset: self.offset as int,
            page: self.page as int,
            total_pages: self.total_pages as int,
            total_count: self.total_count as int,
            records: records_model(self.records@),
            finished: self.finished,
        }
    }
}

impl Extraction {
    /// Offsets and page numbers stay within their bounds.
    pub open spec fn wf(&self) -> bool {
        &&& 1 <= self.page
        &&& self.offset == PAGE_SIZE * (self.page - 1)
        &&& self.page <= MAX_PAGES
        &&& self.page > 1 ==> self.page <= self.total_pages
        &&& self.total_pages <= MAX_PAGES
    }

    /// An extraction that has taken no page.
    pub fn new() -> (r: Extraction)
        ensures
            r@ == start(),
            r.wf(),
    {
        let r = Extraction {
            offset: 0,
            page: 1,
            total_pages: 0,
            total_count: 0,
            records: Vec::new(),
            finished: false,
        };
        assert(r@.records =~= seq![]);
        r
    }

    /// The offset to request the next page at.
    pub fn offset(&self) -> (r: u64)
        ensures
            r == self@.offset,
    {
        self.offset
    }

    /// The number (from 1) of the next page.
    pub fn page(&self) -> (r: u64)
        ensures
            r == self@.page,
    {
        self.page
    }

    /// The record count that the first page announced.
    pub fn total_count(&self) -> (r: u64)
        ensures
            r == self@.total_count,
    {
        self.total_count
    }

    /// The page count that the first page announced.
    pub fn total_pages(&self) -> (r: u64)
        ensures
            r == self@.total_pages,
    {
        self.total_pages
    }

    /// The last page was taken.
    pub fn is_finished(&self) -> (r: bool)
        ensures
            r == self@.finished,
    {
        self.finished
    }

    /// Takes the response to the page requested at `offset()`. A refused
    /// status ends the extraction with an error and nothing else changes;
    /// a first page announcing more than `MAX_PAGES` pages is a schema
    /// error. Otherwise the page is taken (see `advance`), and the result
    /// says whether it was the last.
    pub fn take_page(&mut self, status: u16, page: Page) -> (r: Result<bool, PipelineError>)
        requires
            old(self).wf(),
            !old(self)@.finished,
        ensures
            !accepted(status) ==> r == Err::<bool, PipelineError>(refusal(status))
                && final(self)@ == old(self)@,
            accepted(status) && learned_pages(old(self)@, page@) > MAX_PAGES ==> r
                == Err::<bool, PipelineError>(PipelineError::Schema) && final(self)@ == old(self)@,
            accepted(status) && learned_pages(old(self)@, page@) <= MAX_PAGES ==> r == Ok::<
                bool,
                PipelineError,
            >(final(self)@.finished) && final(self)@ == advance(old(self)@, page@),
            final(self).wf(),
    {
        if !(status == 200 || status == 201 || status == 202) {
            if status == 401 {
                return Err(PipelineError::Auth);
            }
            return Err(PipelineError::Network(status));
        }
        if self.page == 1 {
            let pages = match page.page_count {
                Some(n) => n,
                None => 0,
            };
            if pages > MAX_PAGES {
                return Err(PipelineError::Schema);
            }
            self.total_pages = pages;
            self.total_count = match page.total_count {
                Some(n) => n,
                None => 0,
            };
        }
        let ghost before = self.records@;
        let mut records = page.records;
        self.records.append(&mut records);
        assert(records_model(self.records@) =~= records_model(before) + page@.records);
        if self.page >= self.total_pages {
            self.finished = true;
        } else {
            self.page = self.page + 1;
            self.offset = self.offset + PAGE_SIZE;
        }
        Ok(self.finished)
    }

    /// Takes the response to the page requested at `offset()`, its body
    /// still as text: the body is read as `page_of` says; a body that is no
    /// page is a schema error and changes nothing; otherwise as `take_page`.
    pub fn step(&mut self, status: u16, body: &str) -> (r: Result<bool, PipelineError>)
        requires
            old(self).wf(),
            !old(self)@.finished,
        ensures
            !accepted(status) ==> r == Err::<bool, PipelineError>(refusal(status))
                && final(self)@ == old(self)@,
            accepted(status) && page_of(json_of(body@)) is Err ==> r == Err::<bool, PipelineError>(
                PipelineError::Schema,
            ) && final(self)@ == old(self)@,
            accepted(status) && page_of(json_of(body@)) is Ok && learned_pages(
                old(self)@,
                page_of(json_of(body@))->Ok_0,
            ) > MAX_PAGES ==> r == Err::<bool, PipelineError>(PipelineError::Schema) && final(self)@
                == old(self)@,
            accepted(status) && page_of(json_of(body@)) is Ok && learned_pages(
                old(self)@,
                page_of(json_of(body@))->Ok_0,
            ) <= MAX_PAGES ==> r == Ok::<bool, PipelineError>(final(self)@.finished) && final(self)@
                == advance(old(self)@, page_of(json_of(body@))->Ok_0),
            final(self).wf(),
    {
        if !(status == 200 || status == 201 || status == 202) {
            if status == 401 {
                return Err(PipelineError::Auth);
            }
            return Err(PipelineError::Network(status));
        }
        match decode_page(body) {
            Ok(page) => self.take_page(status, page),
            Err(e) => Err(e),
        }
    }

    /// The records taken, in page order.
    pub fn into_records(self) -> (r: Vec<Reservation>)
        ensures
            records_model(r@) == self@.records,
    {
        self.records
    }
}

/// The fields of one record as the service gives them: text fields and the
/// text of numeric fields, each where present.
#[derive(Debug)]
pub struct RawRecord {
    pub confirmation_code: Option<String>,
    pub status: Option<String>,
    pub guest_user_full_name: Option<String>,
    pub guest_user_phone: Option<String>,
    pub guest_details_number_of_adults: Option<String>,
    pub guest_details_number_of_children: Option<String>,
    pub guest_details_number_of_infants: Option<String>,
    pub start_date: Option<String>,
    pub end_date: Option<String>,
    pub nights: Option<String>,
    pub booked_date: Option<String>,
    pub listing_name: Option<String>,
    pub earnings: Option<String>,
}

/// A missing text field reads as empty.
pub open spec fn text_or_empty(v: Option<String>) -> Seq<char> {
    match v {
        Some(s) => s@,
        None => seq![],
    }
}

/// A numeric field: its number, where it is present and is one.
pub open spec fn required_number(v: Option<String>) -> Option<u64> {
    match v {
        Some(s) => fixed_value(s@),
        None => None,
    }
}

/// Every numeric field of the record is present and a number.
pub open spec fn numbers_present(raw: RawRecord) -> bool {
    &&& required_number(raw.guest_details_number_of_adults) is Some
    &&& required_number(raw.guest_details_number_of_children) is Some
    &&& required_number(raw.guest_details_number_of_infants) is Some
    &&& required_number(raw.nights) is Some
}

/// The record that the fields give.
pub open spec fn record_of(raw: RawRecord) -> ReservationModel {
    ReservationModel {
        confirmation_code: text_or_empty(raw.confirmation_code),
        status: text_or_empty(raw.status),
        guest_user_full_name: text_or_empty(raw.guest_user_full_name),
        guest_user_phone: text_or_empty(raw.guest_user_phone),
        guest_details_number_of_adults: required_number(raw.guest_details_number_of_adults)->Some_0 as int,
        guest_details_number_of_children: required_number(raw.guest_details_number_of_children)->Some_0 as int,
        guest_details_number_of_infants: required_number(raw.guest_details_number_of_infants)->Some_0 as int,
        start_date: text_or_empty(raw.start_date),
        end_date: text_or_empty(raw.end_date),
        nights: required_number(raw.nights)->Some_0 as int,
        booked_date: text_or_empty(raw.booked_date),
        listing_name: text_or_empty(raw.listing_name),
        earnings: text_or_empty(raw.earnings),
    }
}

fn text_field(v: Option<String>) -> (r: String)
    ensures
        r@ == text_or_empty(v),
{
    match v {
        Some(s) => s,
        None => String::new(),
    }
}

fn number_field(v: &Option<String>) -> (r: Result<u64, PipelineError>)
    ensures
        match r {
            Ok(n) => required_number(*v) == Some(n),
            Err(e) => required_number(*v) is None && e == PipelineError::Schema,
        },
{
    match v {
        Some(s) => {
            let chars = chars_of(s.as_str());
            match parse_fixed(&chars) {
                Some(n) => Ok(n),
                None => Err(PipelineError::Schema),
            }
        },
        None => Err(PipelineError::Schema),
    }
}

/// Applies the schema: missing text fields read as empty, and a missing or
/// malformed count or night number is a schema error.
pub fn record_from_fields(raw: RawRecord) -> (r: Result<Reservation, PipelineError>)
    ensures
        numbers_present(raw) ==> (r matches Ok(rec) && rec@ == record_of(raw)),
        !numbers_present(raw) ==> r == Err::<Reservation, PipelineError>(PipelineError::Schema),
{
    let ghost given = raw;
    let adults = number_field(&raw.guest_details_number_of_adults);
    let children = number_field(&raw.guest_details_number_of_children);
    let infants = number_field(&raw.guest_details_number_of_infants);
    let nights = number_field(&raw.nights);
    match (adults, children, infants, nights) {
        (Ok(a), Ok(c), Ok(i), Ok(n)) => Ok(
            Reservation {
                confirmation_code: text_field(raw.confirmation_code),
                status: text_field(raw.status),
                guest_user_full_name: text_field(raw.guest_user_full_name),
                guest_user_phone: text_field(raw.guest_user_phone),
                guest_details_number_of_adults: a,
                guest_details_number_of_children: c,
                guest_details_number_of_infants: i,
                start_date: text_field(raw.start_date),
                end_date: text_field(raw.end_date),
                nights: n,
                booked_date: text_field(raw.booked_date),
                listing_name: text_field(raw.listing_name),
                earnings: text_field(raw.earnings),
            },
        ),
        _ => Err(PipelineError::Schema),
    }
}

/// The text member `key` of `v`.
pub open spec fn text_member(v: Json, key: Seq<char>) -> Option<String> {
    match member_of(v, key) {
        Some(Json::Text(t)) => Some(t),
        _ => None,
    }
}

/// The text of the number member `key` of `v`.
pub open spec fn number_member(v: Json, key: Seq<char>) -> Option<String> {
    match member_of(v, key) {
        Some(Json::Number(t)) => Some(t),
        _ => None,
    }
}

pub open spec fn nested_text_member(v: Json, outer: Seq<char>, key: Seq<char>) -> Option<String> {
    match member_of(v, outer) {
        Some(x) => text_member(x, key),
        None => None,
    }
}

pub open spec fn nested_number_member(v: Json, outer: Seq<char>, key: Seq<char>) -> Option<String> {
    match member_of(v, outer) {
        Some(x) => number_member(x, key),
        None => None,
    }
}

/// The fields that a record of the service's JSON gives.
pub open spec fn raw_of(v: Json) -> RawRecord {
    RawRecord {
        confirmation_code: text_member(v, "confirmation_code"@),
        status: text_member(v, "user_facing_status_localized"@),
        guest_user_full_name: nested_text_member(v, "guest_user"@, "full_name"@),
        guest_user_phone: nested_text_member(v, "guest_user"@, "phone"@),
        guest_details_number_of_adults: nested_number_member(v, "guest_details"@, "number_of_adults"@),
        guest_details_number_of_children: nested_number_member(v, "guest_details"@, "number_of_children"@),
        guest_details_number_of_infants: nested_number_member(v, "guest_details"@, "number_of_infants"@),
        start_date: text_member(v, "start_date"@),
        end_date: text_member(v, "end_date"@),
        nights: number_member(v, "nights"@),
        booked_date: text_member(v, "booked_date"@),
        listing_name: text_member(v, "listing_name"@),
        earnings: text_member(v, "earnings"@),
    }
}

/// A count of the metadata: a whole number written as digits.
pub open spec fn metadata_count(doc: Json, key: Seq<char>) -> Option<u64> {
    match member_of(doc, "metadata"@) {
        Some(meta) => match number_member(meta, key) {
            Some(t) => count_value(t@),
            None => None,
        },
        None => None,
    }
}

/// The record list of a page; none where the document has none.
pub open spec fn page_items(doc: Json) -> Seq<Json> {
    match member_of(doc, "reservations"@) {
        Some(Json::Array(items)) => items@,
        _ => seq![],
    }
}

/// The page that a document holds: the counts of its metadata and its
/// records in order. No document, or a record that breaks the schema
/// (see `record_from_fields`), is a schema error.
pub open spec fn page_of(doc: Option<Json>) -> Result<PageModel, PipelineError> {
    match doc {
        None => Err(PipelineError::Schema),
        Some(d) => {
            let items = page_items(d);
            if forall|i: int| 0 <= i < items.len() ==> numbers_present(#[trigger] raw_of(items[i])) {
                Ok(
                    PageModel {
                        total_count: metadata_count(d, "total_count"@),
                        page_count: metadata_count(d, "page_count"@),
                        records: Seq::new(items.len(), |i: int| record_of(raw_of(items[i]))),
                    },
                )
            } else {
                Err(PipelineError::Schema)
            }
        },
    }
}

fn text_at(v: &Json, key: &str) -> (r: Option<String>)
    ensures
        r == text_member(*v, key@),
{
    match member(v, key) {
        Some(x) => match x {
            Json::Text(t) => Some(t.clone()),
            _ => None,
        },
        None => None,
    }
}

fn number_at(v: &Json, key: &str) -> (r: Option<String>)
    ensures
        r == number_member(*v, key@),
{
    match member(v, key) {
        Some(x) => match x {
            Json::Number(t) => Some(t.clone()),
            _ => None,
        },
        None => None,
    }
}

fn nested_text(v: &Json, outer: &str, key: &str) -> (r: Option<String>)
    ensures
        r == nested_text_member(*v, outer@, key@),
{
    match member(v, outer) {
        Some(x) => text_at(x, key),
        None => None,
    }
}

fn nested_number(v: &Json, outer: &str, key: &str) -> (r: Option<String>)
    ensures
        r == nested_number_member(*v, outer@, key@),
{
    match member(v, outer) {
        Some(x) => number_at(x, key),
        None => None,
    }
}

/// The fields of one record of the service's JSON.
fn raw_record(v: &Json) -> (r: RawRecord)
    ensures
        r == raw_of(*v),
{
    RawRecord {
        confirmation_code: text_at(v, "confirmation_code"),
        status: text_at(v, "user_facing_status_localized"),
        guest_user_full_name: nested_text(v, "guest_user", "full_name"),
        guest_user_phone: nested_text(v, "guest_user", "phone"),
        guest_details_number_of_adults: nested_number(v, "guest_details", "number_of_adults"),
        guest_details_number_of_children: nested_number(v, "guest_details", "number_of_children"),
        guest_details_number_of_infants: nested_number(v, "guest_details", "number_of_infants"),
        start_date: text_at(v, "start_date"),
        end_date: text_at(v, "end_date"),
        nights: number_at(v, "nights"),
        booked_date: text_at(v, "booked_date"),
        listing_name: text_at(v, "listing_name"),
        earnings: text_at(v, "earnings"),
    }
}

fn count_at(doc: &Json, key: &str) -> (r: Option<u64>)
    ensures
        r == metadata_count(*doc, key@),
{
    match member(doc, "metadata") {
        Some(meta) => match number_at(meta, key) {
            Some(t) => {
                let chars = chars_of(t.as_str());
                parse_count(&chars)
            },
            None => None,
        },
        None => None,
    }
}

/// Reads a page from the body of a response (see `page_of`).
pub fn decode_page(body: &str) -> (r: Result<Page, PipelineError>)
    ensures
        match r {
            Ok(p) => page_of(json_of(body@)) == Ok::<PageModel, PipelineError>(p@),
            Err(e) => page_of(json_of(body@)) == Err::<PageModel, PipelineError>(e),
        },
{
    let doc = match parse_json(body) {
        Some(doc) => doc,
        None => return Err(PipelineError::Schema),
    };
    let total_count = count_at(&doc, "total_count");
    let page_count = count_at(&doc, "page_count");
    let ghost items = page_items(doc);
    let mut records: Vec<Reservation> = Vec::new();
    match member(&doc, "reservations") {
        Some(list) => match list {
            Json::Array(entries) => {
                assert(items == entries@);
                let mut i: usize = 0;
                while i < entries.len()
                    invariant
                        items == entries@,
                        items == page_items(doc),
                        json_of(body@) == Some(doc),
                        i <= entries@.len(),
                        records@.len() == i,
                        forall|k: int| 0 <= k < i ==> numbers_present(#[trigger] raw_of(items[k])),
                        forall|k: int| 0 <= k < i ==> #[trigger] records@[k]@ == record_of(raw_of(items[k])),
                    decreases entries.len() - i,
                {
                    let raw = raw_record(&entries[i]);
                    match record_from_fields(raw) {
                        Ok(rec) => records.push(rec),
                        Err(_) => {
                            assert(!numbers_present(raw_of(items[i as int])));
                            return Err(PipelineError::Schema);
                        },
                    }
                    i += 1;
                }
            },
            _ => {
                assert(items.len() == 0);
            },
        },
        None => {
            assert(items.len() == 0);
        },
    }
    let page = Page { total_count, page_count, records };
    assert(page@.records =~= Seq::new(items.len(), |i: int| record_of(raw_of(items[i]))));
    Ok(page)
}

/// Feeding pages to an extraction appends their records in page order.
proof fn lemma_feed_appends(s: Progress, pages: Seq<PageModel>, k: int)
    requires
        0 <= k <= pages.len(),
        forall|j: int| 0 <= j < k ==> !#[trigger] feed(s, pages.take(j)).finished,
    ensures
        feed(s, pages.take(k)).records == s.records + all_records(pages.take(k)),
        k > 0 ==> feed(s, pages.take(k)) == advance(feed(s, pages.take(k - 1)), pages[k - 1]),
    decreases k,
{
    if k > 0 {
        lemma_feed_appends(s, pages, k - 1);
        assert(pages.take(k).drop_last() =~= pages.take(k - 1));
        assert(!feed(s, pages.take(k - 1)).finished);
        lemma_feed_last(s, pages.take(k));
        assert(all_records(pages.take(k)) == all_records(pages.take(k - 1)) + pages[k - 1].records);
        assert(s.records + all_records(pages.take(k - 1)) + pages[k - 1].records =~= s.records
            + all_records(pages.take(k)));
    } else {
        assert(pages.take(0) =~= seq![]);
    }
}

/// Feeding one more page, where the extraction had not finished, takes it.
proof fn lemma_feed_last(s: Progress, pages: Seq<PageModel>)
    requires
        pages.len() > 0,
        !feed(s, pages.drop_last()).finished,
    ensures
        feed(s, pages) == advance(feed(s, pages.drop_last()), pages.last()),
    decreases pages.len(),
{
    if pages.len() == 1 {
        let empty = Seq::<PageModel>::empty();
        assert(pages.drop_last() =~= empty);
        assert(pages.skip(1) =~= empty);
        assert(feed(s, pages.drop_last()) == s);
        assert(feed(s, pages) == feed(advance(s, pages[0]), pages.skip(1)));
        assert(feed(advance(s, pages[0]), empty) == advance(s, pages[0]));
        assert(pages.last() == pages[0]);
    } else {
        let rest = pages.skip(1);
        let front = pages.drop_last();
        assert(front[0] == pages[0]);
        assert(rest.drop_last() =~= front.skip(1));
        if s.finished {
            assert(feed(s, front) == s);
        }
        assert(feed(s, front) == feed(advance(s, pages[0]), front.skip(1)));
        assert(feed(s, pages) == feed(advance(s, pages[0]), rest));
        lemma_feed_last(advance(s, pages[0]), rest);
        assert(feed(advance(s, pages[0]), rest.drop_last()) == feed(s, front));
        assert(rest.last() == pages.last());
    }
}

/// With every page accepted and the first announcing `n` pages, an
/// extraction takes exactly `n` pages: it is unfinished before the last,
/// requests them at offsets 0, 40, 80, ..., and ends holding every record
/// of every page, in page order, records within a page in their order.
pub proof fn lemma_extraction_takes_all_pages(pages: Seq<PageModel>)
    requires
        pages.len() >= 1,
        pages[0].page_count == Some(pages.len() as u64),
        pages.len() <= MAX_PAGES,
    ensures
        feed(start(), pages).finished,
        feed(start(), pages).records == all_records(pages),
        feed(start(), pages).total_count == announced(pages[0].total_count),
        announced(pages[0].total_count) == all_records(pages).len() ==> feed(start(), pages).records.len()
            == feed(start(), pages).total_count,
        forall|k: int| 0 <= k < pages.len() ==> !#[trigger] feed(start(), pages.take(k)).finished
            && feed(start(), pages.take(k)).offset == PAGE_SIZE * k
            && feed(start(), pages.take(k)).page == k + 1,
{
    let n = pages.len() as int;
    assert forall|k: int| 0 <= k < n implies !#[trigger] feed(start(), pages.take(k)).finished
        && feed(start(), pages.take(k)).offset == PAGE_SIZE * k && feed(start(), pages.take(k)).page
        == k + 1 && (k > 0 ==> feed(start(), pages.take(k)).total_pages == n) by {
        lemma_unfinished_prefix(pages, k);
    }
    lemma_feed_appends(start(), pages, n);
    assert(pages.take(n) =~= pages);
    assert(start().records + all_records(pages) =~= all_records(pages));
    lemma_unfinished_prefix(pages, n - 1);
    assert(pages.take(n - 1).len() == n - 1);
    if n == 1 {
        assert(pages.take(0) =~= seq![]);
    }
}

/// The pages that response bodies hold, where each holds one.
pub open spec fn pages_of(bodies: Seq<Seq<char>>) -> Seq<PageModel> {
    Seq::new(bodies.len(), |k: int| page_of(json_of(bodies[k]))->Ok_0)
}

/// The same, for the bodies of accepted responses as `step` reads them:
/// with every body a page and the first announcing as many pages as there
/// are bodies, the extraction ends after the last body, holding every
/// record of every body in order, and the announced total.
pub proof fn lemma_extraction_reads_all_bodies(bodies: Seq<Seq<char>>)
    requires
        bodies.len() >= 1,
        bodies.len() <= MAX_PAGES,
        forall|k: int| 0 <= k < bodies.len() ==> #[trigger] page_of(json_of(bodies[k])) is Ok,
        page_of(json_of(bodies[0]))->Ok_0.page_count == Some(bodies.len() as u64),
    ensures
        feed(start(), pages_of(bodies)).finished,
        feed(start(), pages_of(bodies)).records == all_records(pages_of(bodies)),
        feed(start(), pages_of(bodies)).total_count == announced(
            page_of(json_of(bodies[0]))->Ok_0.total_count,
        ),
        forall|k: int| 0 <= k < bodies.len() ==> !#[trigger] feed(start(), pages_of(bodies).take(k)).finished
            && feed(start(), pages_of(bodies).take(k)).offset == PAGE_SIZE * k,
{
    let pages = pages_of(bodies);
    lemma_extraction_takes_all_pages(pages);
    assert forall|k: int| 0 <= k < bodies.len() implies !#[trigger] feed(start(), pages_of(bodies).take(k)).finished
        && feed(start(), pages_of(bodies).take(k)).offset == PAGE_SIZE * k by {
        assert(!feed(start(), pages.take(k)).finished);
    }
}

proof fn lemma_unfinished_prefix(pages: Seq<PageModel>, k: int)
    requires
        pages.len() >= 1,
        pages[0].page_count == Some(pages.len() as u64),
        pages.len() <= MAX_PAGES,
        0 <= k < pages.len(),
    ensures
        !feed(start(), pages.take(k)).finished,
        feed(start(), pages.take(k)).offset == PAGE_SIZE * k,
        feed(start(), pages.take(k)).page == k + 1,
        k > 0 ==> feed(start(), pages.take(k)).total_pages == pages.len(),
        k > 0 ==> feed(start(), pages.take(k)).total_count == announced(pages[0].total_count),
    decreases k,
{
    if k == 0 {
        assert(pages.take(0) =~= seq![]);
    } else {
        lemma_unfinished_prefix(pages, k - 1);
        assert(pages.take(k).drop_last() =~= pages.take(k - 1));
        lemma_feed_last(start(), pages.take(k));
        assert(pages.take(k).last() == pages[k - 1]);
    }
}

} // verus!
