//! The settings of a run, built once at start-up and passed to each step.
use vstd::prelude::*;

verus! {

/// File and sheet names of a run, and the time stamp of its output files.
#[derive(Debug)]
pub struct Config {
    pub example_csv: String,
    pub base_xlsx: String,
    pub first_sheet: String,
    pub second_sheet: String,
    pub third_sheet: String,
    pub output_file_prefix_1: String,
    pub output_file_prefix_2: String,
    pub datetime_suffix: String,
}

/// `prefix_suffix.xlsx`.
pub open spec fn stamped_name(prefix: Seq<char>, suffix: Seq<char>) -> Seq<char> {
    prefix + "_"@ + suffix + ".xlsx"@
}

impl Config {
    pub fn new(
        example_csv: String,
        base_xlsx: String,
        first_sheet: String,
        second_sheet: String,
        third_sheet: String,
        output_file_prefix_1: String,
        output_file_prefix_2: String,
        datetime_suffix: String,
    ) -> (r: Config)
        ensures
            r.example_csv == example_csv,
            r.base_xlsx == base_xlsx,
            r.first_sheet == first_sheet,
            r.second_sheet == second_sheet,
            r.third_sheet == third_sheet,
            r.output_file_prefix_1 == output_file_prefix_1,
            r.output_file_prefix_2 == output_file_prefix_2,
            r.datetime_suffix == datetime_suffix,
    {
        Config {
            example_csv,
            base_xlsx,
            first_sheet,
            second_sheet,
            third_sheet,
            output_file_prefix_1,
            output_file_prefix_2,
            datetime_suffix,
        }
    }

    /// The file that the extracted records are written to.
    pub fn extraction_file(&self) -> (r: String)
        ensures
            r@ == stamped_name(self.output_file_prefix_1@, self.datetime_suffix@),
    {
        self.output_file_prefix_1.clone().concat("_").concat(self.datetime_suffix.as_str()).concat(".xlsx")
    }

    /// The file that the report is written to.
    pub fn report_file(&self) -> (r: String)
        ensures
            r@ == stamped_name(self.output_file_prefix_2@, self.datetime_suffix@),
    {
        self.output_file_prefix_2.clone().concat("_").concat(self.datetime_suffix.as_str()).concat(".xlsx")
    }
}

} // verus!
