//! Reading a training table from delimited text.

use crate::dataset::{dataset_of, fault, tables, DataError, InputData};
use vstd::prelude::*;

verus! {

/// The error type of the `csv` crate, carried from the parser to the place
/// where it is turned into a `DataError`.
#[verifier::external_type_specification]
#[verifier::external_body]
pub struct ExCsvError(csv::Error);

/// What the `csv` reader finds in `text` when it is told that there is no
/// header row: the records that it yields before its first error, and
/// whether an error ended the reading.
pub uninterp spec fn csv_records(text: Seq<u8>) -> (Seq<Seq<Seq<char>>>, bool);

/// Runs `csv::ReaderBuilder::new().has_headers(false).from_reader(text)` and
/// collects what `Reader::records` yields, up to the first error. Trusted:
/// the outcome is a function of the bytes alone, which `csv_records` names.
#[verifier::external_body]
fn read_records(text: &[u8]) -> (r: (Vec<Vec<String>>, Option<csv::Error>))
    ensures
        csv_records(text@) == (tables(r.0@), r.1 is Some),
{
    let mut reader = csv::ReaderBuilder::new().has_headers(false).from_reader(text);
    let mut records: Vec<Vec<String>> = Vec::new();
    for record in reader.records() {
        match record {
            Ok(fields) => records.push(fields.iter().map(String::from).collect()),
            Err(error) => return (records, Some(error)),
        }
    }
    (records, None)
}

/// The text that `csv::Error` shows for itself (its `Display`). Trusted;
/// nothing is claimed of the message.
#[verifier::external_body]
fn describe(error: &csv::Error) -> (message: String) {
    error.to_string()
}

impl InputData {
    /// Parses `text` as comma-separated records and builds the table they
    /// spell: the first record is the header and column `result_position`
    /// holds the label. A label position outside the header is reported
    /// first, then an error of the parser, then what `from_records` rejects.
    pub fn from_csv(text: &[u8], result_position: usize) -> (r: Result<InputData, DataError>)
        ensures
            ({
                let (records, failed) = csv_records(text@);
                if records.len() > 0 && result_position >= records[0].len() {
                    r matches Err(e) && e is LabelOutOfRange
                } else if failed {
                    r matches Err(e) && e is Parse
                } else {
                    match r {
                        Ok(data) => {
                            &&& fault(records, result_position as int) is None
                            &&& data@ == dataset_of(records, result_position as int)
                            &&& data@.well_formed()
                        },
                        Err(e) => fault(records, result_position as int) == Some(e),
                    }
                }
            }),
    {
        let (records, error) = read_records(text);
        if records.len() > 0 && result_position >= records[0].len() {
            return Err(DataError::LabelOutOfRange);
        }
        match error {
            Some(error) => Err(DataError::Parse { message: describe(&error) }),
            None => InputData::from_records(&records, result_position),
        }
    }
}

} // verus!
