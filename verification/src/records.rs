//! Comma-separated text, read into records of fields.

use vstd::prelude::*;
use crate::text::{decimal, decimal_string, texts_view};

verus! {

/// One record: its fields, and the line on which it began.
#[derive(Debug)]
pub struct Record {
    pub line: Option<u64>,
    pub fields: Vec<String>,
}

pub struct RecordView {
    pub line: Option<u64>,
    pub fields: Seq<Seq<char>>,
}

impl View for Record {
    type V = RecordView;

    open spec fn view(&self) -> RecordView {
        RecordView { line: self.line, fields: texts_view(self.fields@) }
    }
}

/// Why reading stopped before the end of the text.
#[derive(Debug)]
pub struct Fault {
    pub line: Option<u64>,
    pub message: String,
}

pub struct FaultView {
    pub line: Option<u64>,
    pub message: Seq<char>,
}

impl View for Fault {
    type V = FaultView;

    open spec fn view(&self) -> FaultView {
        FaultView { line: self.line, message: self.message@ }
    }
}

/// What was read of a text: the records up to the first that could not be
/// read, and what was wrong with that one.
#[derive(Debug)]
pub struct Table {
    pub rows: Vec<Record>,
    pub fault: Option<Fault>,
}

pub struct TableView {
    pub rows: Seq<RecordView>,
    pub fault: Option<FaultView>,
}

impl View for Table {
    type V = TableView;

    open spec fn view(&self) -> TableView {
        TableView {
            rows: self.rows@.map_values(|r: Record| r@),
            fault: match self.fault {
                Some(f) => Some(f@),
                None => None,
            },
        }
    }
}

/// What the `csv` crate reads of `text`, with `#` for the comment character
/// and every field trimmed: see `read_csv`.
pub uninterp spec fn csv_table(text: Seq<char>, flexible: bool, has_headers: bool) -> TableView;

/// Reads `text` with a `csv::Reader` built by `csv::ReaderBuilder` (comment
/// character `#`, `csv::Trim::All`, `flexible` and `has_headers` as given), and
/// takes from `Reader::records` each record with the line of its position,
/// up to the first error, of which the position's line and the words are
/// kept. The contract names the result after the three arguments.
#[verifier::external_body]
pub(crate) fn read_csv(text: &str, flexible: bool, has_headers: bool) -> (r: Table)
    ensures
        r@ == csv_table(text@, flexible, has_headers),
{
    let mut rdr = csv::ReaderBuilder::new().comment(Some(b'#')).trim(csv::Trim::All)
        .flexible(flexible).has_headers(has_headers).from_reader(text.as_bytes());
    let mut rows = Vec::new();
    for res in rdr.records() {
        let fault = match res {
            Ok(rec) => { rows.push(Record { line: rec.position().map(|p| p.line()), fields: rec.iter().map(String::from).collect() }); continue },
            Err(e) => Fault { line: e.position().map(|p| p.line()), message: e.to_string() },
        };
        return Table { rows, fault: Some(fault) };
    }
    Table { rows, fault: None }
}

/// The words in which an error in a record is reported: by the line where the
/// line is known, by the record's place in the text where it is not.
pub open spec fn located(line: Option<u64>, index: nat, message: Seq<char>) -> Seq<char> {
    match line {
        Some(l) => "Error on line "@ + decimal(l as nat) + ": "@ + message,
        None => "Error in CSV record "@ + decimal(index) + ": "@ + message,
    }
}

/// Reports an error in a record.
pub fn locate(line: Option<u64>, index: usize, message: &str) -> (r: String)
    ensures
        r@ == located(line, index as nat, message@),
{
    let mut s = match line {
        Some(l) => {
            let mut s = String::from_str("Error on line ");
            s.append(decimal_string(l).as_str());
            s
        },
        None => {
            let mut s = String::from_str("Error in CSV record ");
            s.append(decimal_string(index as u64).as_str());
            s
        },
    };
    s.append(": ");
    s.append(message);
    s
}

impl Record {
    /// The field at place `i`, if the record has that many.
    pub fn get(&self, i: usize) -> (r: Option<&str>)
        ensures
            match r {
                Some(s) => i < self.fields@.len() && s@ == self.fields@[i as int]@,
                None => i >= self.fields@.len(),
            },
    {
        if i < self.fields.len() {
            Some(self.fields[i].as_str())
        } else {
            None
        }
    }
}

} // verus!
