//! Input records from CSV bytes: a header row naming the columns `id` and
//! `text`, then one record per row.
use vstd::prelude::*;
use crate::dto::Record;
use crate::error::{ServiceError, Status};
use crate::text::same_text;

verus! {

/// What the `csv` reader yields for the bytes, each record as its fields;
/// `None` where the reader rejects them.
pub uninterp spec fn csv_rows(bytes: Seq<u8>) -> Option<Seq<Seq<Seq<char>>>>;

/// Relies on `csv::ReaderBuilder` with header handling switched off: every
/// record of the input in order, each as its fields; an error message where
/// the reader rejects the input (framing error, invalid UTF-8).
#[verifier::external_body]
fn read_csv_rows(bytes: &[u8]) -> (r: Result<Vec<Vec<String>>, String>)
    ensures
        match r {
            Ok(rows) => csv_rows(bytes@) == Some(fields_view(rows@)),
            Err(_) => csv_rows(bytes@) is None,
        },
{
    let mut reader = csv::ReaderBuilder::new().has_headers(false).from_reader(bytes);
    reader
        .records()
        .map(|rec| rec.map(|r| r.iter().map(String::from).collect()).map_err(|e| e.to_string()))
        .collect()
}

/// The first position at or after `from` at which `name` stands in `header`.
pub open spec fn column_from(header: Seq<Seq<char>>, name: Seq<char>, from: int) -> Option<int>
    decreases header.len() - from,
{
    if from < 0 || from >= header.len() {
        None
    } else if header[from] == name {
        Some(from)
    } else {
        column_from(header, name, from + 1)
    }
}

/// Rows as sequences of fields.
pub open spec fn fields_view(rows: Seq<Vec<String>>) -> Seq<Seq<Seq<char>>> {
    rows.map_values(|row: Vec<String>| row@.map_values(|f: String| f@))
}

/// The records are the data rows' `id` and `text` fields, in order.
pub open spec fn records_match(records: Seq<Record>, v: Seq<Seq<Seq<char>>>) -> bool {
    let ic = column_from(v[0], "id"@, 0)->Some_0;
    let tc = column_from(v[0], "text"@, 0)->Some_0;
    &&& records.len() == v.len() - 1
    &&& forall|i: int| 0 <= i < records.len() ==> (#[trigger] records[i]).id@ == v[i + 1][ic]
        && records[i].text@ == v[i + 1][tc]
}

/// The rows carry a header with both columns, and every data row reaches them.
pub open spec fn rows_usable(rows: Seq<Seq<Seq<char>>>) -> bool {
    &&& rows.len() > 0
    &&& column_from(rows[0], "id"@, 0) is Some
    &&& column_from(rows[0], "text"@, 0) is Some
    &&& forall|i: int| 1 <= i < rows.len() ==> (#[trigger] rows[i]).len() > column_from(rows[0], "id"@, 0)->Some_0
        && rows[i].len() > column_from(rows[0], "text"@, 0)->Some_0
}

fn find_column(header: &Vec<String>, name: &str) -> (r: Option<usize>)
    ensures
        match r {
            Some(k) => column_from(header@.map_values(|f: String| f@), name@, 0) == Some(k as int),
            None => column_from(header@.map_values(|f: String| f@), name@, 0) is None,
        },
{
    let ghost h = header@.map_values(|f: String| f@);
    let mut k: usize = 0;
    while k < header.len()
        invariant
            h == header@.map_values(|f: String| f@),
            k <= header.len(),
            column_from(h, name@, 0) == column_from(h, name@, k as int),
        decreases header.len() - k,
    {
        assert(h[k as int] == header@[k as int]@);
        if same_text(header[k].as_str(), name) {
            return Some(k);
        }
        k = k + 1;
    }
    None
}

/// The records of the rows: the first row names the columns, and each later
/// row gives a record from its `id` and `text` fields. Rows without such a
/// header, or too short to reach those columns, are a bad request.
pub fn records_from_rows(rows: &Vec<Vec<String>>) -> (r: Result<Vec<Record>, ServiceError>)
    ensures
        r is Ok <==> rows_usable(fields_view(rows@)),
        match r {
            Ok(records) => records_match(records@, fields_view(rows@)),
            Err(e) => e.status == Status::BadRequest && e.msg@ == "file must contain columns 'id' and 'text'"@,
        },
{
    let ghost v = fields_view(rows@);
    if rows.len() == 0 {
        return Err(ServiceError::bad_request("file must contain columns 'id' and 'text'"));
    }
    assert(v[0] == rows@[0]@.map_values(|f: String| f@));
    let id_col = match find_column(&rows[0], "id") {
        Some(k) => k,
        None => {
            return Err(ServiceError::bad_request("file must contain columns 'id' and 'text'"));
        },
    };
    let text_col = match find_column(&rows[0], "text") {
        Some(k) => k,
        None => {
            return Err(ServiceError::bad_request("file must contain columns 'id' and 'text'"));
        },
    };
    let mut records: Vec<Record> = Vec::new();
    let mut i: usize = 1;
    while i < rows.len()
        invariant
            v == fields_view(rows@),
            rows.len() > 0,
            column_from(v[0], "id"@, 0) == Some(id_col as int),
            column_from(v[0], "text"@, 0) == Some(text_col as int),
            1 <= i <= rows.len(),
            records.len() == i - 1,
            forall|k: int| 1 <= k < i ==> (#[trigger] v[k]).len() > id_col && v[k].len() > text_col,
            forall|k: int| 0 <= k < records.len() ==> (#[trigger] records@[k]).id@ == v[k + 1][id_col as int]
                && records@[k].text@ == v[k + 1][text_col as int],
        decreases rows.len() - i,
    {
        let row = &rows[i];
        assert(v[i as int] == row@.map_values(|f: String| f@));
        if row.len() <= id_col || row.len() <= text_col {
            return Err(ServiceError::bad_request("file must contain columns 'id' and 'text'"));
        }
        let record = Record { id: row[id_col].clone(), text: row[text_col].clone() };
        records.push(record);
        i = i + 1;
    }
    Ok(records)
}

/// Reads the records of a CSV file. Bytes that the reader rejects are an
/// internal server error; a missing header or column is a bad request.
pub fn parse_records(bytes: &[u8]) -> (r: Result<Vec<Record>, ServiceError>)
    ensures
        r is Ok <==> (csv_rows(bytes@) matches Some(v) && rows_usable(v)),
        match r {
            Ok(records) => csv_rows(bytes@) matches Some(v) && records_match(records@, v),
            Err(e) => {
                &&& (e.status == Status::InternalServerError <==> csv_rows(bytes@) is None)
                &&& (e.status == Status::BadRequest <==> csv_rows(bytes@) is Some)
                &&& csv_rows(bytes@) is Some ==> e.msg@ == "file must contain columns 'id' and 'text'"@
            },
        },
{
    match read_csv_rows(bytes) {
        Ok(rows) => records_from_rows(&rows),
        Err(msg) => Err(ServiceError::internal_server_error(msg.as_str())),
    }
}

} // verus!
