//! Output rows as headerless CSV: `record_id,cluster_id` per line.
use vstd::prelude::*;
use crate::dto::RecordResult;
use crate::error::{ise, ServiceError, Status};
use crate::pipeline::rows_view;

verus! {

/// What a `csv::Writer` writes for one record of two fields; `None` where it
/// fails.
pub uninterp spec fn csv_line(first: Seq<char>, second: Seq<char>) -> Option<Seq<u8>>;

/// Relies on `csv::Writer` over a byte vector: the bytes of one record of two
/// fields, with its terminator; the error's message where writing fails.
#[verifier::external_body]
fn csv_record(first: &str, second: &str) -> (r: Result<Vec<u8>, String>)
    ensures
        match r {
            Ok(b) => csv_line(first@, second@) == Some(b@),
            Err(_) => csv_line(first@, second@) is None,
        },
{
    let mut writer = csv::Writer::from_writer(vec![]);
    writer.write_record([first, second]).map_err(|e| e.to_string())?;
    writer.into_inner().map_err(|e| e.to_string())
}

/// The lines of the rows, one after another; `None` where one fails.
pub open spec fn csv_text(rows: Seq<(Seq<char>, Seq<char>)>) -> Option<Seq<u8>>
    decreases rows.len(),
{
    if rows.len() == 0 {
        Some(Seq::empty())
    } else {
        match (csv_text(rows.drop_last()), csv_line(rows.last().0, rows.last().1)) {
            (Some(front), Some(line)) => Some(front + line),
            _ => None,
        }
    }
}

/// The rows as headerless CSV; an internal server error where writing fails.
pub fn encode_rows(rows: &Vec<RecordResult>) -> (r: Result<Vec<u8>, ServiceError>)
    ensures
        match r {
            Ok(b) => csv_text(rows_view(rows@)) == Some(b@),
            Err(e) => csv_text(rows_view(rows@)) is None && e.status == Status::InternalServerError,
        },
{
    let ghost v = rows_view(rows@);
    let mut out: Vec<u8> = Vec::new();
    let mut i: usize = 0;
    while i < rows.len()
        invariant
            v == rows_view(rows@),
            i <= rows.len(),
            csv_text(v.take(i as int)) == Some(out@),
        decreases rows.len() - i,
    {
        assert(v.take(i as int + 1).drop_last() =~= v.take(i as int));
        assert(v.take(i as int + 1).last() == v[i as int]);
        match csv_record(rows[i].id.as_str(), rows[i].cluster_id.as_str()) {
            Ok(mut line) => {
                out.append(&mut line);
            },
            Err(msg) => {
                proof {
                    lemma_csv_text_fails(v, i as int + 1);
                }
                return Err(ise(msg.as_str()));
            },
        }
        i = i + 1;
    }
    assert(v.take(i as int) =~= v);
    Ok(out)
}

/// Once a prefix fails, the whole text fails.
proof fn lemma_csv_text_fails(v: Seq<(Seq<char>, Seq<char>)>, k: int)
    requires
        0 <= k <= v.len(),
        csv_text(v.take(k)) is None,
    ensures
        csv_text(v) is None,
    decreases v.len() - k,
{
    if k < v.len() {
        assert(v.take(k + 1).drop_last() =~= v.take(k));
        lemma_csv_text_fails(v, k + 1);
    } else {
        assert(v.take(k) =~= v);
    }
}

} // verus!
