//! Rendering the JSON columns of the rows of an event.

use vstd::prelude::*;
use crate::column::{ColumnValue, ColumnValueView};
use crate::error::BinlogError;
use crate::event::{EventData, EventDataView};
use crate::json::{json_of, JsonBinary, JsonText};
use crate::rows::{RowEvent};

verus! {

/// The JSON documents among the values of `row` from column `i` on,
/// appended to `acc`.
pub open spec fn documents_in_row(row: Seq<ColumnValueView>, i: int, acc: Seq<Seq<u8>>) -> Seq<
    Seq<u8>,
>
    decreases row.len() - i,
{
    if i < 0 || i >= row.len() {
        acc
    } else {
        documents_in_row(
            row,
            i + 1,
            match row[i] {
                ColumnValueView::Json(document) => acc.push(document),
                _ => acc,
            },
        )
    }
}

/// The JSON documents in the rows from `i` on, appended to `acc`.
pub open spec fn documents_in_rows(
    rows: Seq<Seq<ColumnValueView>>,
    i: int,
    acc: Seq<Seq<u8>>,
) -> Seq<
    Seq<u8>,
>
    decreases rows.len() - i,
{
    if i < 0 || i >= rows.len() {
        acc
    } else {
        documents_in_rows(rows, i + 1, documents_in_row(rows[i], 0, acc))
    }
}

/// The JSON documents in the pairs of rows from `i` on, appended to `acc`:
/// of each pair first those of the row before the update, then those of
/// the row after it.
pub open spec fn documents_in_pairs(
    pairs: Seq<(Seq<ColumnValueView>, Seq<ColumnValueView>)>,
    i: int,
    acc: Seq<Seq<u8>>,
) -> Seq<Seq<u8>>
    decreases pairs.len() - i,
{
    if i < 0 || i >= pairs.len() {
        acc
    } else {
        documents_in_pairs(
            pairs,
            i + 1,
            documents_in_row(pairs[i].1, 0, documents_in_row(pairs[i].0, 0, acc)),
        )
    }
}

/// The JSON documents that the rows of an event hold, in the order of the
/// rows and, in a row, of the columns. An event without rows holds none.
pub open spec fn json_documents(data: EventDataView) -> Seq<Seq<u8>> {
    match data {
        EventDataView::WriteRows(event) => documents_in_rows(event.rows, 0, Seq::empty()),
        EventDataView::DeleteRows(event) => documents_in_rows(event.rows, 0, Seq::empty()),
        EventDataView::UpdateRows(event) => documents_in_pairs(event.rows, 0, Seq::empty()),
        _ => Seq::empty(),
    }
}

/// Whether `text` is what rendering `document` gives: its text, or a
/// `Format` error for a malformed document.
pub open spec fn renders(text: Result<JsonText, BinlogError>, document: Seq<u8>) -> bool {
    match json_of(document) {
        Some(t) => text matches Ok(v) && v@ == t,
        None => text matches Err(e) && e == BinlogError::Format,
    }
}

/// Whether `texts` holds what rendering each of `documents` gives.
pub open spec fn render_all(
    texts: Seq<Result<JsonText, BinlogError>>,
    documents: Seq<Seq<u8>>,
) -> bool {
    texts.len() == documents.len() && forall|k: int|
        0 <= k < texts.len() ==> renders(#[trigger] texts[k], documents[k])
}

/// Renders the JSON columns of one row behind those rendered so far.
fn render_row(row: &RowEvent, texts: &mut Vec<Result<JsonText, BinlogError>>, Ghost(seen): Ghost<
    Seq<Seq<u8>>,
>)
    requires
        render_all(old(texts)@, seen),
    ensures
        render_all(final(texts)@, documents_in_row(row@, 0, seen)),
{
    let ghost mut documents = seen;
    let mut i: usize = 0;
    while i < row.column_values.len()
        invariant
            i <= row.column_values@.len(),
            row@.len() == row.column_values@.len(),
            render_all(texts@, documents),
            documents_in_row(row@, 0, seen) == documents_in_row(row@, i as int, documents),
        decreases row.column_values@.len() - i,
    {
        assert(row@[i as int] == row.column_values@[i as int]@);
        match &row.column_values[i] {
            ColumnValue::Json(bytes) => {
                texts.push(JsonBinary::parse_as_string(bytes.as_slice()));
                proof {
                    documents = documents.push(bytes@);
                }
            },
            _ => {},
        }
        i = i + 1;
    }
}

/// Renders every JSON column of the rows of `data`, in the order of the
/// rows and, in a row, of the columns; of an updated row first the columns
/// from before the update. A malformed document gives a `Format` error in
/// its place.
pub fn parse_json_columns(data: &EventData) -> (texts: Vec<Result<JsonText, BinlogError>>)
    ensures
        render_all(texts@, json_documents(data@)),
{
    let mut texts: Vec<Result<JsonText, BinlogError>> = Vec::new();
    let ghost mut documents: Seq<Seq<u8>> = Seq::empty();
    match data {
        EventData::WriteRows(event) | EventData::DeleteRows(event) => {
            let mut i: usize = 0;
            while i < event.rows.len()
                invariant
                    i <= event.rows@.len(),
                    render_all(texts@, documents),
                    documents_in_rows(event@.rows, 0, Seq::empty()) == documents_in_rows(
                        event@.rows,
                        i as int,
                        documents,
                    ),
                decreases event.rows@.len() - i,
            {
                assert(event@.rows[i as int] == event.rows@[i as int]@);
                render_row(&event.rows[i], &mut texts, Ghost(documents));
                proof {
                    documents = documents_in_row(event.rows@[i as int]@, 0, documents);
                }
                i = i + 1;
            }
        },
        EventData::UpdateRows(event) => {
            let mut i: usize = 0;
            while i < event.rows.len()
                invariant
                    i <= event.rows@.len(),
                    render_all(texts@, documents),
                    documents_in_pairs(event@.rows, 0, Seq::empty()) == documents_in_pairs(
                        event@.rows,
                        i as int,
                        documents,
                    ),
                decreases event.rows@.len() - i,
            {
                assert(event@.rows[i as int] == (
                    event.rows@[i as int].0@,
                    event.rows@[i as int].1@,
                ));
                render_row(&event.rows[i].0, &mut texts, Ghost(documents));
                proof {
                    documents = documents_in_row(event.rows@[i as int].0@, 0, documents);
                }
                render_row(&event.rows[i].1, &mut texts, Ghost(documents));
                proof {
                    documents = documents_in_row(event.rows@[i as int].1@, 0, documents);
                }
                i = i + 1;
            }
        },
        _ => {},
    }
    texts
}

} // verus!
