use vstd::prelude::*;

use crate::count::{checked_max_content, count_rows, is_parse_error_of, CountResult};
use crate::error::EngineError;
use crate::pattern::Pattern;
use crate::search::{flag_view, search_result, search_rows};
use crate::record::{data_rows, table_width, uniform, RecordView, TableView};
use crate::select::ColumnSpec;

verus! {

/// The records that csv's reader yields for `data` with the given delimiter and quoting,
/// every record accepted whatever its field count, no record set apart as a header.
pub uninterp spec fn csv_records(data: Seq<u8>, delimiter: u8, quoting: bool) -> TableView;

/// The bytes that csv's writer, with its default settings, emits for one record.
pub uninterp spec fn csv_line(rec: RecordView) -> Seq<u8>;

/// Relies on csv's `ReaderBuilder` and `Reader::byte_records`: parses `data` into records of
/// byte fields (flexible, headers not treated apart). The reader's only errors are I/O errors,
/// which a byte slice never raises, and field-count mismatches, which flexible mode turns off.
#[verifier::external_body]
fn parse_records(data: &[u8], delimiter: u8, quoting: bool) -> (r: Result<Vec<Vec<Vec<u8>>>, String>)
    ensures
        r is Ok,
        r is Ok ==> r->Ok_0.deep_view() == csv_records(data@, delimiter, quoting),
{
    csv::ReaderBuilder::new().delimiter(delimiter).quoting(quoting).flexible(true).has_headers(
        false,
    ).from_reader(data).byte_records().map(
        |rec| rec.map(|rec| rec.iter().map(|f| f.to_vec()).collect()),
    ).collect::<Result<Vec<Vec<Vec<u8>>>, csv::Error>>().map_err(|e| e.to_string())
}

/// Relies on csv's `Writer::write_record` and `Writer::into_inner` over an in-memory buffer:
/// the serialized form of one record, terminator included.
#[verifier::external_body]
fn write_line(rec: &Vec<Vec<u8>>) -> (r: Vec<u8>)
    ensures
        r@ == csv_line(rec.deep_view()),
{
    let mut wtr = csv::Writer::from_writer(Vec::new());
    match wtr.write_record(rec) {
        Ok(()) => {},
        Err(_) => return Vec::new(),
    }
    match wtr.into_inner() {
        Ok(v) => v,
        Err(_) => Vec::new(),
    }
}

/// Concatenation of the serialized forms of `rows`, in order.
pub open spec fn csv_text(rows: TableView) -> Seq<u8>
    decreases rows.len(),
{
    if rows.len() == 0 {
        Seq::empty()
    } else {
        csv_text(rows.drop_last()) + csv_line(rows.last())
    }
}

/// Serializes records one after another as csv's writer does.
pub fn render_records(rows: &Vec<Vec<Vec<u8>>>) -> (r: Vec<u8>)
    ensures
        r@ == csv_text(rows.deep_view()),
{
    let ghost t = rows.deep_view();
    let mut out: Vec<u8> = Vec::new();
    let mut i: usize = 0;
    while i < rows.len()
        invariant
            t == rows.deep_view(),
            i <= rows.len(),
            out@ == csv_text(t.take(i as int)),
        decreases rows.len() - i,
    {
        let mut line = write_line(&rows[i]);
        proof {
            assert(t.take(i as int + 1).drop_last() =~= t.take(i as int));
            assert(t[i as int] == rows@[i as int].deep_view());
        }
        out.append(&mut line);
        i = i + 1;
    }
    proof {
        assert(t.take(i as int) =~= t);
    }
    out
}

/// Whether the width of the data records of `rows` can be represented.
pub fn width_fits(rows: &Vec<Vec<Vec<u8>>>, no_headers: bool) -> (b: bool)
    ensures
        b == (table_width(data_rows(rows.deep_view(), no_headers)) <= usize::MAX),
{
    let ghost t = rows.deep_view();
    let ghost data = data_rows(t, no_headers);
    let start: usize = if no_headers || rows.len() == 0 {
        0
    } else {
        1
    };
    proof {
        assert forall|k: int| 0 <= k < data.len() implies data[k] == t[k + start] by {}
    }
    let max_c = match checked_max_content(rows, no_headers) {
        Some(m) => m,
        None => {
            return false;
        },
    };
    if rows.len() <= start {
        return true;
    }
    proof {
        assert(data[0] == rows@[start as int].deep_view());
    }
    let delims: usize = if rows[start].len() == 0 {
        0
    } else {
        rows[start].len() - 1
    };
    max_c.checked_add(delims).is_some()
}

/// Counts the records of csv text `data`. With `want_width` quoting is off, so quotes count
/// toward the width, and field counts are not checked. `Ok(None)` when the width would not
/// fit in a `usize`.
pub fn count_input(data: &[u8], delimiter: u8, no_headers: bool, want_width: bool, flexible: bool) -> (r:
    Result<Option<CountResult>, EngineError>)
    ensures
        ({
            let rows = csv_records(data@, delimiter, !want_width);
            let d = data_rows(rows, no_headers);
            &&& r is Err <==> (!flexible && !want_width && !uniform(rows))
            &&& r is Err ==> is_parse_error_of(rows, r->Err_0)
            &&& r is Ok ==> (r->Ok_0 is None <==> (want_width && table_width(d) > usize::MAX))
            &&& r is Ok && r->Ok_0 is Some ==> r->Ok_0->Some_0.count == d.len()
                && r->Ok_0->Some_0.width == (if want_width {
                table_width(d)
            } else {
                0
            })
        }),
{
    let rows = match parse_records(data, delimiter, !want_width) {
        Ok(rows) => rows,
        Err(message) => return Err(EngineError::SourceIo { message }),
    };
    if want_width && !width_fits(&rows, no_headers) {
        return Ok(None);
    }
    match count_rows(&rows, no_headers, want_width, flexible) {
        Ok(c) => Ok(Some(c)),
        Err(e) => Err(e),
    }
}

/// What a search over csv text produces: the serialized records written, and how it ended.
pub struct SearchOutput {
    pub text: Vec<u8>,
    pub result: Result<(), EngineError>,
}

/// Searches csv text `data` (fields split on `delimiter`, quotes honoured) and serializes what
/// the search writes. The records written are those of `search_rows` on the parsed records.
pub fn search_input(
    data: &[u8],
    delimiter: u8,
    no_headers: bool,
    specs: &Vec<ColumnSpec>,
    pattern: &Pattern,
    invert: bool,
    flag: &Option<Vec<u8>>,
) -> (r: SearchOutput)
    ensures
        exists|o: TableView|
            #[trigger] search_result(
                csv_records(data@, delimiter, true),
                no_headers,
                specs@,
                pattern@,
                invert,
                flag_view(*flag),
                o,
                r.result,
            ) && r.text@ == csv_text(o),
{
    let rows = match parse_records(data, delimiter, true) {
        Ok(rows) => rows,
        Err(message) => {
            return SearchOutput { text: Vec::new(), result: Err(EngineError::SourceIo { message }) };
        },
    };
    let out = search_rows(&rows, no_headers, specs, pattern, invert, flag);
    let text = render_records(&out.rows);
    proof {
        assert(search_result(
            rows.deep_view(),
            no_headers,
            specs@,
            pattern@,
            invert,
            flag_view(*flag),
            out.rows.deep_view(),
            out.result,
        ));
    }
    SearchOutput { text, result: out.result }
}

} // verus!
