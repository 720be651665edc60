use vstd::prelude::*;

use crate::error::EngineError;
use crate::record::{
    content_len, data_rows, delimiters, first_ragged, lemma_content_le_max, lemma_content_len_monotone,
    lemma_content_len_prefix, lemma_max_content_prefix, max_content, max_record_width,
    record_width, table_width, uniform, uniform_before, TableView,
};

verus! {

/// Number of data records and, when asked for, the width of the widest one.
#[derive(Debug, Clone, Copy, PartialEq, Eq)]
pub struct CountResult {
    pub count: u64,
    pub width: usize,
}

/// `e` is the error that a strict count reports on `rows`.
pub open spec fn is_parse_error_of(rows: TableView, e: EngineError) -> bool {
    match e {
        EngineError::Parse { record, expected, found } => {
            first_ragged(rows, record as int) && expected == rows[0].len() && found
                == rows[record as int].len()
        },
        _ => false,
    }
}

/// The largest content length over the data records of `rows`, or `None` when it does not
/// fit in a `usize`.
pub(crate) fn checked_max_content(rows: &Vec<Vec<Vec<u8>>>, no_headers: bool) -> (r: Option<usize>)
    ensures
        r is Some <==> max_content(data_rows(rows.deep_view(), no_headers)) <= usize::MAX,
        r is Some ==> r->Some_0 == max_content(data_rows(rows.deep_view(), no_headers)),
{
    let ghost t = rows.deep_view();
    let ghost data = data_rows(t, no_headers);
    let start: usize = if no_headers || rows.len() == 0 {
        0
    } else {
        1
    };
    proof {
        assert forall|k: int| 0 <= k < data.len() implies data[k] == t[k + start] by {}
    }
    let mut max_c: usize = 0;
    let mut i: usize = start;
    while i < rows.len()
        invariant
            t == rows.deep_view(),
            data == data_rows(t, no_headers),
            data.len() == t.len() - start,
            forall|k: int| 0 <= k < data.len() ==> data[k] == t[k + start],
            start <= i <= rows.len(),
            max_c == max_content(data.take(i - start)),
        decreases rows.len() - i,
    {
        let ghost k = i - start;
        let ghost r = t[i as int];
        proof {
            assert(r == rows@[i as int].deep_view());
            assert(data[k as int] == r);
            lemma_max_content_prefix(data, k as int);
            assert(max_content(data.take(0)) == 0);
        }
        let rec = &rows[i];
        let mut c: usize = 0;
        let mut j: usize = 0;
        while j < rec.len()
            invariant
                r == rec.deep_view(),
                t == rows.deep_view(),
                data == data_rows(t, no_headers),
                0 <= k < data.len(),
                data[k as int] == r,
                j <= rec.len(),
                c == content_len(r.take(j as int)),
            decreases rec.len() - j,
        {
            proof {
                lemma_content_len_prefix(r, j as int);
                assert(r[j as int] == rec@[j as int]@);
            }
            match c.checked_add(rec[j].len()) {
                Some(v) => {
                    c = v;
                },
                None => {
                    proof {
                        lemma_content_len_monotone(r, j as int + 1);
                        lemma_content_le_max(data, k as int);
                    }
                    return None;
                },
            }
            j = j + 1;
        }
        proof {
            assert(r.take(j as int) =~= r);
        }
        if c > max_c {
            max_c = c;
        }
        i = i + 1;
    }
    proof {
        assert(data.take(data.len() as int) =~= data);
    }
    Some(max_c)
}

/// The streaming count: the data records of `rows`, and the table width when `want_width`.
/// Field counts are checked against the first record unless `flexible` or `want_width`.
pub fn count_rows(rows: &Vec<Vec<Vec<u8>>>, no_headers: bool, want_width: bool, flexible: bool) -> (r:
    Result<CountResult, EngineError>)
    requires
        want_width ==> table_width(data_rows(rows.deep_view(), no_headers)) <= usize::MAX,
    ensures
        r is Err <==> (!flexible && !want_width && !uniform(rows.deep_view())),
        r is Err ==> is_parse_error_of(rows.deep_view(), r->Err_0),
        r is Ok ==> r->Ok_0.count == data_rows(rows.deep_view(), no_headers).len(),
        r is Ok ==> r->Ok_0.width == (if want_width {
            table_width(data_rows(rows.deep_view(), no_headers))
        } else {
            0
        }),
{
    let ghost t = rows.deep_view();
    let ghost data = data_rows(t, no_headers);
    let strict = !(flexible || want_width);
    let start: usize = if no_headers || rows.len() == 0 {
        0
    } else {
        1
    };
    proof {
        assert(data.len() == t.len() - start);
        assert forall|k: int| 0 <= k < data.len() implies data[k] == t[k + start] by {}
    }
    let mut count: u64 = 0;
    let mut i: usize = 0;
    while i < rows.len()
        invariant
            t == rows.deep_view(),
            data == data_rows(t, no_headers),
            data.len() == t.len() - start,
            forall|k: int| 0 <= k < data.len() ==> data[k] == t[k + start],
            strict == !(flexible || want_width),
            want_width ==> table_width(data) <= usize::MAX,
            start <= 1,
            start == 1 ==> t.len() > 0,
            i <= rows.len(),
            strict ==> uniform_before(t, i as int),
            i >= start ==> count == i - start,
            i < start ==> count == 0 && i == 0,
        decreases rows.len() - i,
    {
        proof {
            assert(t[i as int] == rows@[i as int].deep_view());
            assert(t[0] == rows@[0].deep_view());
        }
        if strict && rows[i].len() != rows[0].len() {
            return Err(EngineError::Parse { record: i, expected: rows[0].len(), found: rows[i].len() });
        }
        if i >= start {
            count = count + 1;
        }
        i = i + 1;
    }
    let mut width: usize = 0;
    if want_width && rows.len() > start {
        let max_w = match checked_max_content(rows, no_headers) {
            Some(m) => m,
            None => 0,
        };
        proof {
            assert(data[0] == t[start as int]);
            assert(t[start as int] == rows@[start as int].deep_view());
        }
        let delims: usize = if rows[start].len() == 0 {
            0
        } else {
            rows[start].len() - 1
        };
        width = max_w + delims;
    }
    Ok(CountResult { count, width })
}

/// How a count is obtained.
#[derive(Debug, Clone, Copy, PartialEq, Eq)]
pub enum Strategy {
    /// A fresh index answers at once with this record count.
    Indexed(u64),
    /// The alternate high-throughput backend counts the rows itself.
    Backend,
    /// Every record is read in turn.
    Streaming,
}

/// Picks the counting strategy once per invocation. `index` is the outcome of the index
/// query: `Ok(Some(v))` for a fresh index reporting `v`; a failed query counts as no index.
pub fn choose_strategy(
    want_width: bool,
    index: &Result<Option<u64>, EngineError>,
    backend_available: bool,
    backend_opt_out: bool,
    compressed: bool,
) -> (r: Strategy)
    ensures
        want_width ==> r == Strategy::Streaming,
        !want_width && index is Ok && index->Ok_0 is Some ==> r == Strategy::Indexed(
            index->Ok_0->Some_0,
        ),
        !want_width && !(index is Ok && index->Ok_0 is Some) ==> (r == Strategy::Backend <==> (
        backend_available && !backend_opt_out && !compressed)),
        !want_width && !(index is Ok && index->Ok_0 is Some) && r != Strategy::Backend ==> r
            == Strategy::Streaming,
{
    if want_width {
        return Strategy::Streaming;
    }
    match index {
        Ok(Some(v)) => Strategy::Indexed(*v),
        _ => {
            if backend_available && !backend_opt_out && !compressed {
                Strategy::Backend
            } else {
                Strategy::Streaming
            }
        },
    }
}

/// The result an index-backed count reports: the index's count, with no width.
pub fn indexed_result(v: u64) -> (r: CountResult)
    ensures
        r.count == v,
        r.width == 0,
{
    CountResult { count: v, width: 0 }
}

/// Counting without a header counts every record; with a header, every record but the first.
pub proof fn law_count_lines(rows: TableView, no_headers: bool)
    requires
        rows.len() > 0,
    ensures
        data_rows(rows, no_headers).len() == rows.len() - (if no_headers {
            0int
        } else {
            1int
        }),
{
}

/// On records that all have the same number of fields, the reported width is the largest
/// serialized width: content bytes plus one delimiter per gap between fields.
pub proof fn law_width_is_max_record_width(rows: TableView)
    requires
        uniform(rows),
    ensures
        table_width(rows) == max_record_width(rows),
    decreases rows.len(),
{
    if rows.len() > 1 {
        let prefix = rows.drop_last();
        assert(prefix[0] == rows[0]);
        assert forall|i: int| 0 <= i < prefix.len() implies #[trigger] prefix[i].len()
            == prefix[0].len() by {
            assert(prefix[i] == rows[i]);
        }
        law_width_is_max_record_width(prefix);
        assert(rows.last().len() == rows[0].len());
        assert(delimiters(rows.last()) == delimiters(rows[0]));
        assert(table_width(prefix) == max_content(prefix) + delimiters(rows[0]));
        assert(max_record_width(rows) == (if record_width(rows.last()) > max_record_width(prefix) {
            record_width(rows.last())
        } else {
            max_record_width(prefix)
        }));
        assert(max_content(rows) == (if content_len(rows.last()) > max_content(prefix) {
            content_len(rows.last())
        } else {
            max_content(prefix)
        }));
    } else if rows.len() == 1 {
        assert(rows.drop_last().len() == 0);
        assert(rows.last() == rows[0]);
        assert(max_content(rows.drop_last()) == 0);
        assert(max_record_width(rows.drop_last()) == 0);
    }
}

/// `256` to the power `j`.
pub open spec fn pow256(j: nat) -> nat
    decreases j,
{
    if j == 0 {
        1
    } else {
        256 * pow256((j - 1) as nat)
    }
}

/// The number that the bytes `s` spell in big-endian order.
pub open spec fn be_value(s: Seq<u8>) -> nat
    decreases s.len(),
{
    if s.len() == 0 {
        0
    } else {
        be_value(s.drop_last()) * 256 + s.last() as nat
    }
}

proof fn lemma_pow256_monotone(i: nat, j: nat)
    requires
        i <= j,
    ensures
        pow256(i) <= pow256(j),
    decreases j - i,
{
    if i < j {
        lemma_pow256_monotone(i, (j - 1) as nat);
    }
}

/// The record count of an index: the number held big-endian in its last eight bytes, less one
/// for the header row unless headers are off or no record is indexed. `None` when the index is
/// shorter than eight bytes.
pub fn index_record_count(idx: &[u8], no_headers: bool) -> (r: Option<u64>)
    ensures
        idx@.len() < 8 <==> r is None,
        r is Some ==> ({
            let n = be_value(idx@.subrange(idx@.len() - 8, idx@.len() as int));
            r->Some_0 == (if !no_headers && n > 0 {
                n - 1
            } else {
                n as int
            })
        }),
{
    if idx.len() < 8 {
        return None;
    }
    let ghost tail = idx@.subrange(idx@.len() - 8, idx@.len() as int);
    let len: usize = idx.len();
    let base: usize = len - 8;
    let mut v: u64 = 0;
    let mut j: usize = 0;
    proof {
        reveal_with_fuel(pow256, 9);
        assert(pow256(8) == 18446744073709551616nat);
    }
    while j < 8
        invariant
            idx@.len() >= 8,
            len == idx@.len(),
            base == len - 8,
            tail == idx@.subrange(base as int, idx@.len() as int),
            j <= 8,
            v == be_value(tail.take(j as int)),
            v < pow256(j as nat),
            pow256(8) == 18446744073709551616nat,
        decreases 8 - j,
    {
        let b = idx[base + j];
        proof {
            assert(tail.take(j as int + 1).drop_last() =~= tail.take(j as int));
            assert(tail[j as int] == b);
            lemma_pow256_monotone((j + 1) as nat, 8);
            let pj = pow256(j as nat);
            assert(v * 256 + b < pj * 256) by (nonlinear_arith)
                requires
                    v < pj,
                    b < 256,
            ;
        }
        v = v * 256 + b as u64;
        j = j + 1;
    }
    proof {
        assert(tail.take(8) =~= tail);
    }
    if !no_headers && v > 0 {
        Some(v - 1)
    } else {
        Some(v)
    }
}

} // verus!
