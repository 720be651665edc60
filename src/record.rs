use vstd::prelude::*;

verus! {

/// A field as bytes, a record as its fields, a table as its records.
pub type RecordView = Seq<Seq<u8>>;

pub type TableView = Seq<Seq<Seq<u8>>>;

/// Total number of content bytes in a record, delimiters not counted.
pub open spec fn content_len(r: RecordView) -> nat
    decreases r.len(),
{
    if r.len() == 0 {
        0
    } else {
        content_len(r.drop_last()) + r.last().len()
    }
}

/// Number of delimiters between the fields of a record.
pub open spec fn delimiters(r: RecordView) -> nat {
    if r.len() == 0 {
        0
    } else {
        (r.len() - 1) as nat
    }
}

/// Serialized width of a record: its content plus one delimiter per gap.
pub open spec fn record_width(r: RecordView) -> nat {
    content_len(r) + delimiters(r)
}

/// Largest content length over a sequence of records.
pub open spec fn max_content(rows: TableView) -> nat
    decreases rows.len(),
{
    if rows.len() == 0 {
        0
    } else {
        let m = max_content(rows.drop_last());
        let c = content_len(rows.last());
        if c > m {
            c
        } else {
            m
        }
    }
}

/// Width reported for a sequence of data records: the largest content length plus the
/// delimiter count of the first record.
pub open spec fn table_width(rows: TableView) -> nat {
    if rows.len() == 0 {
        0
    } else {
        max_content(rows) + delimiters(rows[0])
    }
}

/// Largest serialized width over a sequence of records.
pub open spec fn max_record_width(rows: TableView) -> nat
    decreases rows.len(),
{
    if rows.len() == 0 {
        0
    } else {
        let m = max_record_width(rows.drop_last());
        let w = record_width(rows.last());
        if w > m {
            w
        } else {
            m
        }
    }
}

/// Every record among the first `n` has as many fields as the first record.
pub open spec fn uniform_before(rows: TableView, n: int) -> bool {
    forall|i: int| 0 <= i < n && i < rows.len() ==> #[trigger] rows[i].len() == rows[0].len()
}

/// Every record has as many fields as the first record.
pub open spec fn uniform(rows: TableView) -> bool {
    uniform_before(rows, rows.len() as int)
}

/// Record `k` is the first whose field count differs from that of the first record.
pub open spec fn first_ragged(rows: TableView, k: int) -> bool {
    0 <= k < rows.len() && uniform_before(rows, k) && rows[k].len() != rows[0].len()
}

/// The records that carry data: all of them without a header, else all but the first.
pub open spec fn data_rows(rows: TableView, no_headers: bool) -> TableView {
    if no_headers || rows.len() == 0 {
        rows
    } else {
        rows.drop_first()
    }
}

/// The record used to resolve column names: the first one, or none on empty input.
pub open spec fn header_row(rows: TableView) -> RecordView {
    if rows.len() == 0 {
        Seq::empty()
    } else {
        rows[0]
    }
}

pub proof fn lemma_content_len_prefix(r: RecordView, j: int)
    requires
        0 <= j < r.len(),
    ensures
        content_len(r.take(j + 1)) == content_len(r.take(j)) + r[j].len(),
{
    assert(r.take(j + 1).drop_last() =~= r.take(j));
}

pub proof fn lemma_content_len_monotone(r: RecordView, j: int)
    requires
        0 <= j <= r.len(),
    ensures
        content_len(r.take(j)) <= content_len(r),
    decreases r.len() - j,
{
    if j < r.len() {
        lemma_content_len_prefix(r, j);
        lemma_content_len_monotone(r, j + 1);
    } else {
        assert(r.take(j) =~= r);
    }
}

pub proof fn lemma_max_content_prefix(rows: TableView, j: int)
    requires
        0 <= j < rows.len(),
    ensures
        max_content(rows.take(j + 1)) == (if content_len(rows[j]) > max_content(rows.take(j)) {
            content_len(rows[j])
        } else {
            max_content(rows.take(j))
        }),
{
    assert(rows.take(j + 1).drop_last() =~= rows.take(j));
}

pub proof fn lemma_max_content_monotone(rows: TableView, j: int)
    requires
        0 <= j <= rows.len(),
    ensures
        max_content(rows.take(j)) <= max_content(rows),
    decreases rows.len() - j,
{
    if j < rows.len() {
        lemma_max_content_prefix(rows, j);
        lemma_max_content_monotone(rows, j + 1);
    } else {
        assert(rows.take(j) =~= rows);
    }
}

/// A record's content length is at most the largest over the sequence.
pub proof fn lemma_content_le_max(rows: TableView, j: int)
    requires
        0 <= j < rows.len(),
    ensures
        content_len(rows[j]) <= max_content(rows),
{
    lemma_max_content_prefix(rows, j);
    lemma_max_content_monotone(rows, j + 1);
}

} // verus!

verus! {

/// A copy of a field.
pub fn copy_field(f: &Vec<u8>) -> (r: Vec<u8>)
    ensures
        r@ == f@,
{
    let mut out: Vec<u8> = Vec::new();
    let mut i: usize = 0;
    while i < f.len()
        invariant
            i <= f.len(),
            out@ == f@.take(i as int),
        decreases f.len() - i,
    {
        out.push(f[i]);
        i = i + 1;
        proof {
            assert(out@ =~= f@.take(i as int));
        }
    }
    proof {
        assert(f@.take(i as int) =~= f@);
    }
    out
}

/// A copy of a record.
pub fn copy_record(rec: &Vec<Vec<u8>>) -> (r: Vec<Vec<u8>>)
    ensures
        r.deep_view() == rec.deep_view(),
{
    let ghost v = rec.deep_view();
    let mut out: Vec<Vec<u8>> = Vec::new();
    let mut i: usize = 0;
    while i < rec.len()
        invariant
            v == rec.deep_view(),
            i <= rec.len(),
            out@.len() == i,
            out.deep_view() == v.take(i as int),
        decreases rec.len() - i,
    {
        let f = copy_field(&rec[i]);
        proof {
            assert(f.deep_view() =~= rec@[i as int].deep_view());
        }
        let ghost prev = out@;
        let ghost prev_deep = out.deep_view();
        out.push(f);
        i = i + 1;
        proof {
            assert forall|k: int| 0 <= k < i implies #[trigger] out.deep_view()[k] == v.take(
                i as int,
            )[k] by {
                if k < i - 1 {
                    assert(out@[k] == prev[k]);
                }
            }
            assert(out.deep_view() =~= v.take(i as int));
        }
    }
    proof {
        assert(v.take(i as int) =~= v);
    }
    out
}

} // verus!

verus! {

/// Appends a field to a record.
pub fn push_field(rec: &mut Vec<Vec<u8>>, f: Vec<u8>)
    ensures
        final(rec).deep_view() == old(rec).deep_view().push(f@),
{
    let ghost prev = rec@;
    let ghost fv = f@;
    rec.push(f);
    proof {
        assert forall|k: int| 0 <= k < prev.len() implies rec@[k] == prev[k] by {}
        assert(rec@[prev.len() as int].deep_view() =~= fv);
        assert(rec.deep_view() =~= old(rec).deep_view().push(fv));
    }
}

} // verus!
