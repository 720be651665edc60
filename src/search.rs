use vstd::prelude::*;

use crate::count::is_parse_error_of;
use crate::error::EngineError;
use crate::pattern::{pattern_matches, Pattern, PatternView};
use crate::record::{
    copy_field, copy_record, data_rows, push_field, first_ragged, header_row, uniform, uniform_before,
    RecordView, TableView,
};
use crate::select::{
    all_resolved, first_unresolved, position_of, resolve_selection, selection, ColumnSpec,
};

verus! {

/// Decimal digits of `n`, most significant first, as ASCII bytes.
pub open spec fn decimal(n: nat) -> Seq<u8>
    decreases n,
{
    if n < 10 {
        seq![(n + 48) as u8]
    } else {
        decimal(n / 10).push((n % 10 + 48) as u8)
    }
}

/// Decimal digits of `n` as ASCII bytes.
pub fn decimal_bytes(n: u64) -> (r: Vec<u8>)
    ensures
        r@ == decimal(n as nat),
    decreases n,
{
    if n < 10 {
        let mut v: Vec<u8> = Vec::new();
        v.push(n as u8 + 48);
        proof {
            assert(v@ =~= decimal(n as nat));
        }
        v
    } else {
        let mut v = decimal_bytes(n / 10);
        v.push((n % 10) as u8 + 48);
        v
    }
}

/// Some selected field of `rec` matches `p`.
pub open spec fn record_matches(rec: RecordView, sel: Seq<int>, p: PatternView) -> bool {
    exists|j: int| 0 <= j < sel.len() && #[trigger] pattern_matches(p, rec[sel[j]])
}

/// The decision for one record: a match, flipped when inverted.
pub open spec fn selected(rec: RecordView, sel: Seq<int>, p: PatternView, invert: bool) -> bool {
    record_matches(rec, sel, p) != invert
}

/// Filter mode: the selected records, in input order.
pub open spec fn filtered(data: TableView, sel: Seq<int>, p: PatternView, invert: bool) -> TableView
    decreases data.len(),
{
    if data.len() == 0 {
        Seq::empty()
    } else {
        let prev = filtered(data.drop_last(), sel, p, invert);
        if selected(data.last(), sel, p, invert) {
            prev.push(data.last())
        } else {
            prev
        }
    }
}

/// The field appended in flag mode: the 1-based row number when selected, else `0`.
pub open spec fn flag_field(row: nat, hit: bool) -> Seq<u8> {
    if hit {
        decimal(row)
    } else {
        seq![48u8]
    }
}

/// Flag mode: every record, with its flag field appended.
pub open spec fn flagged(data: TableView, sel: Seq<int>, p: PatternView, invert: bool) -> TableView {
    Seq::new(
        data.len(),
        |i: int| data[i].push(flag_field((i + 1) as nat, selected(data[i], sel, p, invert))),
    )
}

/// The flag column's name, if flag mode is on.
pub open spec fn flag_view(flag: Option<Vec<u8>>) -> Option<Seq<u8>> {
    match flag {
        Some(f) => Some(f@),
        None => None,
    }
}

/// Output records that stand for the data records `data`.
pub open spec fn body_output(
    data: TableView,
    sel: Seq<int>,
    p: PatternView,
    invert: bool,
    flag: Option<Seq<u8>>,
) -> TableView {
    match flag {
        Some(_) => flagged(data, sel, p, invert),
        None => filtered(data, sel, p, invert),
    }
}

/// The header written before the data: none without headers, else the input header with the
/// flag column's name appended in flag mode.
pub open spec fn header_output(rows: TableView, no_headers: bool, flag: Option<Seq<u8>>) -> TableView {
    if no_headers {
        Seq::empty()
    } else {
        match flag {
            Some(f) => seq![header_row(rows).push(f)],
            None => seq![header_row(rows)],
        }
    }
}

/// Index of the first data record in `rows`.
pub open spec fn data_start(rows: TableView, no_headers: bool) -> int {
    if no_headers || rows.len() == 0 {
        0
    } else {
        1
    }
}

/// What a search produces: the records written, and how it ended. On a mid-stream error the
/// records are those written before it.
pub struct SearchOutcome {
    pub rows: Vec<Vec<Vec<u8>>>,
    pub result: Result<(), EngineError>,
}

/// `out` and `result` are what a search of the records `t` writes and how it ends. The
/// selection is resolved first; without error, the header output is followed by the output
/// for every data record; at the first record whose field count differs from the first
/// record's, output stops before it with a parse error.
pub open spec fn search_result(
    t: TableView,
    no_headers: bool,
    specs: Seq<ColumnSpec>,
    p: PatternView,
    invert: bool,
    fv: Option<Seq<u8>>,
    out: TableView,
    result: Result<(), EngineError>,
) -> bool {
    let h = header_row(t);
    let sel = selection(h, specs);
    let d = data_rows(t, no_headers);
    &&& !all_resolved(h, specs) ==> out.len() == 0 && result is Err && result->Err_0 is ColumnNotFound
        && first_unresolved(h, specs, result->Err_0->ColumnNotFound_entry as int)
    &&& all_resolved(h, specs) && uniform(t) ==> result is Ok && out == header_output(
        t,
        no_headers,
        fv,
    ) + body_output(d, sel, p, invert, fv)
    &&& all_resolved(h, specs) && !uniform(t) ==> result is Err && is_parse_error_of(
        t,
        result->Err_0,
    ) && out == header_output(t, no_headers, fv) + body_output(
        d.take(result->Err_0->Parse_record - data_start(t, no_headers)),
        sel,
        p,
        invert,
        fv,
    )
}

/// A record with its flag field appended: the row number when `hit`, else `0`.
pub fn annotate(rec: &Vec<Vec<u8>>, row: u64, hit: bool) -> (r: Vec<Vec<u8>>)
    ensures
        r.deep_view() == rec.deep_view().push(flag_field(row as nat, hit)),
{
    let mut out = copy_record(rec);
    let mark: Vec<u8> = if hit {
        decimal_bytes(row)
    } else {
        let mut z: Vec<u8> = Vec::new();
        z.push(48u8);
        proof {
            assert(z@ =~= seq![48u8]);
        }
        z
    };
    push_field(&mut out, mark);
    out
}

/// Whether the pattern matches some selected field of `rec`.
pub fn row_matches(rec: &Vec<Vec<u8>>, sel: &Vec<usize>, p: &Pattern) -> (r: bool)
    requires
        forall|k: int| 0 <= k < sel@.len() ==> #[trigger] sel@[k] < rec@.len(),
    ensures
        r == record_matches(rec.deep_view(), sel@.map_values(|x: usize| x as int), p@),
{
    let ghost s = sel@.map_values(|x: usize| x as int);
    let ghost v = rec.deep_view();
    let mut j: usize = 0;
    while j < sel.len()
        invariant
            s == sel@.map_values(|x: usize| x as int),
            v == rec.deep_view(),
            forall|k: int| 0 <= k < sel@.len() ==> #[trigger] sel@[k] < rec@.len(),
            j <= sel.len(),
            forall|k: int| 0 <= k < j ==> !#[trigger] pattern_matches(p@, v[s[k]]),
        decreases sel.len() - j,
    {
        let f = &rec[sel[j]];
        proof {
            assert(v[s[j as int]] =~= f@);
        }
        if p.is_match(f.as_slice()) {
            return true;
        }
        j = j + 1;
    }
    false
}

proof fn lemma_filtered_step(data: TableView, sel: Seq<int>, p: PatternView, invert: bool, k: int)
    requires
        0 <= k < data.len(),
    ensures
        filtered(data.take(k + 1), sel, p, invert) == (if selected(data[k], sel, p, invert) {
            filtered(data.take(k), sel, p, invert).push(data[k])
        } else {
            filtered(data.take(k), sel, p, invert)
        }),
{
    assert(data.take(k + 1).drop_last() =~= data.take(k));
}

proof fn lemma_flagged_step(data: TableView, sel: Seq<int>, p: PatternView, invert: bool, k: int)
    requires
        0 <= k < data.len(),
    ensures
        flagged(data.take(k + 1), sel, p, invert) == flagged(data.take(k), sel, p, invert).push(
            data[k].push(flag_field((k + 1) as nat, selected(data[k], sel, p, invert))),
        ),
{
    assert(flagged(data.take(k + 1), sel, p, invert) =~= flagged(data.take(k), sel, p, invert).push(
        data[k].push(flag_field((k + 1) as nat, selected(data[k], sel, p, invert))),
    ));
}

/// Appends `rec` to `out`.
fn push_record(out: &mut Vec<Vec<Vec<u8>>>, rec: Vec<Vec<u8>>)
    ensures
        final(out)@.len() == old(out)@.len() + 1,
        final(out).deep_view() == old(out).deep_view().push(rec.deep_view()),
{
    let ghost prev = out@;
    out.push(rec);
    proof {
        assert(out.deep_view() =~= old(out).deep_view().push(rec.deep_view())) by {
            assert forall|k: int| 0 <= k < prev.len() implies out@[k] == prev[k] by {}
        }
    }
}

/// Filters or flags records by a pattern over the selected columns. The selection is
/// resolved against the first record before anything is written; records are checked to
/// have as many fields as the first, and output stops at the first that does not.
pub fn search_rows(
    rows: &Vec<Vec<Vec<u8>>>,
    no_headers: bool,
    specs: &Vec<ColumnSpec>,
    pattern: &Pattern,
    invert: bool,
    flag: &Option<Vec<u8>>,
) -> (out: SearchOutcome)
    ensures
        search_result(
            rows.deep_view(),
            no_headers,
            specs@,
            pattern@,
            invert,
            flag_view(*flag),
            out.rows.deep_view(),
            out.result,
        ),
{
    let ghost t = rows.deep_view();
    let ghost h = header_row(t);
    let ghost d = data_rows(t, no_headers);
    let ghost fv = flag_view(*flag);
    let empty: Vec<Vec<u8>> = Vec::new();
    let header: &Vec<Vec<u8>> = if rows.len() > 0 {
        &rows[0]
    } else {
        &empty
    };
    proof {
        if rows.len() > 0 {
            assert(t[0] == rows@[0].deep_view());
        } else {
            assert(header.deep_view() =~= h);
        }
    }
    let sel = match resolve_selection(header, specs) {
        Ok(sel) => sel,
        Err(e) => {
            let none: Vec<Vec<Vec<u8>>> = Vec::new();
            proof {
                assert(none.deep_view() =~= Seq::<RecordView>::empty());
            }
            return SearchOutcome { rows: none, result: Err(e) };
        },
    };
    let ghost s = sel@.map_values(|x: usize| x as int);
    let mut out: Vec<Vec<Vec<u8>>> = Vec::new();
    if !no_headers {
        let mut hrec = copy_record(header);
        match flag {
            Some(name) => {
                let f = copy_field(name);
                push_field(&mut hrec, f);
            },
            None => {},
        }
        push_record(&mut out, hrec);
    }
    proof {
        assert(out.deep_view() =~= header_output(t, no_headers, fv));
    }
    let start: usize = if no_headers || rows.len() == 0 {
        0
    } else {
        1
    };
    proof {
        assert forall|k: int| 0 <= k < d.len() implies d[k] == t[k + start] by {}
        assert(d.take(0) =~= Seq::<RecordView>::empty());
        assert(filtered(d.take(0), s, pattern@, invert) == Seq::<RecordView>::empty());
        assert(flagged(d.take(0), s, pattern@, invert) =~= Seq::<RecordView>::empty());
        assert(header_output(t, no_headers, fv) + Seq::<RecordView>::empty() =~= header_output(
            t,
            no_headers,
            fv,
        ));
    }
    let mut i: usize = start;
    while i < rows.len()
        invariant
            t == rows.deep_view(),
            h == header_row(t),
            d == data_rows(t, no_headers),
            fv == flag_view(*flag),
            s == sel@.map_values(|x: usize| x as int),
            s == selection(h, specs@),
            all_resolved(h, specs@),
            forall|k: int| 0 <= k < sel@.len() ==> #[trigger] sel@[k] < h.len(),
            start == data_start(t, no_headers),
            d.len() == t.len() - start,
            forall|k: int| 0 <= k < d.len() ==> d[k] == t[k + start],
            start <= i <= rows.len(),
            uniform_before(t, i as int),
            out.deep_view() == header_output(t, no_headers, fv) + body_output(
                d.take(i - start),
                s,
                pattern@,
                invert,
                fv,
            ),
        decreases rows.len() - i,
    {
        let ghost k = i - start;
        proof {
            assert(t[i as int] == rows@[i as int].deep_view());
            assert(t[0] == rows@[0].deep_view());
            assert(h == t[0]);
        }
        if rows[i].len() != rows[0].len() {
            proof {
                assert(first_ragged(t, i as int));
            }
            return SearchOutcome {
                rows: out,
                result: Err(
                    EngineError::Parse { record: i, expected: rows[0].len(), found: rows[i].len() },
                ),
            };
        }
        let hit = row_matches(&rows[i], &sel, pattern) != invert;
        proof {
            assert(d[k as int] == rows@[i as int].deep_view());
        }
        match flag {
            Some(_) => {
                let rec = annotate(&rows[i], (i - start + 1) as u64, hit);
                proof {
                    lemma_flagged_step(d, s, pattern@, invert, k as int);
                }
                let ghost before = out.deep_view();
                push_record(&mut out, rec);
                proof {
                    assert(out.deep_view() =~= header_output(t, no_headers, fv) + body_output(
                        d.take(k + 1),
                        s,
                        pattern@,
                        invert,
                        fv,
                    ));
                }
            },
            None => {
                proof {
                    lemma_filtered_step(d, s, pattern@, invert, k as int);
                }
                if hit {
                    let rec = copy_record(&rows[i]);
                    push_record(&mut out, rec);
                    proof {
                        assert(out.deep_view() =~= header_output(t, no_headers, fv) + body_output(
                            d.take(k + 1),
                            s,
                            pattern@,
                            invert,
                            fv,
                        ));
                    }
                }
            },
        }
        i = i + 1;
    }
    proof {
        assert(d.take(i - start) =~= d);
    }
    SearchOutcome { rows: out, result: Ok(()) }
}

proof fn lemma_filtered_from(data: TableView, sel: Seq<int>, p: PatternView, invert: bool)
    ensures
        forall|i: int|
            0 <= i < filtered(data, sel, p, invert).len() ==> selected(
                #[trigger] filtered(data, sel, p, invert)[i],
                sel,
                p,
                invert,
            ) && exists|j: int| 0 <= j < data.len() && filtered(data, sel, p, invert)[i] == data[j],
    decreases data.len(),
{
    if data.len() > 0 {
        let prev = data.drop_last();
        lemma_filtered_from(prev, sel, p, invert);
        let f = filtered(data, sel, p, invert);
        assert forall|i: int| 0 <= i < f.len() implies selected(#[trigger] f[i], sel, p, invert)
            && exists|j: int| 0 <= j < data.len() && f[i] == data[j] by {
            if i < filtered(prev, sel, p, invert).len() {
                let j = choose|j: int| 0 <= j < prev.len() && filtered(prev, sel, p, invert)[i] == prev[j];
                assert(f[i] == data[j]);
            } else {
                assert(f[i] == data[data.len() - 1]);
            }
        }
    }
}

proof fn lemma_filtered_fixed(data: TableView, sel: Seq<int>, p: PatternView, invert: bool)
    requires
        forall|i: int| 0 <= i < data.len() ==> selected(#[trigger] data[i], sel, p, invert),
    ensures
        filtered(data, sel, p, invert) == data,
    decreases data.len(),
{
    if data.len() > 0 {
        let prev = data.drop_last();
        assert forall|i: int| 0 <= i < prev.len() implies selected(#[trigger] prev[i], sel, p, invert) by {
            assert(prev[i] == data[i]);
        }
        lemma_filtered_fixed(prev, sel, p, invert);
        assert(selected(data[data.len() - 1], sel, p, invert));
        assert(prev.push(data.last()) =~= data);
    }
}

/// Searching in filter mode, without inversion, the records that such a search wrote gives
/// those same records back, without error. Without headers the first written record takes
/// the header's place in resolving the selection, so there the selection is by position only,
/// and a non-empty selection needs some record to have been written.
pub proof fn law_filter_idempotent(
    t: TableView,
    no_headers: bool,
    specs: Seq<ColumnSpec>,
    p: PatternView,
    out: TableView,
    result: Result<(), EngineError>,
)
    requires
        all_resolved(header_row(t), specs),
        search_result(t, no_headers, specs, p, false, None, out, result),
        no_headers ==> forall|k: int| 0 <= k < specs.len() ==> #[trigger] specs[k] is Position,
        no_headers && specs.len() > 0 ==> out.len() > 0,
    ensures
        search_result(out, no_headers, specs, p, false, None, out, Ok(())),
{
    let h = header_row(t);
    let sel = selection(h, specs);
    let d = data_rows(t, no_headers);
    let start = data_start(t, no_headers);
    let dd = if uniform(t) {
        d
    } else {
        d.take(result->Err_0->Parse_record - start)
    };
    let f = filtered(dd, sel, p, false);
    lemma_filtered_from(dd, sel, p, false);
    assert forall|i: int| 0 <= i < dd.len() implies #[trigger] dd[i].len() == h.len() by {
        if t.len() > 0 {
            assert(dd[i] == t[i + start]);
            if !uniform(t) {
                assert(uniform_before(t, result->Err_0->Parse_record as int));
            }
        }
    }
    assert forall|i: int| 0 <= i < f.len() implies #[trigger] f[i].len() == h.len() by {
        let j = choose|j: int| 0 <= j < dd.len() && f[i] == dd[j];
    }
    if !no_headers {
        assert(out == seq![h] + f);
        assert(header_row(out) == h);
        assert(data_rows(out, false) =~= f);
        assert forall|i: int| 0 <= i < out.len() implies #[trigger] out[i].len() == out[0].len() by {
            if i > 0 {
                assert(out[i] == f[i - 1]);
            }
        }
        lemma_filtered_fixed(f, sel, p, false);
        assert(header_output(out, false, None) + body_output(
            data_rows(out, false),
            sel,
            p,
            false,
            None,
        ) =~= out);
    } else {
        assert(out =~= f);
        assert(data_rows(out, true) == out);
        let h2 = header_row(out);
        if out.len() > 0 {
            assert(h2 == f[0]);
            assert(h2.len() == h.len());
            assert forall|k: int| 0 <= k < specs.len() implies position_of(h2, #[trigger] specs[k])
                == position_of(h, specs[k]) by {
                assert(specs[k] is Position);
            }
            assert(selection(h2, specs) =~= sel);
            assert(all_resolved(h2, specs));
            assert forall|i: int| 0 <= i < out.len() implies #[trigger] out[i].len()
                == out[0].len() by {}
            lemma_filtered_fixed(f, sel, p, false);
        } else {
            assert(specs.len() == 0);
            assert(all_resolved(h2, specs));
            assert(filtered(out, selection(h2, specs), p, false) =~= out);
        }
        assert(header_output(out, true, None) + body_output(
            data_rows(out, true),
            selection(h2, specs),
            p,
            false,
            None,
        ) =~= out);
    }
}

proof fn lemma_decimal_len(n: nat)
    ensures
        decimal(n).len() >= 1,
        n >= 10 ==> decimal(n).len() >= 2,
    decreases n,
{
    if n >= 10 {
        lemma_decimal_len(n / 10);
    }
}

proof fn lemma_decimal_not_zero(n: nat)
    requires
        n >= 1,
    ensures
        decimal(n) != seq![48u8],
{
    lemma_decimal_len(n);
    if n < 10 {
        assert(decimal(n)[0] != 48u8);
    } else {
        assert(decimal(n).len() != seq![48u8].len());
    }
}

proof fn lemma_ragged_unique(t: TableView, k1: int, k2: int)
    requires
        first_ragged(t, k1),
        first_ragged(t, k2),
    ensures
        k1 == k2,
{
    if k1 < k2 {
        assert(t[k1].len() == t[0].len());
    } else if k2 < k1 {
        assert(t[k2].len() == t[0].len());
    }
}

proof fn lemma_unresolved_unique(h: RecordView, specs: Seq<ColumnSpec>, j1: int, j2: int)
    requires
        first_unresolved(h, specs, j1),
        first_unresolved(h, specs, j2),
    ensures
        j1 == j2,
{
    if j1 < j2 {
        assert(position_of(h, specs[j1]) >= 0);
    } else if j2 < j1 {
        assert(position_of(h, specs[j2]) >= 0);
    }
}

/// In flag mode, inverting the match changes nothing but the flag field: both searches end
/// alike and write as many records; the header is the same, every data record keeps its
/// fields, and its flag swaps between its row number and `0`.
pub proof fn law_flag_invert_swaps(
    t: TableView,
    no_headers: bool,
    specs: Seq<ColumnSpec>,
    p: PatternView,
    flag: Seq<u8>,
    a: TableView,
    ra: Result<(), EngineError>,
    b: TableView,
    rb: Result<(), EngineError>,
)
    requires
        search_result(t, no_headers, specs, p, false, Some(flag), a, ra),
        search_result(t, no_headers, specs, p, true, Some(flag), b, rb),
    ensures
        ra == rb,
        a.len() == b.len(),
        ({
            let hl = header_output(t, no_headers, Some(flag)).len();
            &&& forall|i: int| 0 <= i < hl && i < a.len() ==> #[trigger] a[i] == b[i]
            &&& forall|i: int|
                hl <= i < a.len() ==> {
                    &&& #[trigger] a[i].drop_last() == b[i].drop_last()
                    &&& (a[i].last() == seq![48u8] <==> b[i].last() == decimal((i - hl + 1) as nat))
                    &&& (a[i].last() == decimal((i - hl + 1) as nat) <==> b[i].last() == seq![48u8])
                }
        }),
{
    let h = header_row(t);
    let sel = selection(h, specs);
    let d = data_rows(t, no_headers);
    let ho = header_output(t, no_headers, Some(flag));
    if !all_resolved(h, specs) {
        lemma_unresolved_unique(
            h,
            specs,
            ra->Err_0->ColumnNotFound_entry as int,
            rb->Err_0->ColumnNotFound_entry as int,
        );
        assert(ra->Err_0 == rb->Err_0);
    } else {
        let dd = if uniform(t) {
            d
        } else {
            lemma_ragged_unique(t, ra->Err_0->Parse_record as int, rb->Err_0->Parse_record as int);
            assert(ra->Err_0 == rb->Err_0);
            d.take(ra->Err_0->Parse_record - data_start(t, no_headers))
        };
        if uniform(t) {
            assert(ra->Ok_0 == rb->Ok_0);
        }
        let fa = flagged(dd, sel, p, false);
        let fb = flagged(dd, sel, p, true);
        assert(a == ho + fa);
        assert(b == ho + fb);
        assert forall|i: int| ho.len() <= i < a.len() implies {
            &&& #[trigger] a[i].drop_last() == b[i].drop_last()
            &&& (a[i].last() == seq![48u8] <==> b[i].last() == decimal((i - ho.len() + 1) as nat))
            &&& (a[i].last() == decimal((i - ho.len() + 1) as nat) <==> b[i].last() == seq![48u8])
        } by {
            let k = i - ho.len();
            assert(a[i] == fa[k]);
            assert(b[i] == fb[k]);
            assert(fa[k].drop_last() =~= dd[k]);
            assert(fb[k].drop_last() =~= dd[k]);
            lemma_decimal_not_zero((k + 1) as nat);
        }
    }
}

} // verus!
