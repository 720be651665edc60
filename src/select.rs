use vstd::prelude::*;

use crate::error::EngineError;
use crate::record::RecordView;

verus! {

/// One entry of a column selection.
#[derive(Debug, Clone, PartialEq, Eq)]
pub enum ColumnSpec {
    /// The first column whose header field is exactly these bytes.
    Name(Vec<u8>),
    /// A column by its 1-based position.
    Position(usize),
}

/// Index of the first field of `header` equal to `name`, or -1.
pub open spec fn first_index(header: RecordView, name: Seq<u8>) -> int
    decreases header.len(),
{
    if header.len() == 0 {
        -1
    } else {
        let k = first_index(header.drop_last(), name);
        if k >= 0 {
            k
        } else if header.last() == name {
            header.len() - 1
        } else {
            -1
        }
    }
}

/// The 0-based column that `c` picks in `header`, or -1 when it picks none.
pub open spec fn position_of(header: RecordView, c: ColumnSpec) -> int {
    match c {
        ColumnSpec::Name(n) => first_index(header, n@),
        ColumnSpec::Position(p) => if 1 <= p <= header.len() {
            p - 1
        } else {
            -1
        },
    }
}

/// Entry `j` is the first of `specs` that picks no column of `header`.
pub open spec fn first_unresolved(header: RecordView, specs: Seq<ColumnSpec>, j: int) -> bool {
    &&& 0 <= j < specs.len()
    &&& position_of(header, specs[j]) < 0
    &&& forall|k: int| 0 <= k < j ==> position_of(header, #[trigger] specs[k]) >= 0
}

/// Every entry of `specs` picks a column of `header`.
pub open spec fn all_resolved(header: RecordView, specs: Seq<ColumnSpec>) -> bool {
    forall|k: int| 0 <= k < specs.len() ==> position_of(header, #[trigger] specs[k]) >= 0
}

/// The positions a selection stands for: every column when it is empty, else one per entry.
pub open spec fn selection(header: RecordView, specs: Seq<ColumnSpec>) -> Seq<int> {
    if specs.len() == 0 {
        Seq::new(header.len(), |i: int| i)
    } else {
        Seq::new(specs.len(), |j: int| position_of(header, specs[j]))
    }
}

proof fn lemma_first_index_prefix(header: RecordView, name: Seq<u8>, j: int)
    requires
        0 <= j < header.len(),
    ensures
        first_index(header.take(j + 1), name) == (if first_index(header.take(j), name) >= 0 {
            first_index(header.take(j), name)
        } else if header[j] == name {
            j
        } else {
            -1
        }),
{
    assert(header.take(j + 1).drop_last() =~= header.take(j));
}

proof fn lemma_first_index_found(header: RecordView, name: Seq<u8>, j: int)
    requires
        0 <= j <= header.len(),
        first_index(header.take(j), name) >= 0,
    ensures
        first_index(header, name) == first_index(header.take(j), name),
    decreases header.len() - j,
{
    if j < header.len() {
        lemma_first_index_prefix(header, name, j);
        lemma_first_index_found(header, name, j + 1);
    } else {
        assert(header.take(j) =~= header);
    }
}

proof fn lemma_first_index_range(header: RecordView, name: Seq<u8>)
    ensures
        -1 <= first_index(header, name) < header.len(),
        first_index(header, name) >= 0 ==> header[first_index(header, name)] == name,
    decreases header.len(),
{
    if header.len() > 0 {
        lemma_first_index_range(header.drop_last(), name);
    }
}

/// Position of the first field of `header` equal to `name`.
fn find_name(header: &Vec<Vec<u8>>, name: &Vec<u8>) -> (r: Option<usize>)
    ensures
        r is None <==> first_index(header.deep_view(), name@) < 0,
        r is Some ==> r->Some_0 == first_index(header.deep_view(), name@),
{
    let ghost h = header.deep_view();
    let mut j: usize = 0;
    while j < header.len()
        invariant
            h == header.deep_view(),
            j <= header.len(),
            first_index(h.take(j as int), name@) < 0,
        decreases header.len() - j,
    {
        proof {
            lemma_first_index_prefix(h, name@, j as int);
            assert(h[j as int] == header@[j as int]@);
        }
        if bytes_equal(&header[j], name) {
            proof {
                lemma_first_index_found(h, name@, j as int + 1);
            }
            return Some(j);
        }
        j = j + 1;
    }
    proof {
        assert(h.take(j as int) =~= h);
    }
    None
}

/// Whether two byte strings are equal.
pub fn bytes_equal(a: &Vec<u8>, b: &Vec<u8>) -> (r: bool)
    ensures
        r == (a@ == b@),
{
    if a.len() != b.len() {
        return false;
    }
    let mut i: usize = 0;
    while i < a.len()
        invariant
            a.len() == b.len(),
            i <= a.len(),
            forall|k: int| 0 <= k < i ==> a@[k] == b@[k],
        decreases a.len() - i,
    {
        if a[i] != b[i] {
            return false;
        }
        i = i + 1;
    }
    proof {
        assert(a@ =~= b@);
    }
    true
}

/// Resolves a selection against a header row once, before any record is examined. An empty
/// selection picks every column in order; an entry that picks nothing is `ColumnNotFound`.
pub fn resolve_selection(header: &Vec<Vec<u8>>, specs: &Vec<ColumnSpec>) -> (r: Result<
    Vec<usize>,
    EngineError,
>)
    ensures
        r is Ok <==> all_resolved(header.deep_view(), specs@),
        r is Ok ==> r->Ok_0@.map_values(|p: usize| p as int) == selection(header.deep_view(), specs@),
        r is Ok ==> forall|k: int| 0 <= k < r->Ok_0@.len() ==> #[trigger] r->Ok_0@[k] < header@.len(),
        r is Err ==> r->Err_0 is ColumnNotFound && first_unresolved(
            header.deep_view(),
            specs@,
            r->Err_0->ColumnNotFound_entry as int,
        ),
{
    let ghost h = header.deep_view();
    let mut out: Vec<usize> = Vec::new();
    if specs.len() == 0 {
        let mut i: usize = 0;
        while i < header.len()
            invariant
                i <= header.len(),
                out@.len() == i,
                forall|k: int| 0 <= k < i ==> out@[k] == k,
            decreases header.len() - i,
        {
            out.push(i);
            i = i + 1;
        }
        proof {
            assert(out@.map_values(|p: usize| p as int) =~= selection(h, specs@));
        }
        return Ok(out);
    }
    let mut j: usize = 0;
    while j < specs.len()
        invariant
            h == header.deep_view(),
            specs@.len() > 0,
            j <= specs.len(),
            out@.len() == j,
            forall|k: int| 0 <= k < j ==> position_of(h, #[trigger] specs@[k]) >= 0,
            forall|k: int| 0 <= k < j ==> out@[k] == position_of(h, #[trigger] specs@[k]),
            forall|k: int| 0 <= k < j ==> #[trigger] out@[k] < header@.len(),
        decreases specs.len() - j,
    {
        let p: Option<usize> = match &specs[j] {
            ColumnSpec::Name(n) => {
                proof {
                    lemma_first_index_range(h, n@);
                }
                find_name(header, n)
            },
            ColumnSpec::Position(p) => {
                if 1 <= *p && *p <= header.len() {
                    Some(*p - 1)
                } else {
                    None
                }
            },
        };
        match p {
            Some(v) => {
                out.push(v);
            },
            None => {
                return Err(EngineError::ColumnNotFound { entry: j });
            },
        }
        j = j + 1;
    }
    proof {
        assert(out@.map_values(|p: usize| p as int) =~= selection(h, specs@));
    }
    Ok(out)
}

/// The pieces of `s` between commas, in order.
pub open spec fn split_commas(s: Seq<u8>) -> Seq<Seq<u8>>
    decreases s.len(),
{
    if s.len() == 0 {
        seq![Seq::empty()]
    } else {
        let p = split_commas(s.drop_last());
        if s.last() == 44 {
            p.push(Seq::empty())
        } else {
            p.update(p.len() - 1, p.last().push(s.last()))
        }
    }
}

/// `s` is a non-empty run of ASCII digits.
pub open spec fn all_digits(s: Seq<u8>) -> bool {
    s.len() > 0 && forall|i: int| 0 <= i < s.len() ==> 48 <= #[trigger] s[i] <= 57
}

/// The number that the ASCII digits `s` spell.
pub open spec fn digits_value(s: Seq<u8>) -> nat
    decreases s.len(),
{
    if s.len() == 0 {
        0
    } else {
        digits_value(s.drop_last()) * 10 + (s.last() - 48) as nat
    }
}

/// `c` is what the selection token `tok` stands for: a 1-based position when it is a number
/// that fits, else a column name.
pub open spec fn token_means(tok: Seq<u8>, c: ColumnSpec) -> bool {
    if all_digits(tok) && digits_value(tok) <= usize::MAX {
        c == ColumnSpec::Position(digits_value(tok) as usize)
    } else {
        c is Name && c->Name_0@ == tok
    }
}

proof fn lemma_split_nonempty(s: Seq<u8>)
    ensures
        split_commas(s).len() >= 1,
    decreases s.len(),
{
    if s.len() > 0 {
        lemma_split_nonempty(s.drop_last());
    }
}

/// What one selection token stands for.
fn token_to_spec(tok: Vec<u8>) -> (c: ColumnSpec)
    ensures
        token_means(tok@, c),
{
    let ghost tv = tok@;
    if tok.len() == 0 {
        return ColumnSpec::Name(tok);
    }
    let mut v: usize = 0;
    let mut i: usize = 0;
    while i < tok.len()
        invariant
            tv == tok@,
            i <= tok.len(),
            forall|k: int| 0 <= k < i ==> 48 <= #[trigger] tv[k] <= 57,
            v == digits_value(tv.take(i as int)),
        decreases tok.len() - i,
    {
        let b = tok[i];
        if b < 48 || b > 57 {
            return ColumnSpec::Name(tok);
        }
        proof {
            assert(tv.take(i as int + 1).drop_last() =~= tv.take(i as int));
        }
        let next = match v.checked_mul(10) {
            Some(m) => m.checked_add((b - 48) as usize),
            None => None,
        };
        match next {
            Some(n) => {
                v = n;
            },
            None => {
                proof {
                    if all_digits(tv) {
                        lemma_digits_monotone(tv, i as int + 1);
                    }
                }
                return ColumnSpec::Name(tok);
            },
        }
        i = i + 1;
    }
    proof {
        assert(tv.take(i as int) =~= tv);
    }
    ColumnSpec::Position(v)
}

proof fn lemma_digits_monotone(s: Seq<u8>, j: int)
    requires
        0 <= j <= s.len(),
        forall|i: int| 0 <= i < s.len() ==> 48 <= #[trigger] s[i] <= 57,
    ensures
        digits_value(s.take(j)) <= digits_value(s),
    decreases s.len() - j,
{
    if j < s.len() {
        assert(s.take(j + 1).drop_last() =~= s.take(j));
        lemma_digits_monotone(s, j + 1);
    } else {
        assert(s.take(j) =~= s);
    }
}

/// Reads a selection written as comma-separated column names and 1-based positions. The
/// empty text selects every column.
pub fn parse_selection(text: &[u8]) -> (r: Vec<ColumnSpec>)
    ensures
        text@.len() == 0 ==> r@.len() == 0,
        text@.len() > 0 ==> r@.len() == split_commas(text@).len() && forall|k: int|
            0 <= k < r@.len() ==> token_means(split_commas(text@)[k], #[trigger] r@[k]),
{
    let mut out: Vec<ColumnSpec> = Vec::new();
    if text.len() == 0 {
        return out;
    }
    let ghost tv = text@;
    let mut cur: Vec<u8> = Vec::new();
    let mut i: usize = 0;
    while i < text.len()
        invariant
            tv == text@,
            i <= text.len(),
            split_commas(tv.take(i as int)).len() == out@.len() + 1,
            split_commas(tv.take(i as int)).last() == cur@,
            forall|k: int|
                0 <= k < out@.len() ==> token_means(
                    split_commas(tv.take(i as int))[k],
                    #[trigger] out@[k],
                ),
        decreases text.len() - i,
    {
        proof {
            assert(tv.take(i as int + 1).drop_last() =~= tv.take(i as int));
            lemma_split_nonempty(tv.take(i as int));
        }
        let b = text[i];
        if b == 44 {
            let tok = cur;
            let c = token_to_spec(tok);
            out.push(c);
            cur = Vec::new();
        } else {
            cur.push(b);
        }
        i = i + 1;
    }
    proof {
        assert(tv.take(i as int) =~= tv);
    }
    let c = token_to_spec(cur);
    out.push(c);
    out
}

} // verus!
