use vstd::prelude::*;

use crate::cell::CellView;
use crate::text::ascii_lower_seq;

verus! {

/// What a cell contributes to the searchable text of its row: the text of
/// the cluster that starts in it (a space otherwise) and how many columns
/// to move on.
pub open spec fn cell_piece(c: CellView) -> (Seq<char>, int) {
    match c.grapheme {
        Some(g) if g.index == 0 => (g.text, if g.width >= 1 {
            g.width as int
        } else {
            1
        }),
        _ => (seq![' '], 1),
    }
}

/// Scans a grid row from column `col`: the row's text so far and, for each
/// piece of it, the text offset where it starts and its column.
pub open spec fn scan_row(
    cells: Seq<CellView>,
    row_off: int,
    vw: int,
    col: int,
    text: Seq<char>,
    pieces: Seq<(int, int)>,
) -> (Seq<char>, Seq<(int, int)>)
    decreases if vw > col {
        vw - col
    } else {
        0
    },
{
    if col >= vw {
        (text, pieces)
    } else {
        let p = cell_piece(cells[row_off + col]);
        let step = if p.1 >= 1 {
            p.1
        } else {
            1
        };
        scan_row(cells, row_off, vw, col + step, text + p.0, pieces.push((text.len() as int, col)))
    }
}

/// `q` occurs in `text` at offset `k`.
pub open spec fn occurs_at(text: Seq<char>, q: Seq<char>, k: int) -> bool {
    0 <= k && k + q.len() <= text.len() && text.subrange(k, k + q.len()) == q
}

/// The first occurrence of `q` at or after `from`.
#[verifier::opaque]
pub open spec fn first_occurrence(text: Seq<char>, q: Seq<char>, from: int) -> Option<int> {
    if exists|k: int| from <= k && occurs_at(text, q, k) {
        Some(
            choose|k: int|
                from <= k && occurs_at(text, q, k) && forall|j: int|
                    from <= j < k ==> !occurs_at(text, q, j),
        )
    } else {
        None
    }
}

/// The first occurrence is the least offset where `q` occurs.
pub proof fn lemma_first_occurrence_is(text: Seq<char>, q: Seq<char>, from: int, k: int)
    requires
        from <= k,
        occurs_at(text, q, k),
        forall|j: int| from <= j < k ==> !occurs_at(text, q, j),
    ensures
        first_occurrence(text, q, from) == Some(k),
{
    reveal(first_occurrence);
    assert(exists|c: int| from <= c && occurs_at(text, q, c));
    let c = choose|c: int|
        from <= c && occurs_at(text, q, c) && forall|j: int| from <= j < c ==> !occurs_at(text, q, j);
    assert(from <= k && occurs_at(text, q, k) && forall|j: int|
        from <= j < k ==> !occurs_at(text, q, j));
    assert(c == k) by {
        if c < k {
            assert(!occurs_at(text, q, c));
        }
        if c > k {
            assert(!occurs_at(text, q, k));
        }
    }
}

/// Offsets of the non-overlapping occurrences of a non-empty `q`, leftmost
/// first, searching from `from`.
pub open spec fn occurrences_from(text: Seq<char>, q: Seq<char>, from: int) -> Seq<int>
    decreases text.len() + 1 - from,
{
    if q.len() == 0 || from > text.len() || from < 0 {
        Seq::empty()
    } else {
        match first_occurrence(text, q, from) {
            None => Seq::empty(),
            Some(k) => if from <= k && k + q.len() <= text.len() {
                seq![k] + occurrences_from(text, q, k + q.len())
            } else {
                Seq::empty()
            },
        }
    }
}

/// Column of the last piece starting at or before text offset `pos` (0 if
/// none).
pub open spec fn col_at_or_before(pieces: Seq<(int, int)>, pos: int) -> int
    decreases pieces.len(),
{
    if pieces.len() == 0 {
        0
    } else if pieces.last().0 <= pos {
        pieces.last().1
    } else {
        col_at_or_before(pieces.drop_last(), pos)
    }
}

/// Column of the first piece starting at or after text offset `pos`
/// (`vw` if none).
pub open spec fn col_at_or_after(pieces: Seq<(int, int)>, pos: int, vw: int) -> int
    decreases pieces.len(),
{
    if pieces.len() == 0 {
        vw
    } else if pieces[0].0 >= pos {
        pieces[0].1
    } else {
        col_at_or_after(pieces.drop_first(), pos, vw)
    }
}

/// A found occurrence at `k`, the first from `from`, is followed by the
/// occurrences after it.
pub proof fn lemma_occurrences_next(text: Seq<char>, q: Seq<char>, from: int, k: int)
    requires
        q.len() >= 1,
        0 <= from <= k,
        occurs_at(text, q, k),
        first_occurrence(text, q, from) == Some(k),
    ensures
        occurrences_from(text, q, from) == seq![k] + occurrences_from(text, q, k + q.len()),
{
}

/// No occurrence from `from` on: nothing more to find.
pub proof fn lemma_occurrences_none(text: Seq<char>, q: Seq<char>, from: int)
    requires
        first_occurrence(text, q, from) is None,
    ensures
        occurrences_from(text, q, from) == Seq::<int>::empty(),
{
}

/// The highlighted span of the match at text offset `k`: the columns of the
/// pieces it covers, at least one column wide.
pub open spec fn match_span(pieces: Seq<(int, int)>, k: int, qlen: int, vw: int) -> (int, int) {
    let s = col_at_or_before(pieces, k);
    let e = col_at_or_after(pieces, k + qlen, vw);
    (s, if e >= s + 1 {
        e
    } else {
        s + 1
    })
}

/// The find matches of grid row `row`: ASCII case-insensitive occurrences
/// of `q` (already lower case) in the row's text, as column spans.
pub open spec fn row_matches(cells: Seq<CellView>, vw: int, row: int, q: Seq<char>) -> Seq<
    (usize, usize, usize),
> {
    let scanned = scan_row(cells, row * vw, vw, 0, Seq::empty(), Seq::empty());
    match_entries(occurrences_from(ascii_lower_seq(scanned.0), q, 0), scanned.1, q.len() as int, vw, row)
}

/// One `(row, start column, end column)` entry per match offset.
pub open spec fn match_entries(occ: Seq<int>, pieces: Seq<(int, int)>, qlen: int, vw: int, row: int) -> Seq<(usize, usize, usize)> {
    occ.map_values(|k: int| match_entry(pieces, k, qlen, vw, row))
}

pub open spec fn match_entry(pieces: Seq<(int, int)>, k: int, qlen: int, vw: int, row: int) -> (usize, usize, usize) {
    let sp = match_span(pieces, k, qlen, vw);
    (row as usize, sp.0 as usize, sp.1 as usize)
}

/// The text grid row `row` is searched in.
pub open spec fn row_text(cells: Seq<CellView>, vw: int, row: int) -> Seq<char> {
    scan_row(cells, row * vw, vw, 0, Seq::empty(), Seq::empty()).0
}

/// Find reports a match on a row exactly when the query, ASCII lower-cased,
/// occurs in the row's text, ASCII lower-cased: upper-case letters on the
/// page match lower-case ones in the query and the other way round.
pub proof fn lemma_row_match_iff_occurs(cells: Seq<CellView>, vw: int, row: int, q: Seq<char>)
    requires
        q.len() >= 1,
    ensures
        row_matches(cells, vw, row, ascii_lower_seq(q)).len() > 0 <==> exists|k: int|
            occurs_at(ascii_lower_seq(row_text(cells, vw, row)), ascii_lower_seq(q), k),
{
    let scanned = scan_row(cells, row * vw, vw, 0, Seq::empty(), Seq::empty());
    let t = ascii_lower_seq(scanned.0);
    let lq = ascii_lower_seq(q);
    assert(lq.len() == q.len());
    lemma_occurrences_exist(t, lq);
    let occ = occurrences_from(t, lq, 0);
    assert(row_text(cells, vw, row) == scanned.0);
    assert(row_matches(cells, vw, row, lq) == match_entries(occ, scanned.1, lq.len() as int, vw, row));
    assert(match_entries(occ, scanned.1, lq.len() as int, vw, row).len() == occ.len());
}

/// Some occurrence is found exactly when the query occurs somewhere.
proof fn lemma_occurrences_exist(t: Seq<char>, q: Seq<char>)
    requires
        q.len() >= 1,
    ensures
        occurrences_from(t, q, 0).len() > 0 <==> exists|k: int| occurs_at(t, q, k),
{
    if exists|k: int| occurs_at(t, q, k) {
        let k = choose|k: int| occurs_at(t, q, k);
        lemma_least_occurrence(t, q, k);
        let c = choose|c: int|
            0 <= c <= k && occurs_at(t, q, c) && forall|j: int| 0 <= j < c ==> !occurs_at(t, q, j);
        lemma_first_occurrence_is(t, q, 0, c);
        lemma_occurrences_next(t, q, 0, c);
    } else {
        assert(first_occurrence(t, q, 0) is None) by {
            reveal(first_occurrence);
        }
        lemma_occurrences_none(t, q, 0);
    }
}

/// An occurrence at `k` has a first occurrence at or before it.
proof fn lemma_least_occurrence(t: Seq<char>, q: Seq<char>, k: int)
    requires
        occurs_at(t, q, k),
    ensures
        exists|c: int| 0 <= c <= k && occurs_at(t, q, c) && forall|j: int| 0 <= j < c ==> !occurs_at(t, q, j),
    decreases k,
{
    if exists|j: int| 0 <= j < k && occurs_at(t, q, j) {
        let j = choose|j: int| 0 <= j < k && occurs_at(t, q, j);
        lemma_least_occurrence(t, q, j);
    } else {
        assert(0 <= k <= k && occurs_at(t, q, k) && forall|j: int| 0 <= j < k ==> !occurs_at(t, q, j));
    }
}

/// Two grids that differ at most in the ASCII case of their text.
pub open spec fn case_variants(a: Seq<CellView>, b: Seq<CellView>) -> bool {
    &&& a.len() == b.len()
    &&& forall|i: int|
        0 <= i < a.len() ==> match ((#[trigger] a[i]).grapheme, b[i].grapheme) {
            (None, None) => true,
            (Some(g), Some(h)) => g.index == h.index && g.width == h.width && ascii_lower_seq(g.text)
                == ascii_lower_seq(h.text),
            _ => false,
        }
}

proof fn lemma_lower_concat(a: Seq<char>, b: Seq<char>)
    ensures
        ascii_lower_seq(a + b) == ascii_lower_seq(a) + ascii_lower_seq(b),
{
    assert(ascii_lower_seq(a + b) =~= ascii_lower_seq(a) + ascii_lower_seq(b));
}

proof fn lemma_scan_case(
    a: Seq<CellView>,
    b: Seq<CellView>,
    row_off: int,
    vw: int,
    col: int,
    ta: Seq<char>,
    tb: Seq<char>,
    pieces: Seq<(int, int)>,
)
    requires
        case_variants(a, b),
        0 <= row_off,
        row_off + vw <= a.len(),
        0 <= col,
        ascii_lower_seq(ta) == ascii_lower_seq(tb),
    ensures
        scan_row(a, row_off, vw, col, ta, pieces).1 == scan_row(b, row_off, vw, col, tb, pieces).1,
        ascii_lower_seq(scan_row(a, row_off, vw, col, ta, pieces).0) == ascii_lower_seq(
            scan_row(b, row_off, vw, col, tb, pieces).0,
        ),
    decreases if vw > col {
        vw - col
    } else {
        0
    },
{
    if col < vw {
        let ca = a[row_off + col];
        let cb = b[row_off + col];
        let pa = cell_piece(ca);
        let pb = cell_piece(cb);
        assert(ascii_lower_seq(pa.0) == ascii_lower_seq(pb.0) && pa.1 == pb.1);
        assert(ta.len() == ascii_lower_seq(ta).len() && tb.len() == ascii_lower_seq(tb).len());
        lemma_lower_concat(ta, pa.0);
        lemma_lower_concat(tb, pb.0);
        let step = if pa.1 >= 1 {
            pa.1
        } else {
            1
        };
        lemma_scan_case(a, b, row_off, vw, col + step, ta + pa.0, tb + pb.0, pieces.push((ta.len() as int, col)));
    }
}

/// Find ignores the ASCII case of the page: two grids that differ only in
/// the case of their letters give the same matches on every row.
pub proof fn lemma_matches_ignore_page_case(
    a: Seq<CellView>,
    b: Seq<CellView>,
    vw: int,
    row: int,
    q: Seq<char>,
)
    requires
        case_variants(a, b),
        0 <= row,
        0 <= vw,
        row * vw + vw <= a.len(),
    ensures
        row_matches(a, vw, row, q) == row_matches(b, vw, row, q),
{
    assert(0 <= row * vw) by (nonlinear_arith)
        requires
            0 <= row,
            0 <= vw,
    ;
    lemma_scan_case(a, b, row * vw, vw, 0, Seq::empty(), Seq::empty(), Seq::empty());
}

/// The find matches of grid rows `1..=rows`, row by row.
pub open spec fn matches_upto(cells: Seq<CellView>, vw: int, rows: int, q: Seq<char>) -> Seq<
    (usize, usize, usize),
>
    decreases rows,
{
    if rows <= 0 {
        Seq::empty()
    } else {
        matches_upto(cells, vw, rows - 1, q) + row_matches(cells, vw, rows, q)
    }
}

/// The first occurrence of `q` in `text` at or after `from`.
pub fn find_from(text: &Vec<char>, q: &Vec<char>, from: usize) -> (r: Option<usize>)
    requires
        from <= text.len(),
    ensures
        match r {
            Some(k) => first_occurrence(text@, q@, from as int) == Some(k as int) && from <= k
                && occurs_at(text@, q@, k as int),
            None => first_occurrence(text@, q@, from as int) is None,
        },
{
    reveal(first_occurrence);
    let n = text.len();
    let m = q.len();
    if m > n {
        assert forall|j: int| from <= j implies !occurs_at(text@, q@, j) by {}
        return None;
    }
    let mut k = from;
    while k <= n - m
        invariant
            m <= n,
            from <= k,
            n == text@.len(),
            m == q@.len(),
            forall|j: int| from <= j < k ==> !occurs_at(text@, q@, j),
        decreases n - k,
    {
        let mut i: usize = 0;
        let mut same = true;
        while i < m
            invariant
                k + m <= n,
                n == text@.len(),
                m == q@.len(),
                i <= m,
                same == forall|t: int| 0 <= t < i ==> text@[k + t] == q@[t],
            decreases m - i,
        {
            if text[k + i] != q[i] {
                same = false;
            }
            i = i + 1;
        }
        if same {
            assert(text@.subrange(k as int, k + m) =~= q@);
            assert(occurs_at(text@, q@, k as int));
            proof {
                lemma_first_occurrence_is(text@, q@, from as int, k as int);
            }
            return Some(k);
        }
        assert(!occurs_at(text@, q@, k as int)) by {
            if occurs_at(text@, q@, k as int) {
                let t = choose|t: int| 0 <= t < m && text@[k + t] != q@[t];
                assert(text@.subrange(k as int, k + m)[t] == text@[k + t]);
            }
        }
        k = k + 1;
    }
    assert forall|j: int| from <= j implies !occurs_at(text@, q@, j) by {
        if j >= k {
            assert(j + m > n);
        }
    }
    None
}


pub open spec fn pieces_view(v: Seq<(usize, usize)>) -> Seq<(int, int)> {
    v.map_values(|p: (usize, usize)| (p.0 as int, p.1 as int))
}

/// Column of the last piece starting at or before `pos`.
pub fn col_before(pieces: &Vec<(usize, usize)>, pos: usize) -> (c: usize)
    ensures
        c == col_at_or_before(pieces_view(pieces@), pos as int),
{
    let mut k = pieces.len();
    assert(pieces@.take(k as int) =~= pieces@);
    while k > 0
        invariant
            k <= pieces@.len(),
            col_at_or_before(pieces_view(pieces@), pos as int) == col_at_or_before(
                pieces_view(pieces@.take(k as int)),
                pos as int,
            ),
        decreases k,
    {
        let p = pieces[k - 1];
        assert(pieces_view(pieces@.take(k as int)).last() == (p.0 as int, p.1 as int));
        assert(pieces_view(pieces@.take(k as int)).drop_last() =~= pieces_view(
            pieces@.take(k - 1),
        ));
        if p.0 <= pos {
            return p.1;
        }
        k = k - 1;
    }
    assert(pieces_view(pieces@.take(0)) =~= Seq::<(int, int)>::empty());
    0
}

/// Column of the first piece starting at or after `pos`, `vw` if none.
pub fn col_after(pieces: &Vec<(usize, usize)>, pos: usize, vw: usize) -> (c: usize)
    ensures
        c == col_at_or_after(pieces_view(pieces@), pos as int, vw as int),
{
    let mut k: usize = 0;
    assert(pieces@.skip(0) =~= pieces@);
    while k < pieces.len()
        invariant
            k <= pieces@.len(),
            col_at_or_after(pieces_view(pieces@), pos as int, vw as int) == col_at_or_after(
                pieces_view(pieces@.skip(k as int)),
                pos as int,
                vw as int,
            ),
        decreases pieces@.len() - k,
    {
        let p = pieces[k];
        assert(pieces_view(pieces@.skip(k as int))[0] == (p.0 as int, p.1 as int));
        assert(pieces_view(pieces@.skip(k as int)).drop_first() =~= pieces_view(
            pieces@.skip(k + 1),
        ));
        if p.0 >= pos {
            return p.1;
        }
        k = k + 1;
    }
    assert(pieces_view(pieces@.skip(k as int)) =~= Seq::<(int, int)>::empty());
    vw
}

} // verus!
