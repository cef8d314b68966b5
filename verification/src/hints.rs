use vstd::prelude::*;

use crate::gfx::Color;
use crate::text::{has_prefix, push_char};

verus! {

pub open spec fn abs_diff(a: u8, b: u8) -> int {
    if a >= b {
        a - b
    } else {
        b - a
    }
}

/// Manhattan distance between two colors in RGB space.
pub open spec fn color_dist(a: Color, b: Color) -> int {
    abs_diff(a.r, b.r) + abs_diff(a.g, b.g) + abs_diff(a.b, b.b)
}

fn channel_diff(a: u8, b: u8) -> (d: u32)
    ensures
        d == abs_diff(a, b),
{
    if a >= b {
        (a - b) as u32
    } else {
        (b - a) as u32
    }
}

pub fn color_distance(a: Color, b: Color) -> (d: u32)
    ensures
        d == color_dist(a, b),
{
    channel_diff(a.r, b.r) + channel_diff(a.g, b.g) + channel_diff(a.b, b.b)
}

/// The distance between colors is symmetric, and zero exactly between equal
/// colors.
pub proof fn lemma_color_dist_metric(a: Color, b: Color)
    ensures
        color_dist(a, b) == color_dist(b, a),
        color_dist(a, b) >= 0,
        color_dist(a, b) == 0 <==> a == b,
{
}

/// Largest label count for which every label letter is a byte value.
pub open spec fn max_hint_labels() -> int {
    107484
}

/// The character `'a' + d`.
pub open spec fn letter(d: int) -> char {
    (97 + d) as char
}

/// The `i`-th of `n` hint labels: one letter for up to 26 labels, two for
/// up to 26 * 26, three beyond.
pub open spec fn hint_label(i: int, n: int) -> Seq<char> {
    if n <= 26 {
        seq![letter(i)]
    } else if n <= 26 * 26 {
        seq![letter(i / 26), letter(i % 26)]
    } else {
        seq![letter(i / 676), letter((i / 26) % 26), letter(i % 26)]
    }
}

/// Up to 26 targets get one-letter labels, up to 676 two letters, more
/// three.
pub proof fn lemma_hint_label_length(i: int, n: int)
    ensures
        hint_label(i, n).len() == if n <= 26 {
            1int
        } else if n <= 676 {
            2int
        } else {
            3int
        },
{
}

fn letter_char(d: usize) -> (c: char)
    requires
        d <= 158,
    ensures
        c == letter(d as int),
{
    ((d as u8) + 97) as char
}

/// Labels for `n` hint targets, in target order.
pub fn make_hint_labels(n: usize) -> (labels: Vec<String>)
    requires
        n <= max_hint_labels(),
    ensures
        labels@.len() == n,
        forall|i: int| 0 <= i < n ==> #[trigger] labels@[i]@ == hint_label(i, n as int),
{
    let mut out: Vec<String> = Vec::new();
    if n == 0 {
        return out;
    }
    let mut i: usize = 0;
    while i < n
        invariant
            n <= max_hint_labels(),
            i <= n,
            out@.len() == i,
            forall|k: int| 0 <= k < i ==> #[trigger] out@[k]@ == hint_label(k, n as int),
        decreases n - i,
    {
        let mut s = String::new();
        if n <= 26 {
            push_char(&mut s, letter_char(i));
        } else if n <= 26 * 26 {
            assert(i / 26 < 26) by (nonlinear_arith)
                requires
                    i < n,
                    n <= 676,
            ;
            push_char(&mut s, letter_char(i / 26));
            push_char(&mut s, letter_char(i % 26));
        } else {
            assert(i / 676 <= 158) by (nonlinear_arith)
                requires
                    i < n,
                    n <= 159 * 676,
            ;
            push_char(&mut s, letter_char(i / 676));
            push_char(&mut s, letter_char((i / 26) % 26));
            push_char(&mut s, letter_char(i % 26));
        }
        assert(s@ =~= hint_label(i as int, n as int));
        out.push(s);
        i = i + 1;
    }
    out
}

/// Distinct targets get distinct labels, and since all labels of one call
/// have the same length, no label is a prefix of another: typing a whole
/// label always singles out its target.
pub proof fn lemma_hint_labels_prefix_free(n: int, i: int, j: int)
    requires
        0 <= i < n,
        0 <= j < n,
        i != j,
        n <= max_hint_labels(),
    ensures
        hint_label(i, n) != hint_label(j, n),
        hint_label(i, n).len() == hint_label(j, n).len(),
        !has_prefix(hint_label(j, n), hint_label(i, n)),
{
    if n <= 26 {
        assert(hint_label(i, n)[0] != hint_label(j, n)[0]);
    } else if n <= 676 {
        if i / 26 == j / 26 && i % 26 == j % 26 {
            assert(i == 26 * (i / 26) + i % 26) by (nonlinear_arith);
            assert(j == 26 * (j / 26) + j % 26) by (nonlinear_arith);
        }
        assert(0 <= i / 26 <= 26 && 0 <= j / 26 <= 26) by (nonlinear_arith)
            requires
                0 <= i < 676,
                0 <= j < 676,
        ;
        if i / 26 != j / 26 {
            assert(hint_label(i, n)[0] != hint_label(j, n)[0]);
        } else {
            assert(hint_label(i, n)[1] != hint_label(j, n)[1]);
        }
    } else {
        assert(i == 676 * (i / 676) + 26 * ((i / 26) % 26) + i % 26) by (nonlinear_arith)
            requires
                i >= 0,
        {
            assert(i == 26 * (i / 26) + i % 26);
            assert(i / 26 == 26 * ((i / 26) / 26) + (i / 26) % 26);
            assert((i / 26) / 26 == i / 676);
        }
        assert(j == 676 * (j / 676) + 26 * ((j / 26) % 26) + j % 26) by (nonlinear_arith)
            requires
                j >= 0,
        {
            assert(j == 26 * (j / 26) + j % 26);
            assert(j / 26 == 26 * ((j / 26) / 26) + (j / 26) % 26);
            assert((j / 26) / 26 == j / 676);
        }
        assert(0 <= i / 676 <= 158 && 0 <= j / 676 <= 158) by (nonlinear_arith)
            requires
                0 <= i < 159 * 676,
                0 <= j < 159 * 676,
        ;
        if i / 676 != j / 676 {
            assert(hint_label(i, n)[0] != hint_label(j, n)[0]);
        } else if (i / 26) % 26 != (j / 26) % 26 {
            assert(hint_label(i, n)[1] != hint_label(j, n)[1]);
        } else {
            assert(hint_label(i, n)[2] != hint_label(j, n)[2]);
        }
    }
    assert(hint_label(i, n).len() == hint_label(j, n).len());
    if has_prefix(hint_label(j, n), hint_label(i, n)) {
        assert(hint_label(j, n).take(hint_label(i, n).len() as int) == hint_label(j, n));
    }
}

} // verus!

verus! {

use crate::cell::CellView;
use crate::text::is_white_space;

/// The color a cell contributes to the page's text colors: that of a
/// cluster starting in it whose first character is not white space.
pub open spec fn text_color_of(c: CellView) -> Option<Color> {
    match c.grapheme {
        Some(g) => if g.index == 0 && g.text.len() > 0 && !is_white_space(g.text[0]) {
            Some(g.color)
        } else {
            None
        },
        None => None,
    }
}

/// Text colors of grid cells `off..off + n`, in order.
pub open spec fn row_text_colors(cells: Seq<CellView>, off: int, n: int) -> Seq<Color>
    decreases n,
{
    if n <= 0 {
        Seq::empty()
    } else {
        let prev = row_text_colors(cells, off, n - 1);
        match text_color_of(cells[off + n - 1]) {
            Some(c) => prev.push(c),
            None => prev,
        }
    }
}

/// Text colors of grid rows `1..=rows`, row by row.
pub open spec fn text_colors(cells: Seq<CellView>, vw: int, rows: int) -> Seq<Color>
    decreases rows,
{
    if rows <= 0 {
        Seq::empty()
    } else {
        text_colors(cells, vw, rows - 1) + row_text_colors(cells, rows * vw, vw)
    }
}

/// The distinct colors of `s` in order of first appearance, each with the
/// number of times it occurs.
pub open spec fn color_buckets(s: Seq<Color>) -> Seq<(Color, nat)>
    decreases s.len(),
{
    if s.len() == 0 {
        Seq::empty()
    } else {
        let b = color_buckets(s.drop_last());
        let c = s.last();
        if exists|i: int| 0 <= i < b.len() && b[i].0 == c {
            let i = choose|i: int| 0 <= i < b.len() && b[i].0 == c;
            b.update(i, (c, b[i].1 + 1))
        } else {
            b.push((c, 1))
        }
    }
}

/// Index of the last bucket with the largest count among the first `n`.
pub open spec fn last_max_index(b: Seq<(Color, nat)>, n: int) -> int
    decreases n,
{
    if n <= 1 {
        0
    } else {
        let m = last_max_index(b, n - 1);
        if b[n - 1].1 >= b[m].1 {
            n - 1
        } else {
            m
        }
    }
}

/// The most frequent text color; among equally frequent colors, the one
/// that first appears last.
pub open spec fn dominant_color(s: Seq<Color>) -> Option<Color> {
    let b = color_buckets(s);
    if b.len() == 0 {
        None
    } else {
        Some(b[last_max_index(b, b.len() as int)].0)
    }
}

/// Buckets hold distinct colors, each counted at most as often as there are
/// colors.
pub proof fn lemma_buckets_distinct(s: Seq<Color>)
    ensures
        forall|i: int, j: int|
            0 <= i < j < color_buckets(s).len() ==> color_buckets(s)[i].0 != color_buckets(s)[j].0,
        forall|i: int| 0 <= i < color_buckets(s).len() ==> color_buckets(s)[i].1 <= s.len(),
        color_buckets(s).len() == 0 <==> s.len() == 0,
    decreases s.len(),
{
    if s.len() > 0 {
        lemma_buckets_distinct(s.drop_last());
    }
}

/// A row's text span: `(row, start column, end column, color)`.
pub type Span = (u32, u32, u32, Color);

/// What a cell tells the span scanner: no text (or white space), or a text
/// color and how many columns to move on.
pub open spec fn span_info(c: CellView) -> Option<(Color, int)> {
    match c.grapheme {
        Some(g) => if g.index == 0 {
            if g.text.len() == 0 || is_white_space(g.text[0]) {
                None
            } else {
                Some((g.color, if g.width >= 1 {
                    g.width as int
                } else {
                    1
                }))
            }
        } else {
            Some((Color { r: 0, g: 0, b: 0 }, 1))
        },
        None => None,
    }
}

/// Scans a grid row from column `col` with the open span `current`: the
/// same-color runs of text, a new run starting at each color change (15 or
/// more apart) or white space.
pub open spec fn scan_spans(
    cells: Seq<CellView>,
    row: int,
    off: int,
    vw: int,
    col: int,
    current: Option<(int, Color)>,
    acc: Seq<Span>,
) -> Seq<Span>
    decreases if vw > col {
        vw - col
    } else {
        0
    },
{
    if col >= vw {
        match current {
            Some((start, color)) => acc.push((row as u32, start as u32, col as u32, color)),
            None => acc,
        }
    } else {
        match (current, span_info(cells[off + col])) {
            (Some((start, color)), Some((c, w))) => if color_dist(color, c) < 15 {
                scan_spans(cells, row, off, vw, col + w, current, acc)
            } else {
                scan_spans(
                    cells,
                    row,
                    off,
                    vw,
                    col + w,
                    Some((col, c)),
                    acc.push((row as u32, start as u32, col as u32, color)),
                )
            },
            (Some((start, color)), None) => scan_spans(
                cells,
                row,
                off,
                vw,
                col + 1,
                None,
                acc.push((row as u32, start as u32, col as u32, color)),
            ),
            (None, Some((c, w))) => scan_spans(cells, row, off, vw, col + w, Some((col, c)), acc),
            (None, None) => scan_spans(cells, row, off, vw, col + 1, None, acc),
        }
    }
}

/// The text spans of grid rows `1..=rows`, row by row.
pub open spec fn spans_upto(cells: Seq<CellView>, vw: int, rows: int) -> Seq<Span>
    decreases rows,
{
    if rows <= 0 {
        Seq::empty()
    } else {
        scan_spans(cells, rows, rows * vw, vw, 0, None, spans_upto(cells, vw, rows - 1))
    }
}

/// Merging adjacent same-color spans of one row separated by at most one
/// cell; a merged span keeps the color of its first part.
pub open spec fn merge_spans(spans: Seq<Span>) -> Seq<Span>
    decreases spans.len(),
{
    if spans.len() == 0 {
        Seq::empty()
    } else {
        let m = merge_spans(spans.drop_last());
        let s = spans.last();
        if m.len() > 0 && m.last().0 == s.0 && sat_sub_u32(s.1, m.last().2) <= 1 && color_dist(
            s.3,
            m.last().3,
        ) < 15 {
            m.update(m.len() - 1, (m.last().0, m.last().1, s.2, m.last().3))
        } else {
            m.push(s)
        }
    }
}

/// Some span of `spans` is on row `r`.
pub open spec fn has_row(spans: Seq<Span>, r: u32) -> bool {
    exists|j: int| 0 <= j < spans.len() && (#[trigger] spans[j]).0 == r
}

/// Merging never joins spans of different rows: every row that has a span
/// keeps one after merging, and every merged span is on a row that had one.
pub proof fn lemma_merge_keeps_rows(spans: Seq<Span>)
    ensures
        forall|i: int| 0 <= i < spans.len() ==> has_row(merge_spans(spans), (#[trigger] spans[i]).0),
        forall|j: int| 0 <= j < merge_spans(spans).len() ==> has_row(spans, (#[trigger] merge_spans(spans)[j]).0),
    decreases spans.len(),
{
    if spans.len() > 0 {
        let d = spans.drop_last();
        lemma_merge_keeps_rows(d);
        let m = merge_spans(d);
        let r = merge_spans(spans);
        let s = spans.last();
        assert(spans[spans.len() - 1] == s);
        // the merged list agrees with `m` on rows, and adds `s`'s row
        assert forall|k: int| 0 <= k < m.len() implies (#[trigger] r[k]).0 == m[k].0 by {}
        assert(has_row(r, s.0)) by {
            if r.len() == m.len() {
                assert(r[m.len() - 1].0 == s.0);
            } else {
                assert(r[m.len() as int] == s);
            }
        }
        assert forall|i: int| 0 <= i < spans.len() implies has_row(r, (#[trigger] spans[i]).0) by {
            if i < d.len() {
                assert(d[i] == spans[i]);
                assert(has_row(m, d[i].0));
                let j = choose|j: int| 0 <= j < m.len() && (#[trigger] m[j]).0 == d[i].0;
                assert(r[j].0 == m[j].0);
            }
        }
        assert forall|j: int| 0 <= j < r.len() implies has_row(spans, (#[trigger] r[j]).0) by {
            if j < m.len() {
                assert(r[j].0 == m[j].0);
                assert(has_row(d, m[j].0));
                let i = choose|i: int| 0 <= i < d.len() && (#[trigger] d[i]).0 == m[j].0;
                assert(spans[i] == d[i]);
            } else {
                assert(r[j] == s);
            }
        }
    }
}

pub open spec fn sat_sub_u32(a: u32, b: u32) -> int {
    if a >= b {
        a - b
    } else {
        0
    }
}

/// A span is kept as a hint candidate when it is short (likely a button or
/// link) or its color stands apart from the dominant text color.
pub open spec fn keep_span(s: Span, dominant: Option<Color>) -> bool {
    let width = sat_sub_u32(s.2, s.1);
    let differs = match dominant {
        Some(d) => color_dist(s.3, d) >= 60,
        None => true,
    };
    width >= 1 && (width <= 30 || differs)
}

/// The spans that `keep_span` keeps, in order.
pub open spec fn filter_spans(spans: Seq<Span>, dominant: Option<Color>) -> Seq<Span>
    decreases spans.len(),
{
    if spans.len() == 0 {
        Seq::empty()
    } else {
        let f = filter_spans(spans.drop_last(), dominant);
        if keep_span(spans.last(), dominant) {
            f.push(spans.last())
        } else {
            f
        }
    }
}

/// The hint candidates of rows `1..=rows`: merged text spans that
/// `keep_span` keeps.
pub open spec fn candidate_spans(cells: Seq<CellView>, vw: int, rows: int) -> Seq<Span> {
    filter_spans(
        merge_spans(spans_upto(cells, vw, rows)),
        dominant_color(text_colors(cells, vw, rows)),
    )
}

/// The hint targets of rows `1..=rows`: each candidate span with its label.
pub open spec fn hint_targets_of(cells: Seq<CellView>, vw: int, rows: int) -> Seq<
    crate::vimium::HintView,
> {
    let c = candidate_spans(cells, vw, rows);
    Seq::new(
        c.len(),
        |i: int|
            crate::vimium::HintView {
                label: hint_label(i, c.len() as int),
                row: c[i].0,
                col_start: c[i].1,
                col_end: c[i].2,
            },
    )
}

/// Largest cluster width and viewport width the hint scan handles.
pub open spec fn max_hint_width() -> int {
    0x4000_0000
}

/// The widest grid the hint scan takes: with clusters at most
/// `max_hint_width` wide, every span then ends below `2^31`, so that the
/// click column of a hint, the midpoint `(col_start + col_end - 1) / 2`
/// computed in `u32` (see `click_col_of`), cannot overflow.
pub open spec fn max_grid_width() -> int {
    0x4000_0000
}

/// No cell's cluster is wider than `max_hint_width`.
pub open spec fn narrow_cells(cells: Seq<CellView>) -> bool {
    forall|i: int|
        0 <= i < cells.len() ==> match #[trigger] cells[i].grapheme {
            Some(g) => g.width <= max_hint_width(),
            None => true,
        }
}

/// A span on row `1..=rows` starting inside the row and ending at most one
/// cluster past it.
pub open spec fn span_bounded(s: Span, vw: int, rows: int) -> bool {
    1 <= s.0 <= rows && s.1 < vw && s.2 <= vw + max_hint_width()
}

pub open spec fn all_bounded(spans: Seq<Span>, vw: int, rows: int) -> bool {
    forall|i: int| 0 <= i < spans.len() ==> span_bounded(#[trigger] spans[i], vw, rows)
}

pub proof fn lemma_scan_bounded(
    cells: Seq<CellView>,
    row: int,
    off: int,
    vw: int,
    col: int,
    current: Option<(int, Color)>,
    acc: Seq<Span>,
    rows: int,
)
    requires
        narrow_cells(cells),
        0 <= off,
        off + vw <= cells.len(),
        1 <= row <= rows,
        rows <= u32::MAX,
        vw <= max_grid_width(),
        0 <= col <= vw + max_hint_width(),
        all_bounded(acc, vw, rows),
        current matches Some((st, _)) ==> 0 <= st < vw && st <= col,
    ensures
        all_bounded(scan_spans(cells, row, off, vw, col, current, acc), vw, rows),
    decreases if vw > col {
        vw - col
    } else {
        0
    },
{
    if col < vw {
        let info = span_info(cells[off + col]);
        assert(match cells[off + col].grapheme {
            Some(g) => g.width <= max_hint_width(),
            None => true,
        });
        match (current, info) {
            (Some((start, color)), Some((c, w))) => {
                if color_dist(color, c) < 15 {
                    lemma_scan_bounded(cells, row, off, vw, col + w, current, acc, rows);
                } else {
                    let acc2 = acc.push((row as u32, start as u32, col as u32, color));
                    assert(all_bounded(acc2, vw, rows)) by {
                        assert forall|i: int| 0 <= i < acc2.len() implies span_bounded(
                            #[trigger] acc2[i],
                            vw,
                            rows,
                        ) by {
                            if i < acc.len() {
                                assert(acc2[i] == acc[i]);
                            }
                        }
                    }
                    lemma_scan_bounded(cells, row, off, vw, col + w, Some((col, c)), acc2, rows);
                }
            },
            (Some((start, color)), None) => {
                let acc2 = acc.push((row as u32, start as u32, col as u32, color));
                assert(all_bounded(acc2, vw, rows)) by {
                    assert forall|i: int| 0 <= i < acc2.len() implies span_bounded(
                        #[trigger] acc2[i],
                        vw,
                        rows,
                    ) by {
                        if i < acc.len() {
                            assert(acc2[i] == acc[i]);
                        }
                    }
                }
                lemma_scan_bounded(cells, row, off, vw, col + 1, None, acc2, rows);
            },
            (None, Some((c, w))) => {
                lemma_scan_bounded(cells, row, off, vw, col + w, Some((col, c)), acc, rows);
            },
            (None, None) => {
                lemma_scan_bounded(cells, row, off, vw, col + 1, None, acc, rows);
            },
        }
    } else {
        match current {
            Some((start, color)) => {
                let acc2 = acc.push((row as u32, start as u32, col as u32, color));
                assert forall|i: int| 0 <= i < acc2.len() implies span_bounded(
                    #[trigger] acc2[i],
                    vw,
                    rows,
                ) by {
                    if i < acc.len() {
                        assert(acc2[i] == acc[i]);
                    }
                }
            },
            None => {},
        }
    }
}

pub proof fn lemma_spans_bounded(cells: Seq<CellView>, vw: int, rows: int, total: int)
    requires
        narrow_cells(cells),
        0 <= rows <= total,
        total <= u32::MAX,
        vw <= max_grid_width(),
        vw >= 0,
        vw * (total + 1) <= cells.len(),
    ensures
        all_bounded(spans_upto(cells, vw, rows), vw, total),
    decreases rows,
{
    if rows > 0 {
        lemma_spans_bounded(cells, vw, rows - 1, total);
        assert(rows * vw + vw <= vw * (total + 1)) by (nonlinear_arith)
            requires
                rows <= total,
                vw >= 0,
        ;
        lemma_scan_bounded(cells, rows, rows * vw, vw, 0, None, spans_upto(cells, vw, rows - 1), total);
    }
}

pub proof fn lemma_merge_bounded(spans: Seq<Span>, vw: int, rows: int)
    requires
        all_bounded(spans, vw, rows),
    ensures
        all_bounded(merge_spans(spans), vw, rows),
    decreases spans.len(),
{
    if spans.len() > 0 {
        assert(all_bounded(spans.drop_last(), vw, rows)) by {
            assert forall|i: int| 0 <= i < spans.drop_last().len() implies span_bounded(
                #[trigger] spans.drop_last()[i],
                vw,
                rows,
            ) by {
                assert(spans.drop_last()[i] == spans[i]);
            }
        }
        lemma_merge_bounded(spans.drop_last(), vw, rows);
        assert(span_bounded(spans[spans.len() - 1], vw, rows));
    }
}

pub proof fn lemma_filter_bounded(spans: Seq<Span>, d: Option<Color>, vw: int, rows: int)
    requires
        all_bounded(spans, vw, rows),
    ensures
        all_bounded(filter_spans(spans, d), vw, rows),
        filter_spans(spans, d).len() <= spans.len(),
    decreases spans.len(),
{
    if spans.len() > 0 {
        assert(all_bounded(spans.drop_last(), vw, rows)) by {
            assert forall|i: int| 0 <= i < spans.drop_last().len() implies span_bounded(
                #[trigger] spans.drop_last()[i],
                vw,
                rows,
            ) by {
                assert(spans.drop_last()[i] == spans[i]);
            }
        }
        lemma_filter_bounded(spans.drop_last(), d, vw, rows);
        assert(span_bounded(spans[spans.len() - 1], vw, rows));
    }
}

} // verus!
