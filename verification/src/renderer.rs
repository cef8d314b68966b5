use vstd::prelude::*;

use crate::cell::{
    black_quadrant, duplicate_grapheme, Cell, CellView, Grapheme, GraphemeView, Quadrant,
};
use crate::find::{
    cell_piece, col_after, col_at_or_after, col_at_or_before, col_before, find_from, first_occurrence,
    lemma_occurrences_next, lemma_occurrences_none, match_entries, match_entry, match_span,
    matches_upto, occurrences_from, occurs_at, pieces_view, row_matches, scan_row,
};
use crate::gfx::{channel_avg, Color, Point, Rect, Size};
use crate::hints::{
    all_bounded, candidate_spans, color_distance, filter_spans, hint_label, hint_targets_of,
    lemma_filter_bounded, lemma_merge_bounded, lemma_spans_bounded, make_hint_labels,
    max_hint_labels, max_grid_width, max_hint_width, merge_spans, narrow_cells, scan_spans, span_bounded,
    span_info, spans_upto, Span, color_buckets, dominant_color, last_max_index, lemma_buckets_distinct, row_text_colors, text_color_of,
    text_colors,
};
use crate::overlay::{
    current_match, current_match_of,
    draw_label, draw_labels, highlight_matches, overlay_cells, overlay_matches, paint_span, printed_status,
    quad, status_bar, status_row, status_suffix, status_suffix_of, status_text, status_text_of,
    visible_hints, with_hint_targets,
};
use crate::text::{
    ascii_lower_seq, chars_of, extend_chars, has_prefix, is_whitespace, lower_chars, push_char,
    starts_with, string_from_chars,
};
use crate::unicode::{display_width, grapheme_clusters, graphemes, strings_view, width};
use crate::input::{Key, NavigationAction};
use crate::vimium::{key_step, click_in_range, hints_in_range, hints_view, initial_state, HintTarget, HintView, Mode, Vimium, VimiumState};

verus! {

/// The terminal cell grid: for every cell the content last painted and the
/// content to paint next, plus the keyboard layer whose hints, find matches
/// and status bar are drawn over it.
///
/// The grid has `width * (height + 1)` cells: row 0 holds the navigation bar,
/// rows `1..=height` the page.
pub struct Renderer {
    vimium: Vimium,
    previous: Vec<Cell>,
    current: Vec<Cell>,
    size: Size,
    overlay_restore: Vec<(usize, Cell)>,
    true_color: bool,
}

pub open spec fn cells_view(v: Seq<Cell>) -> Seq<CellView> {
    v.map_values(|c: Cell| c@)
}

pub open spec fn log_view(v: Seq<(usize, Cell)>) -> Seq<(usize, CellView)> {
    v.map_values(|e: (usize, Cell)| (e.0, e.1@))
}

/// Cell `i` of both buffers is at the same position.
pub open spec fn cursors_agree(a: Seq<CellView>, b: Seq<CellView>) -> bool {
    forall|i: int| 0 <= i < a.len() && i < b.len() ==> (#[trigger] a[i]).cursor == (#[trigger] b[i]).cursor
}

/// Number of cells of a grid for a viewport.
pub open spec fn grid_len(size: Size) -> int {
    size.width * (size.height + 1)
}

/// The grid's cell count fits a `u32`.
pub open spec fn size_ok(size: Size) -> bool {
    size.width + size.width * size.height <= u32::MAX
}

/// The cell at index `i` of a freshly sized grid.
pub open spec fn fresh_cell(i: int, width: int) -> CellView {
    CellView {
        cursor: ((i % width) as u32, (i / width) as u32),
        grapheme: None,
        quadrant: black_quadrant(),
    }
}

/// A cell painted with one flat color and no text.
pub open spec fn filled(c: CellView, color: Color) -> CellView {
    CellView { grapheme: None, quadrant: (color, color, color, color), ..c }
}

/// Cell `i` lies in one of the rows `top..top + rows` of a rectangle whose
/// rows start `left` cells into a grid row of `vw` cells and are `width`
/// cells long.
pub open spec fn in_rect_rows(i: int, top: int, rows: int, vw: int, left: int, width: int) -> bool {
    exists|y: int| top <= y < top + rows && #[trigger] (y * vw) + left <= i < y * vw + left + width
}

/// The rectangle's rows lie inside a grid of `len` cells.
pub open spec fn rect_fits(bounds: Rect, vw: int, len: int) -> bool {
    bounds.size.height == 0 || (bounds.origin.x >= 0 && bounds.origin.y >= 0 && bounds.origin.y
        + bounds.size.height <= usize::MAX && (bounds.origin.y + bounds.size.height - 1) * vw
        + bounds.origin.x + bounds.size.width <= len)
}

/// Restoring one cell from a snapshot: colors and text come back, the
/// position stays.
pub open spec fn restore_cell(c: CellView, orig: CellView) -> CellView {
    CellView { quadrant: orig.quadrant, grapheme: orig.grapheme, ..c }
}

/// The cells after undoing an overlay log, the last snapshot first, so that
/// the earliest snapshot of a cell is the one that remains.
pub open spec fn apply_restore(cells: Seq<CellView>, log: Seq<(usize, CellView)>) -> Seq<CellView>
    decreases log.len(),
{
    if log.len() == 0 {
        cells
    } else {
        let e = log.last();
        let next = if e.0 < cells.len() {
            cells.update(e.0 as int, restore_cell(cells[e.0 as int], e.1))
        } else {
            cells
        };
        apply_restore(next, log.drop_last())
    }
}

impl Renderer {
    pub closed spec fn current_cells(&self) -> Seq<CellView> {
        cells_view(self.current@)
    }

    pub closed spec fn previous_cells(&self) -> Seq<CellView> {
        cells_view(self.previous@)
    }

    pub closed spec fn restore_log(&self) -> Seq<(usize, CellView)> {
        log_view(self.overlay_restore@)
    }

    pub closed spec fn viewport(&self) -> Size {
        self.size
    }

    pub closed spec fn keys(&self) -> VimiumState {
        self.vimium@
    }

    pub closed spec fn true_color_enabled(&self) -> bool {
        self.true_color
    }

    /// Everything but the current cells is the same.
    closed spec fn same_but_current(self, other: Renderer) -> bool {
        &&& self.size == other.size
        &&& self.previous == other.previous
        &&& self.overlay_restore == other.overlay_restore
        &&& self.vimium == other.vimium
        &&& self.true_color == other.true_color
    }

    /// Both cell buffers have one entry per grid cell, and agree on each
    /// cell's position.
    pub open spec fn wf(&self) -> bool {
        &&& size_ok(self.viewport())
        &&& self.current_cells().len() == grid_len(self.viewport())
        &&& self.previous_cells().len() == grid_len(self.viewport())
        &&& cursors_agree(self.previous_cells(), self.current_cells())
    }

    /// An empty renderer; `vim` enables the keyboard layer.
    pub fn new(vim: bool) -> (r: Renderer)
        ensures
            r.wf(),
            r.viewport() == (Size { width: 0, height: 0 }),
            r.current_cells().len() == 0,
            r.restore_log().len() == 0,
            r.keys() == initial_state(vim),
            !r.true_color_enabled(),
    {
        let r = Renderer {
            vimium: Vimium::new(vim),
            previous: Vec::new(),
            current: Vec::new(),
            size: Size { width: 0, height: 0 },
            overlay_restore: Vec::new(),
            true_color: false,
        };
        proof {
            assert(grid_len(r.size) == 0);
            assert(size_ok(r.size));
            assert(cells_view(r.current@) =~= Seq::<CellView>::empty());
            assert(cells_view(r.previous@) =~= Seq::<CellView>::empty());
            assert(log_view(r.overlay_restore@) =~= Seq::<(usize, CellView)>::empty());
        }
        r
    }

    pub fn enable_true_color(&mut self)
        ensures
            final(self).true_color_enabled(),
            final(self).current_cells() == old(self).current_cells(),
            final(self).previous_cells() == old(self).previous_cells(),
            final(self).restore_log() == old(self).restore_log(),
            final(self).viewport() == old(self).viewport(),
            final(self).keys() == old(self).keys(),
    {
        self.true_color = true;
    }

    pub fn true_color(&self) -> (b: bool)
        ensures
            b == self.true_color_enabled(),
    {
        self.true_color
    }

    pub fn cells_size(&self) -> (s: Size)
        ensures
            s == self.viewport(),
    {
        self.size
    }

    pub fn get_size(&self) -> (s: Size)
        ensures
            s == self.viewport(),
    {
        self.size
    }

    /// Hands a key press to the keyboard layer and returns what the browser
    /// should do with it (see `key_step`).
    pub fn keypress(&mut self, key: &Key, viewport_px_height: i32) -> (action: NavigationAction)
        requires
            old(self).wf(),
        ensures
            final(self).wf(),
            (final(self).keys(), action) == key_step(old(self).keys(), key.char, viewport_px_height),
            final(self).current_cells() == old(self).current_cells(),
            final(self).previous_cells() == old(self).previous_cells(),
            final(self).restore_log() == old(self).restore_log(),
            final(self).viewport() == old(self).viewport(),
            final(self).true_color_enabled() == old(self).true_color_enabled(),
    {
        self.vimium.handle(key, viewport_px_height)
    }

    /// The keyboard layer whose state the overlay shows.
    pub fn vimium(&self) -> (v: &Vimium)
        ensures
            v@ == self.keys(),
    {
        &self.vimium
    }

    /// Resizes the grid: every cell is reset to an empty black cell at its
    /// position, and pending overlay snapshots are dropped.
    pub fn set_size(&mut self, size: Size)
        requires
            size_ok(size),
        ensures
            final(self).wf(),
            final(self).viewport() == size,
            final(self).restore_log().len() == 0,
            final(self).keys() == old(self).keys(),
            final(self).true_color_enabled() == old(self).true_color_enabled(),
            forall|i: int|
                0 <= i < grid_len(size) ==> final(self).current_cells()[i] == fresh_cell(
                    i,
                    size.width as int,
                ) && final(self).previous_cells()[i] == fresh_cell(i, size.width as int),
    {
        self.size = size;
        self.overlay_restore = Vec::new();
        let count = (size.width + size.width * size.height) as usize;
        let bound = size.width.wrapping_sub(1);
        let w = size.width;
        let mut x: u32 = 0;
        let mut y: u32 = 0;
        let mut prev: Vec<Cell> = Vec::new();
        let mut cur: Vec<Cell> = Vec::new();
        let mut i: usize = 0;
        proof {
            vstd::arithmetic::mul::lemma_mul_is_distributive_add(w as int, 1, size.height as int);
        }
        assert(count == grid_len(size));
        while i < count
            invariant
                count == grid_len(size),
                count <= u32::MAX,
                size_ok(size),
                w == size.width,
                w > 0 ==> bound == w - 1,
                i <= count,
                prev@.len() == i,
                cur@.len() == i,
                w > 0 ==> x < w && y * w + x == i,
                forall|j: int|
                    0 <= j < i ==> cur@[j]@ == fresh_cell(j, w as int) && prev@[j]@ == fresh_cell(
                        j,
                        w as int,
                    ),
            decreases count - i,
        {
            assert(w > 0) by (nonlinear_arith)
                requires
                    i < count,
                    count == w * (size.height + 1),
            ;
            proof {
                vstd::arithmetic::div_mod::lemma_fundamental_div_mod_converse(
                    i as int,
                    w as int,
                    y as int,
                    x as int,
                );
            }
            cur.push(Cell::new(x, y));
            prev.push(Cell::new(x, y));
            if x < bound {
                x = x + 1;
            } else {
                assert(y + 1 <= i + 1) by (nonlinear_arith)
                    requires
                        w > 0,
                        y * w + x == i,
                        x + 1 == w,
                ;
                assert((y + 1) * w == i + 1) by (nonlinear_arith)
                    requires
                        y * w + x == i,
                        x + 1 == w,
                ;
                x = 0;
                y = y + 1;
            }
            i = i + 1;
        }
        self.current = cur;
        self.previous = prev;
        assert forall|j: int| 0 <= j < count implies #[trigger] self.previous_cells()[j] == fresh_cell(
            j,
            w as int,
        ) && #[trigger] self.current_cells()[j] == fresh_cell(j, w as int) by {
            assert(self.previous_cells()[j] == prev@[j]@);
            assert(self.current_cells()[j] == cur@[j]@);
        }
    }

    /// Removes the text from every cell.
    pub fn clear_text(&mut self)
        requires
            old(self).wf(),
        ensures
            final(self).wf(),
            final(self).viewport() == old(self).viewport(),
            final(self).previous_cells() == old(self).previous_cells(),
            final(self).restore_log() == old(self).restore_log(),
            final(self).keys() == old(self).keys(),
            final(self).true_color_enabled() == old(self).true_color_enabled(),
            forall|i: int|
                0 <= i < old(self).current_cells().len() ==> #[trigger] final(self).current_cells()[i] == (CellView {
                    grapheme: None,
                    ..old(self).current_cells()[i]
                }),
    {
        let ghost old_cells = cells_view(self.current@);
        let mut i: usize = 0;
        while i < self.current.len()
            invariant
                self.same_but_current(*old(self)),
                i <= self.current@.len(),
                self.current@.len() == old_cells.len(),
                forall|j: int|
                    0 <= j < old_cells.len() ==> #[trigger] self.current@[j]@ == if j < i {
                        CellView { grapheme: None, ..old_cells[j] }
                    } else {
                        old_cells[j]
                    },
            decreases self.current@.len() - i,
        {
            assert(self.current@[i as int]@ == old_cells[i as int]);
            let c = Cell {
                cursor: self.current[i].cursor,
                grapheme: None,
                quadrant: self.current[i].quadrant,
            };
            self.current.set(i, c);
            assert(self.current@[i as int]@ == CellView { grapheme: None, ..old_cells[i as int] });
            i = i + 1;
        }
        assert(cells_view(self.current@) =~= Seq::new(
            old_cells.len(),
            |j: int| CellView { grapheme: None, ..old_cells[j] },
        ));
    }

    /// Paints the rectangle `rect` (in grid rows and columns) with one color
    /// and removes its text.
    pub fn fill_rect(&mut self, rect: Rect, color: Color)
        requires
            old(self).wf(),
            rect_fits(rect, old(self).viewport().width as int, old(self).current_cells().len() as int),
        ensures
            final(self).wf(),
            final(self).viewport() == old(self).viewport(),
            final(self).previous_cells() == old(self).previous_cells(),
            final(self).restore_log() == old(self).restore_log(),
            final(self).keys() == old(self).keys(),
            final(self).true_color_enabled() == old(self).true_color_enabled(),
            forall|i: int|
                0 <= i < old(self).current_cells().len() ==> #[trigger] final(self).current_cells()[i] == if in_rect_rows(
                    i,
                    rect.origin.y as int,
                    rect.size.height as int,
                    old(self).viewport().width as int,
                    rect.origin.x as int,
                    rect.size.width as int,
                ) {
                    filled(old(self).current_cells()[i], color)
                } else {
                    old(self).current_cells()[i]
                },
    {
        let ghost old_cells = cells_view(self.current@);
        let ghost vw = self.size.width as int;
        let ghost top = rect.origin.y as int;
        let ghost left0 = rect.origin.x as int;
        let ghost rw = rect.size.width as int;
        if rect.size.height == 0 {
            assert forall|i: int| !in_rect_rows(i, top, 0, vw, left0, rw) by {}
            assert(cells_view(self.current@) =~= old_cells);
            return;
        }
        let n = self.current.len();
        let viewport_width = self.size.width as usize;
        let ox = rect.origin.x as usize;
        let oy = rect.origin.y as usize;
        let h = rect.size.height as usize;
        let rwid = rect.size.width as usize;
        let bottom = oy + h;
        let mut y = oy;
        while y < bottom
            invariant
                oy == top,
                ox == left0,
                h == rect.size.height,
                rwid == rw,
                bottom == oy + h,
                h > 0,
                self.same_but_current(*old(self)),
                viewport_width == vw,
                oy <= y <= bottom,
                (top + h - 1) * vw + left0 + rw <= old_cells.len(),
                old_cells.len() == n,
                self.current@.len() == old_cells.len(),
                forall|i: int|
                    0 <= i < old_cells.len() ==> #[trigger] self.current@[i]@ == if in_rect_rows(
                        i,
                        top,
                        y - top,
                        vw,
                        left0,
                        rw,
                    ) {
                        filled(old_cells[i], color)
                    } else {
                        old_cells[i]
                    },
            decreases bottom - y,
        {
            assert(y * viewport_width + ox + rwid <= old_cells.len()) by (nonlinear_arith)
                requires
                    y + 1 <= oy + h,
                    (oy + h - 1) * viewport_width + ox + rwid <= old_cells.len(),
            ;
            let left = y * viewport_width + ox;
            let right = left + rwid;
            let mut k = left;
            while k < right
                invariant
                    oy == top,
                    oy <= y < bottom,
                    viewport_width == vw,
                    left == y * vw + left0,
                    right == left + rw,
                    right <= old_cells.len(),
                    left <= k <= right,
                    self.same_but_current(*old(self)),
                    self.current@.len() == old_cells.len(),
                    forall|i: int|
                        0 <= i < old_cells.len() ==> #[trigger] self.current@[i]@ == if in_rect_rows(
                            i,
                            top,
                            y - top,
                            vw,
                            left0,
                            rw,
                        ) || (left <= i < k) {
                            filled(old_cells[i], color)
                        } else {
                            old_cells[i]
                        },
                decreases right - k,
            {
                assert(self.current@[k as int]@.cursor == old_cells[k as int].cursor);
                let c = Cell {
                    cursor: self.current[k].cursor,
                    grapheme: None,
                    quadrant: (color, color, color, color),
                };
                self.current.set(k, c);
                k = k + 1;
            }
            proof {
                assert forall|i: int|
                    #[trigger] in_rect_rows(i, top, y + 1 - top, vw, left0, rw) <==> (in_rect_rows(
                        i,
                        top,
                        y - top,
                        vw,
                        left0,
                        rw,
                    ) || (left <= i < right)) by {
                    if left <= i < right {
                        assert((y as int) * vw + left0 <= i < (y as int) * vw + left0 + rw);
                    }
                    if in_rect_rows(i, top, y + 1 - top, vw, left0, rw) {
                        let yy = choose|yy: int|
                            top <= yy < top + (y + 1 - top) && #[trigger] (yy * vw) + left0 <= i
                                < yy * vw + left0 + rw;
                        if yy < y {
                            assert(top <= yy < top + (y - top) && (yy * vw) + left0 <= i < yy
                                * vw + left0 + rw);
                        }
                    }
                }
            }
            y = y + 1;
        }
        assert(cells_view(self.current@) =~= Seq::new(
            old_cells.len(),
            |i: int|
                if in_rect_rows(i, top, h as int, vw, left0, rw) {
                    filled(old_cells[i], color)
                } else {
                    old_cells[i]
                },
        ));
    }
}


/// A page row ends inside the grid, and the grid's size fits a `u32`.
proof fn lemma_row_fits(vw: int, vh: int, row: int)
    requires
        0 <= row <= vh,
        0 <= vw,
        vw + vw * vh <= u32::MAX,
    ensures
        row * vw + vw <= vw * (vh + 1),
        vw * (vh + 1) <= u32::MAX,
{
    assert(row * vw + vw <= vw * (vh + 1)) by (nonlinear_arith)
        requires
            row <= vh,
            vw >= 0,
    ;
    assert(vw * (vh + 1) == vw + vw * vh) by (nonlinear_arith);
}

/// Cell `idx` has a snapshot in the log.
pub open spec fn logged(log: Seq<(usize, CellView)>, idx: int) -> bool {
    exists|k: int| 0 <= k < log.len() && #[trigger] log[k].0 == idx
}

/// Taking a snapshot of a cell as it is changes nothing that undoing the log
/// gives back.
proof fn lemma_restore_snapshot(cells: Seq<CellView>, log: Seq<(usize, CellView)>, idx: usize)
    requires
        idx < cells.len(),
    ensures
        apply_restore(cells, log.push((idx, cells[idx as int]))) == apply_restore(cells, log),
{
    let l2 = log.push((idx, cells[idx as int]));
    assert(l2.drop_last() == log);
    assert(cells.update(idx as int, restore_cell(cells[idx as int], cells[idx as int])) =~= cells);
}

/// Changing the colors or text of a logged cell changes nothing that undoing
/// the log gives back.
proof fn lemma_restore_overwrite(
    cells: Seq<CellView>,
    log: Seq<(usize, CellView)>,
    idx: int,
    v: CellView,
)
    requires
        0 <= idx < cells.len(),
        v.cursor == cells[idx].cursor,
        logged(log, idx),
    ensures
        apply_restore(cells.update(idx, v), log) == apply_restore(cells, log),
    decreases log.len(),
{
    let c2 = cells.update(idx, v);
    let e = log.last();
    let k = choose|k: int| 0 <= k < log.len() && #[trigger] log[k].0 == idx;
    if e.0 == idx {
        assert(c2.update(idx, restore_cell(c2[idx], e.1)) =~= cells.update(
            idx,
            restore_cell(cells[idx], e.1),
        ));
    } else {
        assert(k < log.len() - 1);
        assert(log.drop_last()[k].0 == idx);
        let n1 = if e.0 < cells.len() {
            cells.update(e.0 as int, restore_cell(cells[e.0 as int], e.1))
        } else {
            cells
        };
        let n2 = if e.0 < c2.len() {
            c2.update(e.0 as int, restore_cell(c2[e.0 as int], e.1))
        } else {
            c2
        };
        assert(n2 =~= n1.update(idx, v));
        lemma_restore_overwrite(n1, log.drop_last(), idx, v);
    }
}

/// Undoing a log processes its last entry first.
proof fn lemma_restore_step(cells: Seq<CellView>, log: Seq<(usize, CellView)>, k: int)
    requires
        0 < k <= log.len(),
    ensures
        apply_restore(cells, log.take(k)) == apply_restore(
            if log[k - 1].0 < cells.len() {
                cells.update(log[k - 1].0 as int, restore_cell(cells[log[k - 1].0 as int], log[k - 1].1))
            } else {
                cells
            },
            log.take(k - 1),
        ),
{
    assert(log.take(k).drop_last() == log.take(k - 1));
    assert(log.take(k).last() == log[k - 1]);
}

impl Renderer {
    /// Everything but the current cells and the overlay log is the same.
    closed spec fn same_but_overlay(self, other: Renderer) -> bool {
        &&& self.size == other.size
        &&& self.previous == other.previous
        &&& self.vimium == other.vimium
        &&& self.true_color == other.true_color
    }

    /// Records cell `idx` as it is now, so that the overlay drawn over it can
    /// be undone.
    fn snapshot_cell(&mut self, idx: usize)
        requires
            old(self).wf(),
        ensures
            final(self).wf(),
            final(self).same_but_overlay(*old(self)),
            final(self).current_cells() == old(self).current_cells(),
            final(self).restore_log() == if idx < old(self).current_cells().len() {
                old(self).restore_log().push((idx, old(self).current_cells()[idx as int]))
            } else {
                old(self).restore_log()
            },
    {
        if idx < self.current.len() {
            let c = self.current[idx].duplicate();
            self.overlay_restore.push((idx, c));
            assert(log_view(self.overlay_restore@) =~= log_view(old(self).overlay_restore@).push(
                (idx, cells_view(self.current@)[idx as int]),
            ));
        }
    }

    /// Replaces the colors and/or the text of cell `idx`.
    fn write_cell(&mut self, idx: usize, quadrant: Option<Quadrant>, grapheme: Option<Option<Grapheme>>)
        requires
            old(self).wf(),
            idx < old(self).current_cells().len(),
        ensures
            final(self).wf(),
            final(self).same_but_overlay(*old(self)),
            final(self).restore_log() == old(self).restore_log(),
            final(self).current_cells() == old(self).current_cells().update(
                idx as int,
                CellView {
                    quadrant: match quadrant {
                        Some(q) => q,
                        None => old(self).current_cells()[idx as int].quadrant,
                    },
                    grapheme: match grapheme {
                        Some(g) => crate::cell::opt_grapheme_view(g),
                        None => old(self).current_cells()[idx as int].grapheme,
                    },
                    ..old(self).current_cells()[idx as int]
                },
            ),
    {
        let old_cell = &self.current[idx];
        let q = match quadrant {
            Some(q) => q,
            None => old_cell.quadrant,
        };
        let g = match grapheme {
            Some(g) => g,
            None => duplicate_grapheme(&old_cell.grapheme),
        };
        let c = Cell { cursor: old_cell.cursor, grapheme: g, quadrant: q };
        self.current.set(idx, c);
        assert(cells_view(self.current@) =~= cells_view(old(self).current@).update(idx as int, c@));
    }

    /// Undoes every overlay snapshot, the most recent first, so that a cell
    /// snapshotted twice gets back its earliest content; the log is emptied.
    fn restore_overlay(&mut self)
        requires
            old(self).wf(),
        ensures
            final(self).wf(),
            final(self).same_but_overlay(*old(self)),
            final(self).restore_log().len() == 0,
            final(self).current_cells() == apply_restore(
                old(self).current_cells(),
                old(self).restore_log(),
            ),
    {
        let ghost target = apply_restore(self.current_cells(), self.restore_log());
        let ghost log = self.restore_log();
        let len = self.current.len();
        let mut k = self.overlay_restore.len();
        assert(log.take(k as int) == log);
        while k > 0
            invariant
                self.wf(),
                self.same_but_overlay(*old(self)),
                len == self.current_cells().len(),
                log == self.restore_log(),
                k <= log.len(),
                apply_restore(self.current_cells(), log.take(k as int)) == target,
            decreases k,
        {
            let idx = self.overlay_restore[k - 1].0;
            proof {
                lemma_restore_step(self.current_cells(), log, k as int);
            }
            if idx < len {
                let q = self.overlay_restore[k - 1].1.quadrant;
                let g = duplicate_grapheme(&self.overlay_restore[k - 1].1.grapheme);
                self.write_cell(idx, Some(q), Some(g));
            }
            k = k - 1;
        }
        self.overlay_restore = Vec::new();
        assert(log_view(self.overlay_restore@) =~= Seq::<(usize, CellView)>::empty());
    }

    /// Paints grid row `row` with one color and no text, snapshotting every
    /// cell first.
    fn overlay_row(&mut self, row: usize, viewport_w: usize, bg: Color)
        requires
            old(self).wf(),
            row * viewport_w + viewport_w <= usize::MAX,
        ensures
            final(self).wf(),
            final(self).same_but_overlay(*old(self)),
            apply_restore(final(self).current_cells(), final(self).restore_log()) == apply_restore(
                old(self).current_cells(),
                old(self).restore_log(),
            ),
            forall|k: int| 0 <= k < old(self).restore_log().len() ==> final(self).restore_log()[k] == old(self).restore_log()[k],
            old(self).restore_log().len() <= final(self).restore_log().len(),
            forall|i: int|
                0 <= i < old(self).current_cells().len() ==> #[trigger] final(self).current_cells()[i]
                    == if row * viewport_w <= i < row * viewport_w + viewport_w {
                    filled(old(self).current_cells()[i], bg)
                } else {
                    old(self).current_cells()[i]
                },
            forall|i: int|
                row * viewport_w <= i < row * viewport_w + viewport_w && i < old(
                    self,
                ).current_cells().len() ==> logged(final(self).restore_log(), i),
    {
        let row_off = row * viewport_w;
        let ghost old_cells = self.current_cells();
        let ghost old_log = self.restore_log();
        let ghost target = apply_restore(old_cells, old_log);
        let mut col: usize = 0;
        while col < viewport_w
            invariant
                self.wf(),
                self.same_but_overlay(*old(self)),
                row_off == row * viewport_w,
                row_off + viewport_w <= usize::MAX,
                col <= viewport_w,
                self.current_cells().len() == old_cells.len(),
                apply_restore(self.current_cells(), self.restore_log()) == target,
                old_log.len() <= self.restore_log().len(),
                forall|k: int| 0 <= k < old_log.len() ==> self.restore_log()[k] == old_log[k],
                forall|i: int|
                    0 <= i < old_cells.len() ==> #[trigger] self.current_cells()[i] == if row_off <= i
                        < row_off + col {
                        filled(old_cells[i], bg)
                    } else {
                        old_cells[i]
                    },
                forall|i: int|
                    row_off <= i < row_off + col && i < old_cells.len() ==> logged(
                        self.restore_log(),
                        i,
                    ),
            decreases viewport_w - col,
        {
            let idx = row_off + col;
            let ghost log0 = self.restore_log();
            self.snapshot_cell(idx);
            if idx < self.current.len() {
                proof {
                    lemma_restore_snapshot(self.current_cells(), log0, idx);
                    assert(self.restore_log()[log0.len() as int].0 == idx);
                    assert forall|i: int|
                        row_off <= i < row_off + col && i < old_cells.len() implies logged(
                            self.restore_log(),
                            i,
                        ) by {
                        assert(logged(log0, i));
                        let k = choose|k: int| 0 <= k < log0.len() && #[trigger] log0[k].0 == i;
                        assert(self.restore_log()[k].0 == i);
                    }
                    assert(logged(self.restore_log(), idx as int));
                }
                let ghost before = self.current_cells();
                self.write_cell(idx, Some((bg, bg, bg, bg)), Some(None));
                proof {
                    lemma_restore_overwrite(
                        before,
                        self.restore_log(),
                        idx as int,
                        self.current_cells()[idx as int],
                    );
                    assert(before.update(idx as int, self.current_cells()[idx as int]) =~= self.current_cells());
                }
            }
            col = col + 1;
        }
    }
}

/// Columns a grapheme cluster takes; `at_least_one` counts zero-width
/// clusters as one column.
pub open spec fn cluster_cols(g: Seq<char>, at_least_one: bool) -> nat {
    if at_least_one && display_width(g) == 0 {
        1
    } else {
        display_width(g) as nat
    }
}

/// One entry per terminal column the clusters take: the cluster, the
/// column's index within it, and the cluster's width.
pub open spec fn text_units(clusters: Seq<Seq<char>>, at_least_one: bool) -> Seq<(Seq<char>, usize, usize)>
    decreases clusters.len(),
{
    if clusters.len() == 0 {
        Seq::empty()
    } else {
        let g = clusters.last();
        let w = cluster_cols(g, at_least_one);
        text_units(clusters.drop_last(), at_least_one) + Seq::new(
            w,
            |i: int| (g, i as usize, w as usize),
        )
    }
}

pub open spec fn unit_grapheme(u: (Seq<char>, usize, usize), color: Color) -> GraphemeView {
    GraphemeView { text: u.0, index: u.1, width: u.2, color }
}

/// Writing a text column into a cell: a cell already showing the same text
/// in the same color keeps its grapheme.
pub open spec fn text_cell(c: CellView, u: (Seq<char>, usize, usize), color: Color) -> CellView {
    match c.grapheme {
        Some(p) if p.color == color && p.text == u.0 => c,
        _ => CellView { grapheme: Some(unit_grapheme(u, color)), ..c },
    }
}

proof fn lemma_text_units_take(clusters: Seq<Seq<char>>, at_least_one: bool, n: int)
    requires
        0 <= n < clusters.len(),
    ensures
        text_units(clusters.take(n + 1), at_least_one) == text_units(clusters.take(n), at_least_one)
            + Seq::new(
            cluster_cols(clusters[n], at_least_one),
            |i: int|
                (
                    clusters[n],
                    i as usize,
                    cluster_cols(clusters[n], at_least_one) as usize,
                ),
        ),
{
    assert(clusters.take(n + 1).drop_last() == clusters.take(n));
    assert(clusters.take(n + 1).last() == clusters[n]);
}

/// The grid index a text origin (in pixels, two per column and four per row)
/// maps to, with Rust's truncating division.
pub open spec fn text_index(origin: Point, vw: usize) -> int {
    crate::vimium::trunc_div(origin.x as int, 2) + crate::vimium::trunc_div(origin.y + 1, 4) * (
    vw as i32)
}

pub open spec fn text_index_ok(origin: Point, vw: usize) -> bool {
    origin.y + 1 <= i32::MAX && crate::vimium::trunc_div(origin.y + 1, 4) * (vw as i32) == (
    crate::vimium::trunc_div(origin.y + 1, 4) * (vw as i32)) as i32 && i32::MIN <= text_index(
        origin,
        vw,
    ) <= i32::MAX
}

pub open spec fn min_int(a: int, b: int) -> int {
    if a <= b {
        a
    } else {
        b
    }
}

impl Renderer {
    /// Writes `text` into grid row `row` from column 0, one cluster per
    /// column run (at least one column each), stopping at the row's end.
    /// The cells are expected to be snapshotted already.
    fn overlay_text(&mut self, text: &str, row: usize, viewport_w: usize, fg: Color)
        requires
            old(self).wf(),
            row * viewport_w + viewport_w <= usize::MAX,
            forall|i: int|
                row * viewport_w <= i < row * viewport_w + viewport_w && i < old(
                    self,
                ).current_cells().len() ==> logged(old(self).restore_log(), i),
        ensures
            final(self).wf(),
            final(self).same_but_overlay(*old(self)),
            final(self).restore_log() == old(self).restore_log(),
            apply_restore(final(self).current_cells(), final(self).restore_log()) == apply_restore(
                old(self).current_cells(),
                old(self).restore_log(),
            ),
            forall|i: int|
                0 <= i < old(self).current_cells().len() ==> #[trigger] final(self).current_cells()[i]
                    == if row * viewport_w <= i < row * viewport_w + min_int(
                    text_units(grapheme_clusters(text@), true).len() as int,
                    viewport_w as int,
                ) {
                    CellView {
                        grapheme: Some(
                            unit_grapheme(
                                text_units(grapheme_clusters(text@), true)[i - row * viewport_w],
                                fg,
                            ),
                        ),
                        ..old(self).current_cells()[i]
                    }
                } else {
                    old(self).current_cells()[i]
                },
    {
        let row_off = row * viewport_w;
        let ghost old_cells = self.current_cells();
        let ghost target = apply_restore(old_cells, self.restore_log());
        let ghost cl = grapheme_clusters(text@);
        let ghost units = text_units(cl, true);
        let gs = graphemes(text);
        let mut col: usize = 0;
        let mut gi: usize = 0;
        while gi < gs.len() && col < viewport_w
            invariant
                self.wf(),
                self.same_but_overlay(*old(self)),
                self.restore_log() == old(self).restore_log(),
                strings_view(gs@) == cl,
                cl == grapheme_clusters(text@),
                units == text_units(cl, true),
                old_cells == old(self).current_cells(),
                target == apply_restore(old_cells, old(self).restore_log()),
                row_off == row * viewport_w,
                row_off + viewport_w <= usize::MAX,
                gi <= gs.len(),
                col == text_units(cl.take(gi as int), true).len(),
                col <= viewport_w,
                self.current_cells().len() == old_cells.len(),
                apply_restore(self.current_cells(), self.restore_log()) == target,
                forall|i: int|
                    row_off <= i < row_off + viewport_w && i < old_cells.len() ==> logged(
                        self.restore_log(),
                        i,
                    ),
                forall|i: int|
                    0 <= i < old_cells.len() ==> #[trigger] self.current_cells()[i] == if row_off
                        <= i < row_off + col {
                        CellView {
                            grapheme: Some(unit_grapheme(units[i - row_off], fg)),
                            ..old_cells[i]
                        }
                    } else {
                        old_cells[i]
                    },
            decreases gs.len() - gi,
        {
            let g = &gs[gi];
            let w0 = width(g.as_str());
            let w = if w0 > 1 {
                w0
            } else {
                1
            };
            proof {
                assert(cl.len() == gs@.len());
                assert(cl[gi as int] == g@);
                lemma_text_units_take(cl, true, gi as int);
                lemma_units_prefix(cl, true, gi as int + 1);
                assert(text_units(cl.take(gi as int + 1), true).len() <= text_units(cl, true).len());
                assert(text_units(cl.take(gi as int + 1), true).len() <= units.len());
                lemma_units_prefix(cl, true, gi as int);
                let t1 = text_units(cl.take(gi + 1), true);
                assert forall|j: int| col <= j < col + w implies units[j] == (
                    cl[gi as int],
                    (j - col) as usize,
                    w,
                ) by {
                    assert(t1[j] == units[j]);
                }
            }
            let mut i: usize = 0;
            while i < w && col + i < viewport_w
                invariant
                    self.wf(),
                    self.same_but_overlay(*old(self)),
                    self.restore_log() == old(self).restore_log(),
                    cl == grapheme_clusters(text@),
                    units == text_units(cl, true),
                    old_cells == old(self).current_cells(),
                    target == apply_restore(old_cells, old(self).restore_log()),
                    row_off == row * viewport_w,
                    row_off + viewport_w <= usize::MAX,
                    col < viewport_w,
                    i <= w,
                    col + i <= viewport_w,
                    w == cluster_cols(cl[gi as int], true),
                    g@ == cl[gi as int],
                    col + w == text_units(cl.take(gi + 1), true).len(),
                    text_units(cl.take(gi + 1), true).len() <= units.len(),
                    forall|j: int|
                        col <= j < col + w ==> units[j] == (cl[gi as int], (j - col) as usize, w),
                    self.current_cells().len() == old_cells.len(),
                    apply_restore(self.current_cells(), self.restore_log()) == target,
                    forall|j: int|
                        row_off <= j < row_off + viewport_w && j < old_cells.len() ==> logged(
                            self.restore_log(),
                            j,
                        ),
                    forall|j: int|
                        0 <= j < old_cells.len() ==> #[trigger] self.current_cells()[j] == if row_off
                            <= j < row_off + col + i {
                            CellView {
                                grapheme: Some(unit_grapheme(units[j - row_off], fg)),
                                ..old_cells[j]
                            }
                        } else {
                            old_cells[j]
                        },
                decreases w - i,
            {
                let idx = row_off + col + i;
                if idx < self.current.len() {
                    let gr = Grapheme { char: g.clone(), index: i, width: w, color: fg };
                    let ghost before = self.current_cells();
                    self.write_cell(idx, None, Some(Some(gr)));
                    proof {
                        assert(units[col + i] == (cl[gi as int], i, w));
                        lemma_restore_overwrite(
                            before,
                            self.restore_log(),
                            idx as int,
                            self.current_cells()[idx as int],
                        );
                        assert(before.update(idx as int, self.current_cells()[idx as int])
                            =~= self.current_cells());
                    }
                }
                i = i + 1;
            }
            if i < w {
                return;
            }
            col = col + w;
            gi = gi + 1;
        }
        proof {
            if gi == gs.len() {
                assert(cl.take(gi as int) == cl);
            } else {
                lemma_units_prefix(cl, true, gi as int);
            }
        }
    }
}

/// The first grid index text drawn at `origin` goes to (the buffer's end
/// when the origin maps before the grid).
pub open spec fn text_start(origin: Point, vw: usize, len: int) -> int {
    min_int(len, ((text_index(origin, vw) as i32) as usize) as int)
}

impl Renderer {
    /// Writes `string` into the grid, one grapheme cluster per run of columns
    /// as wide as the cluster, starting at the cell that the pixel position
    /// `origin` falls in, and stopping at the end of the grid (see
    /// `draw_graphemes`).
    pub fn draw_text(&mut self, string: &str, origin: Point, color: Color)
        requires
            old(self).wf(),
            text_index_ok(origin, old(self).viewport().width as usize),
        ensures
            final(self).wf(),
            final(self).viewport() == old(self).viewport(),
            final(self).previous_cells() == old(self).previous_cells(),
            final(self).restore_log() == old(self).restore_log(),
            final(self).keys() == old(self).keys(),
            final(self).true_color_enabled() == old(self).true_color_enabled(),
            final(self).current_cells() == text_cells(
                old(self).current_cells(),
                string@,
                origin,
                old(self).viewport().width as usize,
                color,
            ),
    {
        let gs = graphemes(string);
        let ghost cl = grapheme_clusters(string@);
        let mut pairs: Vec<(String, usize)> = Vec::new();
        let mut k: usize = 0;
        while k < gs.len()
            invariant
                strings_view(gs@) == cl,
                k <= gs@.len(),
                pairs_view(pairs@) == with_widths(cl).take(k as int),
            decreases gs@.len() - k,
        {
            let g = gs[k].clone();
            let w = width(g.as_str());
            assert(cl[k as int] == gs@[k as int]@);
            assert(g@ == cl[k as int]);
            let ghost before = pairs_view(pairs@);
            pairs.push((g, w));
            assert(pairs_view(pairs@) =~= before.push((cl[k as int], display_width(cl[k as int]))));
            assert(with_widths(cl).take(k + 1) =~= with_widths(cl).take(k as int).push(with_widths(cl)[k as int]));
            assert(pairs_view(pairs@) =~= with_widths(cl).take(k + 1));
            k = k + 1;
        }
        assert(with_widths(cl).take(cl.len() as int) =~= with_widths(cl));
        proof {
            lemma_pair_units(cl, false);
        }
        let ghost old_cells = self.current_cells();
        self.draw_graphemes(&pairs, origin, color);
        assert(self.current_cells() =~= text_cells(old_cells, string@, origin, self.viewport().width as usize, color));
    }

    /// Writes the grapheme clusters `graphemes`, each with the number of
    /// columns it takes, into the grid: one cell per column, starting at the
    /// cell that the pixel position `origin` falls in and stopping at the end
    /// of the grid. A cell already showing the same cluster in the same color
    /// keeps its grapheme (see `text_cell`).
    pub fn draw_graphemes(&mut self, graphemes: &Vec<(String, usize)>, origin: Point, color: Color)
        requires
            old(self).wf(),
            text_index_ok(origin, old(self).viewport().width as usize),
        ensures
            final(self).wf(),
            final(self).viewport() == old(self).viewport(),
            final(self).previous_cells() == old(self).previous_cells(),
            final(self).restore_log() == old(self).restore_log(),
            final(self).keys() == old(self).keys(),
            final(self).true_color_enabled() == old(self).true_color_enabled(),
            ({
                let len = old(self).current_cells().len() as int;
                let start = text_start(origin, old(self).viewport().width as usize, len);
                let units = pair_units(pairs_view(graphemes@), false);
                forall|i: int|
                    0 <= i < len ==> #[trigger] final(self).current_cells()[i] == if start <= i
                        < start + min_int(units.len() as int, len - start) {
                        text_cell(old(self).current_cells()[i], units[i - start], color)
                    } else {
                        old(self).current_cells()[i]
                    }
            }),
    {
        let len = self.current.len();
        let vw = self.size.width as usize;
        let index: i32 = origin.x / 2 + (origin.y + 1) / 4 * (vw as i32);
        let start: usize = if (index as usize) < len {
            index as usize
        } else {
            len
        };
        let ghost old_cells = self.current_cells();
        let ghost cl = pairs_view(graphemes@);
        let ghost units = pair_units(cl, false);
        let mut pos: usize = start;
        let mut gi: usize = 0;
        proof {
            assert(start == text_start(origin, vw, len as int));
        }
        while gi < graphemes.len() && pos < len
            invariant
                self.wf(),
                self.same_but_overlay(*old(self)),
                self.restore_log() == old(self).restore_log(),
                cl == pairs_view(graphemes@),
                units == pair_units(cl, false),
                old_cells == old(self).current_cells(),
                len == old_cells.len(),
                start == text_start(origin, old(self).viewport().width as usize, len as int),
                start <= pos <= len,
                gi <= graphemes@.len(),
                pos - start == pair_units(cl.take(gi as int), false).len(),
                self.current_cells().len() == old_cells.len(),
                forall|i: int|
                    0 <= i < old_cells.len() ==> #[trigger] self.current_cells()[i] == if start <= i
                        < pos {
                        text_cell(old_cells[i], units[i - start], color)
                    } else {
                        old_cells[i]
                    },
            decreases graphemes@.len() - gi,
        {
            let g = &graphemes[gi].0;
            let w = graphemes[gi].1;
            proof {
                assert(cl[gi as int] == (g@, w));
                lemma_pair_units_take(cl, false, gi as int);
                lemma_pair_units_prefix(cl, false, gi as int + 1);
                let t1 = pair_units(cl.take(gi + 1), false);
                let p0 = pos - start;
                assert forall|j: int| p0 <= j < p0 + w implies units[j] == (
                    g@,
                    (j - p0) as usize,
                    w,
                ) by {
                    assert(t1[j] == units[j]);
                }
            }
            let ghost pos0 = pos;
            let mut i: usize = 0;
            while i < w && pos < len
                invariant
                    self.wf(),
                    self.same_but_overlay(*old(self)),
                    self.restore_log() == old(self).restore_log(),
                    units == pair_units(cl, false),
                    old_cells == old(self).current_cells(),
                    len == old_cells.len(),
                    start == text_start(origin, old(self).viewport().width as usize, len as int),
                    start <= pos0,
                    pos == pos0 + i,
                    pos <= len,
                    i <= w,
                    pos0 - start + w == pair_units(cl.take(gi + 1), false).len(),
                    pair_units(cl.take(gi + 1), false).len() <= units.len(),
                    forall|j: int|
                        pos0 - start <= j < pos0 - start + w ==> units[j] == (
                            g@,
                            (j - (pos0 - start)) as usize,
                            w,
                        ),
                    self.current_cells().len() == old_cells.len(),
                    forall|j: int|
                        0 <= j < old_cells.len() ==> #[trigger] self.current_cells()[j] == if start
                            <= j < pos {
                            text_cell(old_cells[j], units[j - start], color)
                        } else {
                            old_cells[j]
                        },
                decreases w - i,
            {
                let keep = match &self.current[pos].grapheme {
                    Some(p) => p.color == color && p.char == *g,
                    None => false,
                };
                assert(self.current_cells()[pos as int] == old_cells[pos as int]);
                if !keep {
                    let gr = Grapheme { char: g.clone(), index: i, width: w, color };
                    self.write_cell(pos, None, Some(Some(gr)));
                }
                proof {
                    assert(units[pos - start] == (g@, i, w));
                }
                pos = pos + 1;
                i = i + 1;
            }
            if i < w {
                proof {
                    lemma_pair_units_prefix(cl, false, gi as int + 1);
                }
                assert(pos == len);
                return;
            }
            gi = gi + 1;
        }
        proof {
            if gi == graphemes@.len() {
                assert(cl.take(gi as int) == cl);
            } else {
                lemma_pair_units_prefix(cl, false, gi as int);
            }
        }
    }
}

pub open spec fn pairs_view(v: Seq<(String, usize)>) -> Seq<(Seq<char>, usize)> {
    v.map_values(|p: (String, usize)| (p.0@, p.1))
}

/// Each cluster with the columns it takes.
pub open spec fn with_widths(clusters: Seq<Seq<char>>) -> Seq<(Seq<char>, usize)> {
    clusters.map_values(|g: Seq<char>| (g, display_width(g)))
}

/// Columns a cluster of width `w` takes; `at_least_one` counts zero-width
/// clusters as one column.
pub open spec fn pair_cols(w: usize, at_least_one: bool) -> nat {
    if at_least_one && w == 0 {
        1
    } else {
        w as nat
    }
}

/// One entry per terminal column the clusters take: the cluster, the
/// column's index within it, and the cluster's width (see `text_units`).
pub open spec fn pair_units(pairs: Seq<(Seq<char>, usize)>, at_least_one: bool) -> Seq<(Seq<char>, usize, usize)>
    decreases pairs.len(),
{
    if pairs.len() == 0 {
        Seq::empty()
    } else {
        let g = pairs.last();
        let w = pair_cols(g.1, at_least_one);
        pair_units(pairs.drop_last(), at_least_one) + Seq::new(w, |i: int| (g.0, i as usize, w as usize))
    }
}

/// The units of clusters with their widths are those of the clusters.
proof fn lemma_pair_units(clusters: Seq<Seq<char>>, at_least_one: bool)
    ensures
        pair_units(with_widths(clusters), at_least_one) == text_units(clusters, at_least_one),
    decreases clusters.len(),
{
    if clusters.len() > 0 {
        lemma_pair_units(clusters.drop_last(), at_least_one);
        assert(with_widths(clusters).drop_last() =~= with_widths(clusters.drop_last()));
        assert(with_widths(clusters).last() == (clusters.last(), display_width(clusters.last())));
    }
}

proof fn lemma_pair_units_take(pairs: Seq<(Seq<char>, usize)>, at_least_one: bool, n: int)
    requires
        0 <= n < pairs.len(),
    ensures
        pair_units(pairs.take(n + 1), at_least_one) == pair_units(pairs.take(n), at_least_one) + Seq::new(
            pair_cols(pairs[n].1, at_least_one),
            |i: int| (pairs[n].0, i as usize, pair_cols(pairs[n].1, at_least_one) as usize),
        ),
{
    assert(pairs.take(n + 1).drop_last() == pairs.take(n));
    assert(pairs.take(n + 1).last() == pairs[n]);
}

proof fn lemma_pair_units_prefix(pairs: Seq<(Seq<char>, usize)>, at_least_one: bool, n: int)
    requires
        0 <= n <= pairs.len(),
    ensures
        pair_units(pairs.take(n), at_least_one).len() <= pair_units(pairs, at_least_one).len(),
        forall|j: int|
            0 <= j < pair_units(pairs.take(n), at_least_one).len() ==> pair_units(
                pairs.take(n),
                at_least_one,
            )[j] == pair_units(pairs, at_least_one)[j],
    decreases pairs.len() - n,
{
    if n < pairs.len() {
        lemma_pair_units_take(pairs, at_least_one, n);
        lemma_pair_units_prefix(pairs, at_least_one, n + 1);
    } else {
        assert(pairs.take(n) == pairs);
    }
}

/// A find match on row `row` spanning at least one of its `vw` columns.
pub open spec fn entry_on_row(e: (usize, usize, usize), row: usize, vw: usize) -> bool {
    e.0 == row && e.1 < e.2 <= vw
}

/// The entries of `s` from `from` on are on row `row` and span at least
/// one of its `vw` columns.
pub open spec fn row_entries_ok(s: Seq<(usize, usize, usize)>, from: int, row: usize, vw: usize) -> bool {
    forall|k: int| from <= k < s.len() ==> entry_on_row(#[trigger] s[k], row, vw)
}

proof fn lemma_row_entries_push(
    s: Seq<(usize, usize, usize)>,
    from: int,
    row: usize,
    vw: usize,
    e: (usize, usize, usize),
)
    requires
        row_entries_ok(s, from, row, vw),
        entry_on_row(e, row, vw),
        0 <= from <= s.len(),
    ensures
        row_entries_ok(s.push(e), from, row, vw),
{
    assert forall|k: int| from <= k < s.push(e).len() implies entry_on_row(#[trigger] s.push(e)[k], row, vw) by {
        if k < s.len() {
            assert(s.push(e)[k] == s[k]);
        } else {
            assert(s.push(e)[k] == e);
        }
    }
}

/// Appends the spans of the occurrences of `query` in `lower` (a row's
/// lower-cased text with its `pieces`) to `out`.
fn push_row_matches(
    lower: &Vec<char>,
    pieces: &Vec<(usize, usize)>,
    query: &Vec<char>,
    row: usize,
    viewport_w: usize,
    out: &mut Vec<(usize, usize, usize)>,
)
    requires
        query@.len() >= 1,
        viewport_w > 0,
        forall|j: int| 0 <= j < pieces@.len() ==> #[trigger] pieces@[j].1 < viewport_w,
    ensures
        row_entries_ok(final(out)@, old(out)@.len() as int, row, viewport_w),
        final(out)@ == old(out)@ + match_entries(
            occurrences_from(lower@, query@, 0),
            pieces_view(pieces@),
            query@.len() as int,
            viewport_w as int,
            row as int,
        ),
{
    let qlen = query.len();
    let ghost vw = viewport_w as int;
    let ghost pv = pieces_view(pieces@);
    let ghost occ = occurrences_from(lower@, query@, 0);
    let ghost base = out@;
    let ghost mut done: Seq<int> = Seq::empty();
    let mut start: usize = 0;
    let n = lower.len();
    assert(occ =~= done + occurrences_from(lower@, query@, start as int));
    assert(out@ =~= base + match_entries(done, pv, qlen as int, vw, row as int));
    let mut searching = true;
    while searching
        invariant
            n == lower@.len(),
            qlen == query@.len(),
            qlen >= 1,
            vw == viewport_w,
            pv == pieces_view(pieces@),
            base == old(out)@,
            start <= lower@.len(),
            occ == occurrences_from(lower@, query@, 0),
            searching ==> occ == done + occurrences_from(lower@, query@, start as int),
            !searching ==> occ == done,
            out@ == base + match_entries(done, pv, qlen as int, vw, row as int),
            forall|j: int| 0 <= j < pieces@.len() ==> #[trigger] pieces@[j].1 < viewport_w,
            viewport_w > 0,
            base.len() <= out@.len(),
            row_entries_ok(out@, base.len() as int, row, viewport_w),
        decreases lower@.len() + 1 - start + if searching {
            1int
        } else {
            0int
        },
    {
        match find_from(lower, query, start) {
            None => {
                proof {
                    lemma_occurrences_none(lower@, query@, start as int);
                    assert(occ =~= done);
                }
                searching = false;
            },
            Some(abs) => {
                let end = abs + qlen;
                let c0 = col_before(pieces, abs);
                proof {
                    lemma_col_before_bound(pieces@, abs as int, vw);
                }
                let c1 = col_after(pieces, end, viewport_w);
                proof {
                    lemma_col_after_bound(pieces@, end as int, vw);
                }
                let c1 = if c1 >= c0 + 1 {
                    c1
                } else {
                    c0 + 1
                };
                let ghost o0 = out@;
                out.push((row, c0, c1));
                proof {
                    lemma_row_entries_push(o0, base.len() as int, row, viewport_w, (row, c0, c1));
                }
                proof {
                    lemma_occurrences_next(lower@, query@, start as int, abs as int);
                    assert((row, c0, c1) == match_entry(pv, abs as int, qlen as int, vw, row as int));
                    assert(match_entries(done.push(abs as int), pv, qlen as int, vw, row as int)
                        =~= match_entries(done, pv, qlen as int, vw, row as int).push(
                        match_entry(pv, abs as int, qlen as int, vw, row as int),
                    ));
                    done = done.push(abs as int);
                    assert(occ =~= done + occurrences_from(lower@, query@, end as int));
                }
                start = end;
            },
        }
    }
}

proof fn lemma_col_after_bound(pieces: Seq<(usize, usize)>, pos: int, vw: int)
    requires
        forall|j: int| 0 <= j < pieces.len() ==> #[trigger] pieces[j].1 < vw,
    ensures
        0 <= col_at_or_after(pieces_view(pieces), pos, vw) <= vw || col_at_or_after(
            pieces_view(pieces),
            pos,
            vw,
        ) == vw,
    decreases pieces.len(),
{
    if pieces.len() > 0 {
        assert(pieces_view(pieces).drop_first() =~= pieces_view(pieces.drop_first()));
        lemma_col_after_bound(pieces.drop_first(), pos, vw);
    }
}

proof fn lemma_col_before_bound(pieces: Seq<(usize, usize)>, pos: int, vw: int)
    requires
        forall|j: int| 0 <= j < pieces.len() ==> #[trigger] pieces[j].1 < vw,
    ensures
        0 <= col_at_or_before(pieces_view(pieces), pos),
        col_at_or_before(pieces_view(pieces), pos) < vw || col_at_or_before(pieces_view(pieces), pos) == 0,
    decreases pieces.len(),
{
    if pieces.len() > 0 {
        assert(pieces_view(pieces).drop_last() =~= pieces_view(pieces.drop_last()));
        lemma_col_before_bound(pieces.drop_last(), pos, vw);
    }
}

impl Renderer {
    /// The searchable text of grid row `row` and its pieces (see `scan_row`).
    fn scan_grid_row(&self, row: usize, viewport_w: usize) -> (r: (Vec<char>, Vec<(usize, usize)>))
        requires
            self.wf(),
            viewport_w == self.viewport().width,
            1 <= row <= self.viewport().height,
        ensures
            (r.0@, pieces_view(r.1@)) == scan_row(
                self.current_cells(),
                (row * viewport_w) as int,
                viewport_w as int,
                0,
                Seq::empty(),
                Seq::empty(),
            ),
            forall|j: int| 0 <= j < r.1@.len() ==> #[trigger] r.1@[j].1 < viewport_w,
    {
        let ghost cells = self.current_cells();
        let ghost vw = viewport_w as int;
        let ghost h = self.viewport().height as int;
        let n = self.current.len();
        proof {
            assert(row * vw + vw <= vw * (h + 1)) by (nonlinear_arith)
                requires
                    row <= h,
                    vw >= 0,
            ;
            assert(cells.len() == n);
        }
        let row_off = row * viewport_w;
        let ghost final_scan = scan_row(cells, row_off as int, vw, 0, Seq::empty(), Seq::empty());
        let mut text: Vec<char> = Vec::new();
        let mut pieces: Vec<(usize, usize)> = Vec::new();
        let mut col: usize = 0;
        assert(pieces_view(pieces@) =~= Seq::<(int, int)>::empty());
        assert(text@ =~= Seq::<char>::empty());
        while col < viewport_w
            invariant
                cells == self.current_cells(),
                self.wf(),
                n == cells.len(),
                vw == viewport_w,
                row_off + vw <= cells.len(),
                col <= vw,
                final_scan == scan_row(cells, row_off as int, vw, 0, Seq::empty(), Seq::empty()),
                scan_row(cells, row_off as int, vw, col as int, text@, pieces_view(pieces@))
                    == final_scan,
                forall|j: int| 0 <= j < pieces@.len() ==> #[trigger] pieces@[j].1 < viewport_w,
            decreases viewport_w - col,
        {
            let cell = &self.current[row_off + col];
            assert(cells[row_off + col] == cell@);
            let ghost p = cell_piece(cell@);
            let ghost t0 = text@;
            let ghost p0 = pieces_view(pieces@);
            pieces.push((text.len(), col));
            assert(pieces_view(pieces@) =~= p0.push((t0.len() as int, col as int)));
            let mut step: usize = 1;
            let mut started = false;
            match &cell.grapheme {
                Some(g) => {
                    if g.index == 0 {
                        let gc = chars_of(g.char.as_str());
                        extend_chars(&mut text, &gc);
                        step = if g.width >= 1 {
                            g.width
                        } else {
                            1
                        };
                        started = true;
                    }
                },
                None => {},
            }
            if !started {
                text.push(' ');
                assert(text@ =~= t0 + seq![' ']);
            }
            assert(text@ == t0 + p.0);
            assert(step as int == p.1);
            proof {
                if col + step >= vw {
                    assert(scan_row(cells, row_off as int, vw, col + step, text@, pieces_view(pieces@))
                        == scan_row(cells, row_off as int, vw, vw, text@, pieces_view(pieces@)));
                }
            }
            col = if step >= viewport_w - col {
                viewport_w
            } else {
                col + step
            };
        }
        (text, pieces)
    }

    /// The find matches of one grid row (see `row_matches`).
    fn find_row_matches(
        &self,
        query: &Vec<char>,
        row: usize,
        viewport_w: usize,
        out: &mut Vec<(usize, usize, usize)>,
    )
        requires
            self.wf(),
            viewport_w == self.viewport().width,
            1 <= row <= self.viewport().height,
            query@.len() >= 1,
            viewport_w > 0,
        ensures
            row_entries_ok(final(out)@, old(out)@.len() as int, row, viewport_w),
            final(out)@ == old(out)@ + row_matches(
                self.current_cells(),
                viewport_w as int,
                row as int,
                query@,
            ),
    {
        let (text, pieces) = self.scan_grid_row(row, viewport_w);
        let lower = lower_chars(&text);
        push_row_matches(&lower, &pieces, query, row, viewport_w, out);
    }
}

/// The text color a cell contributes, if any (see `text_color_of`).
fn cell_text_color(c: &Cell) -> (r: Option<Color>)
    ensures
        r == text_color_of(c@),
{
    match &c.grapheme {
        Some(g) => {
            if g.index != 0 {
                return None;
            }
            let cs = chars_of(g.char.as_str());
            if cs.len() == 0 || is_whitespace(cs[0]) {
                None
            } else {
                Some(g.color)
            }
        },
        None => None,
    }
}

/// Counts one more occurrence of `c`.
fn add_to_buckets(buckets: &mut Vec<(Color, usize)>, c: Color, ghost_s: Ghost<Seq<Color>>)
    requires
        buckets_view(old(buckets)@) == color_buckets(ghost_s@),
        ghost_s@.len() < usize::MAX,
    ensures
        buckets_view(final(buckets)@) == color_buckets(ghost_s@.push(c)),
{
    let ghost s = ghost_s@;
    proof {
        lemma_buckets_distinct(s);
        assert(ghost_s@.push(c).drop_last() == s);
    }
    let mut j: usize = 0;
    while j < buckets.len()
        invariant
            s == ghost_s@,
            s.len() < usize::MAX,
            buckets_view(buckets@) == color_buckets(s),
            j <= buckets@.len(),
            forall|k: int| 0 <= k < j ==> buckets@[k].0 != c,
        decreases buckets@.len() - j,
    {
        if buckets[j].0 == c {
            let n = buckets[j].1;
            proof {
                lemma_buckets_distinct(s);
                assert(buckets_view(buckets@)[j as int].1 == n);
            }
            assert(n <= s.len());
            buckets.set(j, (c, n + 1));
            proof {
                let b = color_buckets(s);
                assert(b[j as int].0 == c);
                let i = choose|i: int| 0 <= i < b.len() && b[i].0 == c;
                assert(i == j as int);
                assert(buckets_view(buckets@) =~= b.update(i, (c, b[i].1 + 1)));
                assert(s.push(c).drop_last() == s);
                assert(s.push(c).last() == c);
            }
            return;
        }
        j = j + 1;
    }
    buckets.push((c, 1));
    proof {
        let b = color_buckets(s);
        assert(!exists|i: int| 0 <= i < b.len() && b[i].0 == c) by {
            if exists|i: int| 0 <= i < b.len() && b[i].0 == c {
                let i = choose|i: int| 0 <= i < b.len() && b[i].0 == c;
                assert(buckets@[i].0 == c);
            }
        }
        assert(buckets_view(buckets@) =~= b.push((c, 1nat)));
        assert(s.push(c).drop_last() == s);
        assert(s.push(c).last() == c);
    }
}

pub open spec fn buckets_view(v: Seq<(Color, usize)>) -> Seq<(Color, nat)> {
    v.map_values(|e: (Color, usize)| (e.0, e.1 as nat))
}

impl Renderer {
    /// The most frequent text color of the page rows (see `dominant_color`).
    fn dominant_text_color(&self, viewport_w: usize, viewport_h: usize) -> (r: Option<Color>)
        requires
            self.wf(),
            viewport_w == self.viewport().width,
            viewport_h == self.viewport().height,
            viewport_w > 0,
        ensures
            r == dominant_color(text_colors(self.current_cells(), viewport_w as int, viewport_h as int)),
    {
        let ghost cells = self.current_cells();
        let ghost vw = viewport_w as int;
        proof {
            if vw > 0 {
                assert(viewport_h <= vw * viewport_h) by (nonlinear_arith)
                    requires
                        vw >= 1,
                        viewport_h >= 0,
                ;
            }
        }
        let n = self.current.len();
        let mut buckets: Vec<(Color, usize)> = Vec::new();
        let mut row: usize = 1;
        assert(buckets_view(buckets@) =~= color_buckets(Seq::<Color>::empty()));
        while row <= viewport_h
            invariant
                self.wf(),
                cells == self.current_cells(),
                n == cells.len(),
                vw == viewport_w,
                viewport_w == self.viewport().width,
                viewport_h == self.viewport().height,
                1 <= row <= viewport_h + 1,
                viewport_h < usize::MAX,
                buckets_view(buckets@) == color_buckets(text_colors(cells, vw, row - 1)),
                text_colors(cells, vw, row - 1).len() <= (row - 1) * vw,
            decreases viewport_h + 1 - row,
        {
            proof {
                assert(row * vw + vw <= vw * (viewport_h + 1)) by (nonlinear_arith)
                    requires
                        row <= viewport_h,
                        vw >= 0,
                ;
                assert((row - 1) * vw + vw == row * vw) by (nonlinear_arith);
            }
            let row_off = row * viewport_w;
            let ghost prefix = text_colors(cells, vw, row - 1);
            let mut col: usize = 0;
            while col < viewport_w
                invariant
                    cells == self.current_cells(),
                    n == cells.len(),
                    vw == viewport_w,
                    row_off + vw <= n,
                    row_off == row * vw,
                    col <= vw,
                    prefix.len() <= row_off - vw,
                    buckets_view(buckets@) == color_buckets(prefix + row_text_colors(cells, row_off as int, col as int)),
                    row_text_colors(cells, row_off as int, col as int).len() <= col,
                decreases viewport_w - col,
            {
                let c = cell_text_color(&self.current[row_off + col]);
                assert(cells[row_off + col] == self.current@[row_off + col]@);
                match c {
                    Some(color) => {
                        let ghost s = prefix + row_text_colors(cells, row_off as int, col as int);
                        add_to_buckets(&mut buckets, color, Ghost(s));
                        assert(s.push(color) =~= prefix + row_text_colors(cells, row_off as int, col + 1));
                    },
                    None => {
                        assert(prefix + row_text_colors(cells, row_off as int, col as int) =~= prefix
                            + row_text_colors(cells, row_off as int, col + 1));
                    },
                }
                col = col + 1;
            }
            assert(prefix + row_text_colors(cells, row_off as int, vw) =~= text_colors(cells, vw, row as int));
            row = row + 1;
        }
        if buckets.len() == 0 {
            return None;
        }
        let mut best: usize = 0;
        let mut j: usize = 1;
        while j < buckets.len()
            invariant
                1 <= j <= buckets@.len(),
                best == last_max_index(buckets_view(buckets@), j as int),
                best < j,
            decreases buckets@.len() - j,
        {
            if buckets[j].1 >= buckets[best].1 {
                best = j;
            }
            j = j + 1;
        }
        Some(buckets[best].0)
    }
}

/// What a cell tells the span scanner (see `span_info`).
fn cell_span_info(c: &Cell) -> (r: Option<(Color, usize)>)
    ensures
        match r {
            Some((color, w)) => span_info(c@) == Some((color, w as int)),
            None => span_info(c@) is None,
        },
{
    match &c.grapheme {
        Some(g) => {
            if g.index == 0 {
                let cs = chars_of(g.char.as_str());
                if cs.len() == 0 || is_whitespace(cs[0]) {
                    None
                } else {
                    Some((
                        g.color,
                        if g.width >= 1 {
                            g.width
                        } else {
                            1
                        },
                    ))
                }
            } else {
                Some((Color { r: 0, g: 0, b: 0 }, 1))
            }
        },
        None => None,
    }
}

pub open spec fn open_span_view(c: Option<(usize, Color)>) -> Option<(int, Color)> {
    match c {
        Some((s, color)) => Some((s as int, color)),
        None => None,
    }
}

/// Merges adjacent same-color spans (see `merge_spans`).
fn merge_span_list(spans: &Vec<Span>) -> (r: Vec<Span>)
    ensures
        r@ == merge_spans(spans@),
{
    let mut merged: Vec<Span> = Vec::new();
    let mut i: usize = 0;
    assert(spans@.take(0) =~= Seq::<Span>::empty());
    while i < spans.len()
        invariant
            i <= spans@.len(),
            merged@ == merge_spans(spans@.take(i as int)),
        decreases spans@.len() - i,
    {
        let s = spans[i];
        assert(spans@.take(i + 1).drop_last() == spans@.take(i as int));
        assert(spans@.take(i + 1).last() == s);
        let n = merged.len();
        let can_merge = if n > 0 {
            let last = merged[n - 1];
            last.0 == s.0 && s.1.saturating_sub(last.2) <= 1 && color_distance(s.3, last.3) < 15
        } else {
            false
        };
        if can_merge {
            let last = merged[n - 1];
            merged.set(n - 1, (last.0, last.1, s.2, last.3));
        } else {
            merged.push(s);
        }
        i = i + 1;
    }
    assert(spans@.take(spans@.len() as int) =~= spans@);
    merged
}

/// The spans kept as hint candidates (see `keep_span`).
fn filter_span_list(spans: &Vec<Span>, dominant: Option<Color>) -> (r: Vec<Span>)
    ensures
        r@ == filter_spans(spans@, dominant),
{
    let mut out: Vec<Span> = Vec::new();
    let mut i: usize = 0;
    assert(spans@.take(0) =~= Seq::<Span>::empty());
    while i < spans.len()
        invariant
            i <= spans@.len(),
            out@ == filter_spans(spans@.take(i as int), dominant),
        decreases spans@.len() - i,
    {
        let s = spans[i];
        assert(spans@.take(i + 1).drop_last() == spans@.take(i as int));
        assert(spans@.take(i + 1).last() == s);
        let width = s.2.saturating_sub(s.1);
        let differs = match dominant {
            Some(d) => color_distance(s.3, d) >= 60,
            None => true,
        };
        if width >= 1 && (width <= 30 || differs) {
            out.push(s);
        }
        i = i + 1;
    }
    assert(spans@.take(spans@.len() as int) =~= spans@);
    out
}

impl Renderer {
    /// Appends the text spans of grid row `row` (see `scan_spans`).
    fn scan_row_spans(&self, row: usize, viewport_w: usize, spans: &mut Vec<Span>)
        requires
            self.wf(),
            viewport_w == self.viewport().width,
            1 <= row <= self.viewport().height,
            narrow_cells(self.current_cells()),
            viewport_w <= max_grid_width(),
        ensures
            final(spans)@ == scan_spans(
                self.current_cells(),
                row as int,
                (row * viewport_w) as int,
                viewport_w as int,
                0,
                None,
                old(spans)@,
            ),
    {
        let ghost cells = self.current_cells();
        let ghost vw = viewport_w as int;
        let ghost h = self.viewport().height as int;
        let n = self.current.len();
        proof {
            assert(row * vw + vw <= vw * (h + 1)) by (nonlinear_arith)
                requires
                    row <= h,
                    vw >= 0,
            ;
            assert(cells.len() == n);
        }
        let row_off = row * viewport_w;
        let ghost target = scan_spans(cells, row as int, row_off as int, vw, 0, None, spans@);
        let mut col: usize = 0;
        let mut current: Option<(usize, Color)> = None;
        while col < viewport_w
            invariant
                cells == self.current_cells(),
                n == cells.len(),
                vw == viewport_w,
                vw <= max_grid_width(),
                narrow_cells(cells),
                row_off + vw <= n,
                col <= vw + max_hint_width(),
                current matches Some((st, _)) ==> st < vw && st <= col,
                scan_spans(cells, row as int, row_off as int, vw, col as int, open_span_view(current), spans@)
                    == target,
            decreases viewport_w + 0x4000_0000 - col,
        {
            let cell = &self.current[row_off + col];
            assert(cells[row_off + col] == cell@);
            assert(match cells[row_off + col].grapheme {
                Some(g) => g.width <= max_hint_width(),
                None => true,
            });
            let info = cell_span_info(cell);
            match (current, info) {
                (Some((start, color)), Some((c, w))) => {
                    if color_distance(color, c) < 15 {
                        col = col + w;
                    } else {
                        spans.push((row as u32, start as u32, col as u32, color));
                        current = Some((col, c));
                        col = col + w;
                    }
                },
                (Some((start, color)), None) => {
                    spans.push((row as u32, start as u32, col as u32, color));
                    current = None;
                    col = col + 1;
                },
                (None, Some((c, w))) => {
                    current = Some((col, c));
                    col = col + w;
                },
                (None, None) => {
                    col = col + 1;
                },
            }
        }
        match current {
            Some((start, color)) => {
                spans.push((row as u32, start as u32, col as u32, color));
            },
            None => {},
        }
    }

    /// The spans of the page rows that get a hint (see `candidate_spans`).
    fn hint_candidates(&self, viewport_w: usize, viewport_h: usize) -> (r: Vec<Span>)
        requires
            self.wf(),
            viewport_w == self.viewport().width,
            viewport_h == self.viewport().height,
            viewport_w > 0,
            narrow_cells(self.current_cells()),
            viewport_w <= max_grid_width(),
        ensures
            r@ == candidate_spans(self.current_cells(), viewport_w as int, viewport_h as int),
            all_bounded(r@, viewport_w as int, viewport_h as int),
    {
        let ghost cells = self.current_cells();
        let ghost vw = viewport_w as int;
        proof {
            assert(viewport_h <= vw * viewport_h) by (nonlinear_arith)
                requires
                    vw >= 1,
                    viewport_h >= 0,
            ;
        }
        let dominant = self.dominant_text_color(viewport_w, viewport_h);
        let mut spans: Vec<Span> = Vec::new();
        let mut row: usize = 1;
        while row <= viewport_h
            invariant
                self.wf(),
                cells == self.current_cells(),
                vw == viewport_w,
                viewport_w == self.viewport().width,
                viewport_h == self.viewport().height,
                viewport_h < usize::MAX,
                narrow_cells(cells),
                viewport_w <= max_grid_width(),
                1 <= row <= viewport_h + 1,
                spans@ == spans_upto(cells, vw, row - 1),
            decreases viewport_h + 1 - row,
        {
            self.scan_row_spans(row, viewport_w, &mut spans);
            row = row + 1;
        }
        let merged = merge_span_list(&spans);
        let filtered = filter_span_list(&merged, dominant);
        proof {
            lemma_spans_bounded(cells, vw, viewport_h as int, viewport_h as int);
            lemma_merge_bounded(spans@, vw, viewport_h as int);
            lemma_filter_bounded(merged@, dominant, vw, viewport_h as int);
        }
        filtered
    }

    /// The hint targets of the page rows (see `hint_targets_of`).
    fn build_hint_targets(&self, viewport_w: usize, viewport_h: usize) -> (r: Vec<HintTarget>)
        requires
            self.wf(),
            viewport_w == self.viewport().width,
            viewport_h == self.viewport().height,
            viewport_w > 0,
            narrow_cells(self.current_cells()),
            viewport_w <= max_grid_width(),
            candidate_spans(self.current_cells(), viewport_w as int, viewport_h as int).len()
                <= max_hint_labels(),
        ensures
            hints_view(r@) == hint_targets_of(self.current_cells(), viewport_w as int, viewport_h as int),
            hints_in_range(hints_view(r@)),
    {
        let ghost cells = self.current_cells();
        let ghost vw = viewport_w as int;
        let filtered = self.hint_candidates(viewport_w, viewport_h);
        let ghost c = filtered@;
        let labels = make_hint_labels(filtered.len());
        let mut out: Vec<HintTarget> = Vec::new();
        let mut i: usize = 0;
        while i < filtered.len()
            invariant
                c == filtered@,
                labels@.len() == c.len(),
                forall|k: int| 0 <= k < c.len() ==> #[trigger] labels@[k]@ == hint_label(k, c.len() as int),
                all_bounded(c, vw, viewport_h as int),
                vw <= max_grid_width(),
                i <= c.len(),
                out@.len() == i,
                forall|k: int|
                    0 <= k < i ==> #[trigger] out@[k]@ == (HintView {
                        label: hint_label(k, c.len() as int),
                        row: c[k].0,
                        col_start: c[k].1,
                        col_end: c[k].2,
                    }),
            decreases c.len() - i,
        {
            let s = filtered[i];
            out.push(HintTarget { label: labels[i].clone(), row: s.0, col_start: s.1, col_end: s.2 });
            i = i + 1;
        }
        proof {
            let hv = hints_view(out@);
            assert(hv =~= hint_targets_of(cells, vw, viewport_h as int));
            assert forall|k: int| 0 <= k < hv.len() implies click_in_range(#[trigger] hv[k]) by {
                assert(span_bounded(c[k], vw, viewport_h as int));
            }
        }
        out
    }
}

/// Every find match lies on a page row, and spans at least one of its
/// columns.
pub open spec fn matches_in_grid(ms: Seq<(usize, usize, usize)>, vw: int, vh: int) -> bool {
    forall|k: int| 0 <= k < ms.len() ==> match_in_grid(#[trigger] ms[k], vw, vh)
}

/// A find match on a page row `1..=vh` spanning at least one of its `vw`
/// columns.
pub open spec fn match_in_grid(m: (usize, usize, usize), vw: int, vh: int) -> bool {
    1 <= m.0 <= vh && m.1 < m.2 <= vw
}

impl Renderer {
    /// The find matches of the page rows (see `matches_upto`).
    fn find_matches(&self, query: &Vec<char>, viewport_w: usize, viewport_h: usize) -> (r: Vec<
        (usize, usize, usize),
    >)
        requires
            self.wf(),
            viewport_w == self.viewport().width,
            viewport_h == self.viewport().height,
            viewport_w > 0,
            query@.len() >= 1,
        ensures
            r@ == matches_upto(self.current_cells(), viewport_w as int, viewport_h as int, query@),
            matches_in_grid(r@, viewport_w as int, viewport_h as int),
    {
        let ghost cells = self.current_cells();
        let ghost vw = viewport_w as int;
        proof {
            assert(viewport_h <= vw * viewport_h) by (nonlinear_arith)
                requires
                    vw >= 1,
                    viewport_h >= 0,
            ;
        }
        let mut out: Vec<(usize, usize, usize)> = Vec::new();
        let mut row: usize = 1;
        while row <= viewport_h
            invariant
                self.wf(),
                cells == self.current_cells(),
                vw == viewport_w,
                viewport_w > 0,
                query@.len() >= 1,
                viewport_w == self.viewport().width,
                viewport_h == self.viewport().height,
                viewport_h < usize::MAX,
                1 <= row <= viewport_h + 1,
                out@ == matches_upto(cells, vw, row - 1, query@),
                matches_in_grid(out@, vw, row - 1),
            decreases viewport_h + 1 - row,
        {
            let ghost before = out@;
            self.find_row_matches(query, row, viewport_w, &mut out);
            assert forall|k: int| 0 <= k < out@.len() implies match_in_grid(#[trigger] out@[k], vw, row as int) by {
                if k < before.len() {
                    assert(out@[k] == before[k]);
                    assert(match_in_grid(before[k], vw, row - 1));
                } else {
                    assert(entry_on_row(out@[k], row, viewport_w));
                }
            }
            row = row + 1;
        }
        out
    }

    /// Snapshots cell `idx` and then sets its colors and/or text.
    fn overlay_set(&mut self, idx: usize, quadrant: Option<Quadrant>, grapheme: Option<Option<Grapheme>>)
        requires
            old(self).wf(),
        ensures
            final(self).wf(),
            final(self).same_but_overlay(*old(self)),
            apply_restore(final(self).current_cells(), final(self).restore_log()) == apply_restore(
                old(self).current_cells(),
                old(self).restore_log(),
            ),
            final(self).current_cells() == if idx < old(self).current_cells().len() {
                old(self).current_cells().update(
                    idx as int,
                    CellView {
                        quadrant: match quadrant {
                            Some(q) => q,
                            None => old(self).current_cells()[idx as int].quadrant,
                        },
                        grapheme: match grapheme {
                            Some(g) => crate::cell::opt_grapheme_view(g),
                            None => old(self).current_cells()[idx as int].grapheme,
                        },
                        ..old(self).current_cells()[idx as int]
                    },
                )
            } else {
                old(self).current_cells()
            },
    {
        let ghost log0 = self.restore_log();
        self.snapshot_cell(idx);
        if idx < self.current.len() {
            proof {
                lemma_restore_snapshot(self.current_cells(), log0, idx);
                assert(self.restore_log()[log0.len() as int].0 == idx);
                assert(logged(self.restore_log(), idx as int));
            }
            let ghost before = self.current_cells();
            self.write_cell(idx, quadrant, grapheme);
            proof {
                lemma_restore_overwrite(
                    before,
                    self.restore_log(),
                    idx as int,
                    self.current_cells()[idx as int],
                );
                assert(before.update(idx as int, self.current_cells()[idx as int]) =~= self.current_cells());
            }
        }
    }
}

/// The hint scan can run on this grid: the viewport and every cluster are
/// narrow enough, and there are not more candidates than labels.
pub open spec fn hints_buildable(cells: Seq<CellView>, vw: int, vh: int) -> bool {
    &&& vw <= max_grid_width()
    &&& narrow_cells(cells)
    &&& candidate_spans(cells, vw, vh).len() <= max_hint_labels()
}

impl Renderer {
    /// Paints the find matches (see `highlight_matches`).
    fn highlight_phase(&mut self, ms: &Vec<(usize, usize, usize)>, cur: usize, viewport_w: usize)
        requires
            old(self).wf(),
            viewport_w == old(self).viewport().width,
            matches_in_grid(ms@, viewport_w as int, old(self).viewport().height as int),
        ensures
            final(self).wf(),
            final(self).same_but_overlay(*old(self)),
            apply_restore(final(self).current_cells(), final(self).restore_log()) == apply_restore(
                old(self).current_cells(),
                old(self).restore_log(),
            ),
            final(self).current_cells() == highlight_matches(
                old(self).current_cells(),
                ms@,
                cur as int,
                viewport_w as int,
            ),
    {
        let ghost cells0 = self.current_cells();
        let ghost target = apply_restore(self.current_cells(), self.restore_log());
        let ghost vw = viewport_w as int;
        let ghost vh = self.viewport().height as int;
        let mut i: usize = 0;
        assert(ms@.take(0) =~= Seq::<(usize, usize, usize)>::empty());
        while i < ms.len()
            invariant
                self.wf(),
                self.same_but_overlay(*old(self)),
                cells0 == old(self).current_cells(),
                vw == viewport_w,
                vw == self.viewport().width,
                vh == self.viewport().height,
                matches_in_grid(ms@, vw, vh),
                i <= ms@.len(),
                apply_restore(self.current_cells(), self.restore_log()) == target,
                target == apply_restore(old(self).current_cells(), old(self).restore_log()),
                self.current_cells() == highlight_matches(cells0, ms@.take(i as int), cur as int, vw),
            decreases ms@.len() - i,
        {
            let (row, c_start, c_end) = ms[i];
            assert(1 <= ms@[i as int].0 <= vh && ms@[i as int].1 < ms@[i as int].2 <= vw);
            let bg = if i == cur {
                Color { r: 255, g: 150, b: 50 }
            } else {
                Color { r: 255, g: 235, b: 110 }
            };
            proof {
                lemma_row_fits(vw, vh, row as int);
            }
            let row_off = row * viewport_w;
            let ghost start_cells = self.current_cells();
            let ghost q = quad(bg);
            let mut col = c_start;
            while col < c_end
                invariant
                    self.wf(),
                    self.same_but_overlay(*old(self)),
                    apply_restore(self.current_cells(), self.restore_log()) == target,
                    c_start <= col <= c_end,
                    c_end <= vw,
                    row_off + vw <= self.current_cells().len(),
                    row_off + vw <= usize::MAX,
                    paint_span(self.current_cells(), row_off as int, col as int, c_end as int, q)
                        == paint_span(start_cells, row_off as int, c_start as int, c_end as int, q),
                    q == quad(bg),
                decreases c_end - col,
            {
                let idx = row_off + col;
                self.overlay_set(idx, Some((bg, bg, bg, bg)), None);
                col = col + 1;
            }
            proof {
                let t1 = ms@.take(i + 1);
                assert(t1.drop_last() == ms@.take(i as int));
                assert(t1.last() == ms@[i as int]);
            }
            i = i + 1;
        }
        assert(ms@.take(ms@.len() as int) =~= ms@);
    }

    /// Draws the labels of the hints matching what was typed (see
    /// `draw_labels`).
    fn labels_phase(&mut self, viewport_w: usize, viewport_h: usize)
        requires
            old(self).wf(),
            viewport_w == old(self).viewport().width,
            viewport_h == old(self).viewport().height,
        ensures
            final(self).wf(),
            final(self).same_but_overlay(*old(self)),
            apply_restore(final(self).current_cells(), final(self).restore_log()) == apply_restore(
                old(self).current_cells(),
                old(self).restore_log(),
            ),
            final(self).current_cells() == draw_labels(
                old(self).current_cells(),
                visible_hints(old(self).keys().hints, old(self).keys().hint_buf),
                (vstd::utf8::encode_utf8(old(self).keys().hint_buf).len() as usize) as int,
                viewport_w as int,
                viewport_h as int,
            ),
    {
        let ghost cells0 = self.current_cells();
        let ghost target = apply_restore(self.current_cells(), self.restore_log());
        let ghost vw = viewport_w as int;
        let ghost vh = viewport_h as int;
        let ghost keys = self.keys();
        let typed = self.vimium.hint_buf().len();
        assert(typed == vstd::utf8::encode_utf8(keys.hint_buf).len() as usize);
        let buf = chars_of(self.vimium.hint_buf());
        let all = self.vimium.hints();
        let mut hints: Vec<HintTarget> = Vec::new();
        let mut k: usize = 0;
        assert(all@.take(0) =~= Seq::<HintTarget>::empty());
        while k < all.len()
            invariant
                k <= all@.len(),
                hints_view(all@) == keys.hints,
                buf@ == keys.hint_buf,
                hints_view(hints@) == visible_hints(hints_view(all@.take(k as int)), buf@),
            decreases all@.len() - k,
        {
            let h = &all[k];
            let label = chars_of(h.label.as_str());
            proof {
                assert(all@.take(k + 1).drop_last() == all@.take(k as int));
                assert(hints_view(all@.take(k + 1)) =~= hints_view(all@.take(k as int)).push(h@));
            }
            proof {
                let t = hints_view(all@.take(k + 1));
                assert(t.drop_last() =~= hints_view(all@.take(k as int)));
                assert(t.last() == h@);
            }
            if starts_with(&label, &buf) {
                hints.push(h.duplicate());
                assert(hints_view(hints@) =~= visible_hints(hints_view(all@.take(k as int)), buf@).push(h@));
            }
            k = k + 1;
        }
        assert(all@.take(all@.len() as int) =~= all@);
        let ghost vis = hints_view(hints@);
        let mut j: usize = 0;
        assert(vis.take(0) =~= Seq::<HintView>::empty());
        while j < hints.len()
            invariant
                self.wf(),
                self.same_but_overlay(*old(self)),
                cells0 == old(self).current_cells(),
                vis == hints_view(hints@),
                vw == viewport_w,
                vw == self.viewport().width,
                vh == viewport_h,
                vh == self.viewport().height,
                j <= hints@.len(),
                apply_restore(self.current_cells(), self.restore_log()) == target,
                target == apply_restore(old(self).current_cells(), old(self).restore_log()),
                self.current_cells() == draw_labels(cells0, vis.take(j as int), typed as int, vw, vh),
            decreases hints@.len() - j,
        {
            let h = &hints[j];
            proof {
                let t1 = vis.take(j + 1);
                assert(t1.drop_last() == vis.take(j as int));
                assert(t1.last() == h@);
            }
            let row = h.row as usize;
            if row != 0 && row < viewport_h {
                proof {
                    lemma_row_fits(vw, vh, row as int);
                }
                let row_off = row * viewport_w;
                let label = chars_of(h.label.as_str());
                let start_col = h.col_start as usize;
                let ghost start_cells = self.current_cells();
                let mut i: usize = 0;
                while i < label.len() && i < viewport_w && start_col < viewport_w - i
                    invariant
                        self.wf(),
                        self.same_but_overlay(*old(self)),
                        apply_restore(self.current_cells(), self.restore_log()) == target,
                        vw == viewport_w,
                        label@ == h@.label,
                        start_col == h.col_start,
                        row == h.row,
                        row_off == row * vw,
                        row_off + vw <= self.current_cells().len(),
                        row_off + vw <= u32::MAX,
                        draw_label(self.current_cells(), h@, typed as int, vw, i as int) == draw_label(
                            start_cells,
                            h@,
                            typed as int,
                            vw,
                            0,
                        ),
                    decreases label@.len() - i,
                {
                    let idx = row_off + start_col + i;
                    let fg = if i < typed {
                        Color { r: 140, g: 60, b: 0 }
                    } else {
                        Color { r: 0, g: 0, b: 0 }
                    };
                    let mut text = String::new();
                    push_char(&mut text, label[i]);
                    let gr = Grapheme { char: text, index: 0, width: 1, color: fg };
                    let lb = Color { r: 255, g: 220, b: 60 };
                    assert(gr@ == GraphemeView { text: seq![h@.label[i as int]], index: 0, width: 1, color: fg });
                    self.overlay_set(idx, Some((lb, lb, lb, lb)), Some(Some(gr)));
                    i = i + 1;
                }
            }
            j = j + 1;
        }
        assert(vis.take(vis.len() as int) =~= vis);
    }

    /// Paints the status bar (see `status_bar`).
    fn status_phase(&mut self, text: &Vec<char>, viewport_w: usize, viewport_h: usize)
        requires
            old(self).wf(),
            viewport_w == old(self).viewport().width,
            viewport_h == old(self).viewport().height,
            viewport_w > 0,
            viewport_h > 0,
        ensures
            final(self).wf(),
            final(self).same_but_overlay(*old(self)),
            apply_restore(final(self).current_cells(), final(self).restore_log()) == apply_restore(
                old(self).current_cells(),
                old(self).restore_log(),
            ),
            final(self).current_cells() == status_bar(
                old(self).current_cells(),
                text@,
                viewport_w as int,
                viewport_h as int,
            ),
    {
        let ghost vw = viewport_w as int;
        let ghost vh = viewport_h as int;
        let ghost cells0 = self.current_cells();
        let row = if viewport_h - 1 >= 1 {
            viewport_h - 1
        } else {
            1
        };
        proof {
            lemma_row_fits(vw, vh, row as int);
        }
        let bg = Color { r: 20, g: 20, b: 20 };
        let fg = Color { r: 255, g: 255, b: 255 };
        self.overlay_row(row, viewport_w, bg);
        let s = string_from_chars(text);
        self.overlay_text(s.as_str(), row, viewport_w, fg);
        assert(self.current_cells() =~= status_bar(cells0, text@, vw, vh));
    }
}

/// The units of a prefix of the clusters are a prefix of all units.
proof fn lemma_units_prefix(clusters: Seq<Seq<char>>, at_least_one: bool, n: int)
    requires
        0 <= n <= clusters.len(),
    ensures
        text_units(clusters.take(n), at_least_one).len() <= text_units(clusters, at_least_one).len(),
        forall|j: int|
            0 <= j < text_units(clusters.take(n), at_least_one).len() ==> text_units(
                clusters.take(n),
                at_least_one,
            )[j] == text_units(clusters, at_least_one)[j],
    decreases clusters.len() - n,
{
    if n < clusters.len() {
        lemma_text_units_take(clusters, at_least_one, n);
        lemma_units_prefix(clusters, at_least_one, n + 1);
    } else {
        assert(clusters.take(n) == clusters);
    }
}

/// The keyboard state after an overlay pass: hint mode gets its targets, or
/// is left when the page has none.
pub open spec fn overlay_keys(keys: VimiumState, cells: Seq<CellView>, size: Size) -> VimiumState {
    if size.width == 0 || size.height == 0 {
        keys
    } else {
        with_hint_targets(keys, cells, size.width as int, size.height as int)
    }
}

/// The cells after an overlay pass (see `overlay_cells`).
pub open spec fn overlay_grid(keys: VimiumState, cells: Seq<CellView>, size: Size) -> Seq<CellView> {
    if size.width == 0 || size.height == 0 {
        cells
    } else {
        overlay_cells(cells, overlay_keys(keys, cells, size), size.width as int, size.height as int)
    }
}

/// An overlay pass draws nothing: no viewport, or Normal mode without a
/// find query (no hints, highlights or status bar).
pub open spec fn overlay_draws_nothing(keys: VimiumState, size: Size) -> bool {
    size.width == 0 || size.height == 0 || (keys.mode == Mode::Normal && keys.find_query is None)
}

/// The hint scan that an overlay pass may run can run on this grid.
pub open spec fn overlay_ready(keys: VimiumState, cells: Seq<CellView>, size: Size) -> bool {
    size.width > 0 && size.height > 0 && keys.mode == Mode::Hint && keys.hints.len() == 0
        ==> hints_buildable(cells, size.width as int, size.height as int)
}

impl Renderer {
    /// Draws the keyboard layer over the page: in hint mode without targets
    /// it first collects them (leaving hint mode when there are none), then
    /// highlights the find matches, draws the hint labels and finally the
    /// status bar. Every cell it changes is snapshotted first.
    fn render_vimium_overlay(&mut self)
        requires
            old(self).wf(),
            overlay_ready(old(self).keys(), old(self).current_cells(), old(self).viewport()),
        ensures
            final(self).wf(),
            final(self).viewport() == old(self).viewport(),
            final(self).previous_cells() == old(self).previous_cells(),
            final(self).true_color_enabled() == old(self).true_color_enabled(),
            final(self).keys() == overlay_keys(
                old(self).keys(),
                old(self).current_cells(),
                old(self).viewport(),
            ),
            final(self).current_cells() == overlay_grid(
                old(self).keys(),
                old(self).current_cells(),
                old(self).viewport(),
            ),
            apply_restore(final(self).current_cells(), final(self).restore_log()) == apply_restore(
                old(self).current_cells(),
                old(self).restore_log(),
            ),
            overlay_draws_nothing(old(self).keys(), old(self).viewport()) ==> final(self).restore_log()
                == old(self).restore_log(),
    {
        let viewport_w = self.size.width as usize;
        let viewport_h = self.size.height as usize;
        if viewport_w == 0 || viewport_h == 0 {
            return;
        }
        let ghost cells0 = self.current_cells();
        let ghost vw = viewport_w as int;
        let ghost vh = viewport_h as int;
        if self.vimium.mode() == Mode::Hint && self.vimium.hints().len() == 0 {
            let targets = self.build_hint_targets(viewport_w, viewport_h);
            if targets.len() == 0 {
                self.vimium.exit_hint();
            } else {
                self.vimium.set_hints(targets);
            }
        }
        let ghost keys = self.keys();
        assert(keys == with_hint_targets(old(self).keys(), cells0, vw, vh));
        assert(self.current_cells() == cells0);
        let mode = self.vimium.mode();
        let status = status_text_of(&self.vimium);
        let find_cursor = self.vimium.find_cursor();
        let mut has_query = false;
        let mut matches: Vec<(usize, usize, usize)> = Vec::new();
        match self.vimium.find_query() {
            Some(q) => {
                has_query = true;
                let query = lower_chars(&chars_of(q));
                if query.len() > 0 {
                    matches = self.find_matches(&query, viewport_w, viewport_h);
                }
            },
            None => {},
        }
        assert(matches@ == overlay_matches(cells0, keys, vw, vh));
        let ghost ms = matches@;
        if matches.len() > 0 {
            let cur = current_match_of(find_cursor, matches.len());
            self.highlight_phase(&matches, cur, viewport_w);
        }
        let ghost c1 = self.current_cells();
        if mode == Mode::Hint {
            self.labels_phase(viewport_w, viewport_h);
        }
        let ghost c2 = self.current_cells();
        match status {
            Some(text) => {
                let suffix = status_suffix_of(matches.len(), find_cursor, has_query);
                let ghost t = text@;
                let mut full = text;
                extend_chars(&mut full, &suffix);
                full.truncate(viewport_w - 1);
                assert(full@ =~= printed_status(
                    t + status_suffix(ms.len() as int, keys.find_cursor, keys.find_query is Some),
                    vw,
                ));
                self.status_phase(&full, viewport_w, viewport_h);
            },
            None => {},
        }
    }
}

impl Renderer {
    /// Whether the hint scan of the next overlay pass can run (see
    /// `overlay_ready`).
    fn hint_scan_ok(&self) -> (b: bool)
        requires
            self.wf(),
        ensures
            b == overlay_ready(self.keys(), self.current_cells(), self.viewport()),
    {
        let vw = self.size.width as usize;
        let vh = self.size.height as usize;
        if vw == 0 || vh == 0 || self.vimium.mode() != Mode::Hint || self.vimium.hints().len() != 0 {
            return true;
        }
        if vw > 0x4000_0000 {
            return false;
        }
        let ghost cells = self.current_cells();
        let mut i: usize = 0;
        while i < self.current.len()
            invariant
                cells == self.current_cells(),
                self.keys().mode == Mode::Hint,
                self.keys().hints.len() == 0,
                self.viewport().width > 0,
                self.viewport().height > 0,
                i <= cells.len(),
                forall|k: int|
                    0 <= k < i ==> match #[trigger] cells[k].grapheme {
                        Some(g) => g.width <= max_hint_width(),
                        None => true,
                    },
            decreases cells.len() - i,
        {
            match &self.current[i].grapheme {
                Some(g) => {
                    if g.width > 0x4000_0000 {
                        assert(cells[i as int].grapheme == Some(g@));
                        assert(!narrow_cells(cells));
                        return false;
                    }
                },
                None => {},
            }
            i = i + 1;
        }
        let c = self.hint_candidates(vw, vh);
        c.len() <= 107484
    }
}

/// One piece of the navigation bar: text at a grid position (column, row),
/// drawn over a filled background.
pub struct NavElement {
    pub origin: Point,
    pub text: String,
    pub background: Color,
    pub foreground: Color,
}

/// The cells `fill_rect` leaves.
pub open spec fn fill_cells(cells: Seq<CellView>, rect: Rect, vw: int, color: Color) -> Seq<CellView> {
    Seq::new(
        cells.len(),
        |i: int|
            if in_rect_rows(
                i,
                rect.origin.y as int,
                rect.size.height as int,
                vw,
                rect.origin.x as int,
                rect.size.width as int,
            ) {
                filled(cells[i], color)
            } else {
                cells[i]
            },
    )
}

/// The cells `draw_text` leaves.
pub open spec fn text_cells(cells: Seq<CellView>, text: Seq<char>, origin: Point, vw: usize, color: Color) -> Seq<
    CellView,
> {
    let len = cells.len() as int;
    let start = text_start(origin, vw, len);
    let units = text_units(grapheme_clusters(text), false);
    Seq::new(
        cells.len(),
        |i: int|
            if start <= i < start + min_int(units.len() as int, len - start) {
                text_cell(cells[i], units[i - start], color)
            } else {
                cells[i]
            },
    )
}

/// The background of an element: one row as wide as its text.
pub open spec fn nav_rect(e: NavElement) -> Rect {
    Rect { origin: e.origin, size: Size { width: display_width(e.text@) as u32, height: 1 } }
}

/// Where an element's text goes, in pixels (two per column).
pub open spec fn nav_text_origin(e: NavElement) -> Point {
    Point { x: (e.origin.x * 2) as i32, y: e.origin.y }
}

/// An element can be drawn into a grid of `len` cells, `vw` per row.
pub open spec fn nav_fits(e: NavElement, vw: usize, len: int) -> bool {
    &&& rect_fits(nav_rect(e), vw as int, len)
    &&& i32::MIN <= e.origin.x * 2 <= i32::MAX
    &&& text_index_ok(nav_text_origin(e), vw)
}

pub open spec fn all_nav_fit(els: Seq<NavElement>, vw: usize, len: int) -> bool {
    forall|k: int| 0 <= k < els.len() ==> nav_fits(#[trigger] els[k], vw, len)
}

/// The cells after drawing the navigation bar elements in order: each one's
/// background, then its text.
pub open spec fn draw_nav(cells: Seq<CellView>, els: Seq<NavElement>, vw: usize) -> Seq<CellView>
    decreases els.len(),
{
    if els.len() == 0 {
        cells
    } else {
        let e = els.last();
        let c = fill_cells(draw_nav(cells, els.drop_last(), vw), nav_rect(e), vw as int, e.background);
        text_cells(c, e.text@, nav_text_origin(e), vw, e.foreground)
    }
}

/// The cells whose content differs from what was painted before, in grid
/// order (among the first `n`).
pub open spec fn changed_cells(prev: Seq<CellView>, cur: Seq<CellView>, n: int) -> Seq<CellView>
    decreases n,
{
    if n <= 0 {
        Seq::empty()
    } else {
        let r = changed_cells(prev, cur, n - 1);
        if prev[n - 1] == cur[n - 1] {
            r
        } else {
            r.push(cur[n - 1])
        }
    }
}

/// What was painted after a frame: every changed cell takes the new colors
/// and text and keeps its position.
pub open spec fn synced(prev: Seq<CellView>, cur: Seq<CellView>) -> Seq<CellView> {
    Seq::new(
        prev.len(),
        |i: int|
            if prev[i] == cur[i] {
                prev[i]
            } else {
                CellView { cursor: prev[i].cursor, ..cur[i] }
            },
    )
}

/// Painting brings what is on screen up to date: when both buffers agree
/// on positions, the painted cells become the shown ones, and painting the
/// same cells again changes nothing.
pub proof fn lemma_repaint_idempotent(prev: Seq<CellView>, shown: Seq<CellView>)
    requires
        prev.len() == shown.len(),
        cursors_agree(prev, shown),
    ensures
        synced(prev, shown) == shown,
        changed_cells(synced(prev, shown), shown, shown.len() as int) == Seq::<CellView>::empty(),
{
    assert forall|i: int| 0 <= i < shown.len() implies #[trigger] synced(prev, shown)[i] == shown[i] by {
        assert(prev[i].cursor == shown[i].cursor);
        if prev[i] != shown[i] {
            assert(CellView { cursor: prev[i].cursor, ..shown[i] } =~= shown[i]);
        }
    }
    assert(synced(prev, shown) =~= shown);
    lemma_nothing_changed(shown, shown.len() as int);
}

proof fn lemma_nothing_changed(cells: Seq<CellView>, n: int)
    requires
        n <= cells.len(),
    ensures
        changed_cells(cells, cells, n) == Seq::<CellView>::empty(),
    decreases n,
{
    if n > 0 {
        lemma_nothing_changed(cells, n - 1);
    }
}

/// Whether `text_index_ok` holds.
fn text_origin_ok(origin: Point, vw: usize) -> (b: bool)
    ensures
        b == text_index_ok(origin, vw),
{
    if origin.y == i32::MAX {
        return false;
    }
    let q: i64 = ((origin.y + 1) / 4) as i64;
    let v: i64 = (vw as i32) as i64;
    assert(-0x1000_0000_0000_0000 <= q * v <= 0x1000_0000_0000_0000) by (nonlinear_arith)
        requires
            -0x2000_0000 <= q <= 0x2000_0000,
            -0x8000_0000 <= v <= 0x8000_0000,
    ;
    let m: i64 = q * v;
    if m < -0x8000_0000 || m > 0x7fff_ffff {
        return false;
    }
    let t: i64 = ((origin.x / 2) as i64) + m;
    t >= -0x8000_0000 && t <= 0x7fff_ffff
}

/// Whether an element can be drawn (see `nav_fits`); also its text width.
fn nav_check(e: &NavElement, vw: usize, len: usize) -> (r: (bool, usize))
    requires
        vw <= u32::MAX,
    ensures
        r.1 == display_width(e.text@),
        r.0 == nav_fits(*e, vw, len as int),
{
    let w = width(e.text.as_str());
    let x = e.origin.x;
    let y = e.origin.y;
    if x < 0 || y < 0 || x > 0x3fff_ffff {
        return (false, w);
    }
    let yy = y as u64;
    let ww = vw as u64;
    assert(yy * ww <= 0x8000_0000 * 0x1_0000_0000) by (nonlinear_arith)
        requires
            yy <= 0x8000_0000,
            ww <= 0x1_0000_0000,
    ;
    let end: u64 = yy * ww + (x as u64) + ((w as u32) as u64);
    if end > len as u64 {
        return (false, w);
    }
    let ok = text_origin_ok(Point { x: x * 2, y }, vw);
    (ok, w)
}

/// Whether every element can be drawn (see `all_nav_fit`).
fn nav_all_fit(elements: &Vec<NavElement>, vw: usize, len: usize) -> (b: bool)
    requires
        vw <= u32::MAX,
    ensures
        b == all_nav_fit(elements@, vw, len as int),
{
    let mut k: usize = 0;
    while k < elements.len()
        invariant
            vw <= u32::MAX,
            k <= elements@.len(),
            forall|j: int| 0 <= j < k ==> nav_fits(#[trigger] elements@[j], vw, len as int),
        decreases elements@.len() - k,
    {
        let (ok, _) = nav_check(&elements[k], vw, len);
        if !ok {
            return false;
        }
        k = k + 1;
    }
    true
}

impl Renderer {
    /// Draws one frame: undoes the previous overlay, draws the navigation bar
    /// elements, draws the keyboard overlay, and brings the painted cells up
    /// to date, returning the cells that changed in grid order for the
    /// terminal to paint.
    ///
    /// Nothing is drawn (`None`, renderer unchanged) when an element does not
    /// fit the grid; the frame stops after the navigation bar (`None`) when
    /// a pending hint scan cannot run on the grid (see `overlay_ready`).
    pub fn render(&mut self, elements: &Vec<NavElement>) -> (r: Option<Vec<Cell>>)
        requires
            old(self).wf(),
        ensures
            final(self).wf(),
            final(self).viewport() == old(self).viewport(),
            final(self).true_color_enabled() == old(self).true_color_enabled(),
            !all_nav_fit(elements@, old(self).viewport().width as usize, old(self).current_cells().len() as int)
                ==> {
                &&& r is None
                &&& final(self).current_cells() == old(self).current_cells()
                &&& final(self).previous_cells() == old(self).previous_cells()
                &&& final(self).restore_log() == old(self).restore_log()
                &&& final(self).keys() == old(self).keys()
            },
            all_nav_fit(elements@, old(self).viewport().width as usize, old(self).current_cells().len() as int)
                ==> {
                let drawn = draw_nav(
                    apply_restore(old(self).current_cells(), old(self).restore_log()),
                    elements@,
                    old(self).viewport().width as usize,
                );
                if overlay_ready(old(self).keys(), drawn, old(self).viewport()) {
                    let shown = overlay_grid(old(self).keys(), drawn, old(self).viewport());
                    &&& final(self).keys() == overlay_keys(old(self).keys(), drawn, old(self).viewport())
                    &&& final(self).current_cells() == shown
                    &&& apply_restore(final(self).current_cells(), final(self).restore_log()) == drawn
                    &&& final(self).previous_cells() == synced(old(self).previous_cells(), shown)
                    &&& final(self).previous_cells() == shown
                    &&& match r {
                        Some(v) => cells_view(v@) == changed_cells(
                            old(self).previous_cells(),
                            shown,
                            shown.len() as int,
                        ),
                        None => false,
                    }
                } else {
                    &&& r is None
                    &&& final(self).current_cells() == drawn
                    &&& final(self).restore_log().len() == 0
                    &&& final(self).previous_cells() == old(self).previous_cells()
                    &&& final(self).keys() == old(self).keys()
                }
            },
    {
        let vw = self.size.width as usize;
        let len = self.current.len();
        if !nav_all_fit(elements, vw, len) {
            return None;
        }
        let ghost old_cells = self.current_cells();
        let ghost old_prev = self.previous_cells();
        let ghost keys0 = self.keys();
        self.restore_overlay();
        let ghost restored = self.current_cells();
        let mut k: usize = 0;
        assert(elements@.take(0) =~= Seq::<NavElement>::empty());
        while k < elements.len()
            invariant
                self.wf(),
                k <= elements@.len(),
                vw == self.viewport().width,
                len == self.current_cells().len(),
                all_nav_fit(elements@, vw, len as int),
                self.viewport() == old(self).viewport(),
                self.true_color_enabled() == old(self).true_color_enabled(),
                self.keys() == keys0,
                self.previous_cells() == old_prev,
                self.restore_log().len() == 0,
                self.current_cells() == draw_nav(restored, elements@.take(k as int), vw),
            decreases elements@.len() - k,
        {
            let e = &elements[k];
            assert(nav_fits(elements@[k as int], vw, len as int));
            let (_, w) = nav_check(e, vw, len);
            let ghost before = self.current_cells();
            self.fill_rect(Rect { origin: e.origin, size: Size { width: w as u32, height: 1 } }, e.background);
            assert(self.current_cells() =~= fill_cells(before, nav_rect(*e), vw as int, e.background));
            let ghost mid = self.current_cells();
            self.draw_text(e.text.as_str(), Point { x: e.origin.x * 2, y: e.origin.y }, e.foreground);
            assert(self.current_cells() =~= text_cells(mid, e.text@, nav_text_origin(*e), vw, e.foreground));
            proof {
                let t1 = elements@.take(k + 1);
                assert(t1.drop_last() == elements@.take(k as int));
                assert(t1.last() == *e);
            }
            k = k + 1;
        }
        assert(elements@.take(elements@.len() as int) =~= elements@);
        let ghost drawn = self.current_cells();
        if !self.hint_scan_ok() {
            return None;
        }
        self.render_vimium_overlay();
        let ghost shown = self.current_cells();
        let mut out: Vec<Cell> = Vec::new();
        let mut i: usize = 0;
        while i < self.current.len()
            invariant
                self.wf(),
                shown == self.current_cells(),
                old_prev.len() == shown.len(),
                i <= shown.len(),
                self.previous_cells().len() == shown.len(),
                forall|j: int|
                    0 <= j < shown.len() ==> #[trigger] self.previous_cells()[j] == if j < i {
                        synced(old_prev, shown)[j]
                    } else {
                        old_prev[j]
                    },
                cells_view(out@) == changed_cells(old_prev, shown, i as int),
                self.viewport() == old(self).viewport(),
                self.true_color_enabled() == old(self).true_color_enabled(),
                self.keys() == overlay_keys(keys0, drawn, self.viewport()),
                apply_restore(self.current_cells(), self.restore_log()) == drawn,
            decreases shown.len() - i,
        {
            assert(self.previous_cells()[i as int] == old_prev[i as int]);
            assert(self.current_cells()[i as int] == shown[i as int]);
            let ghost prev_i = self.previous_cells();
            if !self.current[i].same_as(&self.previous[i]) {
                let c = Cell {
                    cursor: self.previous[i].cursor,
                    grapheme: duplicate_grapheme(&self.current[i].grapheme),
                    quadrant: self.current[i].quadrant,
                };
                assert(c@ == synced(old_prev, shown)[i as int]);
                self.previous.set(i, c);
                assert(self.previous_cells() =~= prev_i.update(i as int, c@));
                out.push(self.current[i].duplicate());
                assert(cells_view(out@) =~= changed_cells(old_prev, shown, i as int).push(shown[i as int]));
            } else {
                assert(synced(old_prev, shown)[i as int] == old_prev[i as int]);
            }
            i = i + 1;
        }
        assert(self.previous_cells() =~= synced(old_prev, shown));
        proof {
            lemma_repaint_idempotent(old_prev, shown);
        }
        Some(out)
    }
}

/// The color of pixel (`x`, `y`) of a BGRA pixel array whose rows are
/// `row_len` pixels long.
pub open spec fn pixel_at(px: Seq<u8>, row_len: int, x: int, y: int) -> Color {
    let i = (x + y * row_len) * 4;
    Color { r: px[i + 2], g: px[i + 1], b: px[i] }
}

/// The mean of pixel (`x`, `y`) and the one below it.
pub open spec fn pixel_pair(px: Seq<u8>, row_len: int, x: int, y: int) -> Color {
    let a = pixel_at(px, row_len, x, y);
    let b = pixel_at(px, row_len, x, y + 1);
    Color { r: channel_avg(a.r, b.r), g: channel_avg(a.g, b.g), b: channel_avg(a.b, b.b) }
}

/// The quadrant of the cell whose top-left pixel is (`x`, `y`): a cell
/// covers two pixel columns and four pixel rows, each quarter the mean of a
/// vertical pixel pair.
pub open spec fn pixel_quadrant(px: Seq<u8>, row_len: int, x: int, y: int) -> Quadrant {
    (
        pixel_pair(px, row_len, x, y),
        pixel_pair(px, row_len, x + 1, y),
        pixel_pair(px, row_len, x + 1, y + 2),
        pixel_pair(px, row_len, x, y + 2),
    )
}

/// Grid cell `i` lies on a page row `top..bottom` (counted from the first
/// page row) and in a column `left..right`.
pub open spec fn in_background(i: int, vw: int, top: int, bottom: int, left: int, right: int) -> bool {
    vw > 0 && top + 1 <= i / vw < bottom + 1 && left <= i % vw < right
}

/// The pixel array holds the `32` bytes per cell that a background needs.
pub open spec fn pixels_cover(len: int, size: Size) -> bool {
    len >= size.width * size.height * 32
}

/// Every pixel that the cells `top..bottom` x `left..right` read lies in the
/// array.
pub open spec fn pixels_in_bounds(len: int, row_len: int, top: int, bottom: int, left: int, right: int) -> bool {
    top < bottom && left < right ==> (2 * right - 1 + (4 * bottom - 1) * row_len) * 4 + 2 < len
}

proof fn lemma_pixel_index(xa: int, ya: int, xm: int, ym: int, rl: int, len: int)
    requires
        0 <= xa <= xm,
        0 <= ya <= ym,
        rl >= 0,
        (xm + ym * rl) * 4 + 2 < len,
    ensures
        0 <= ya * rl,
        (xa + ya * rl) * 4 + 2 < len,
{
    assert(ya * rl <= ym * rl) by (nonlinear_arith)
        requires
            0 <= ya <= ym,
            rl >= 0,
    ;
    assert(0 <= ya * rl) by (nonlinear_arith)
        requires
            0 <= ya,
            rl >= 0,
    ;
}

fn read_pixel(px: &[u8], row_len: usize, x: usize, y: usize) -> (c: Color)
    requires
        (x + y * row_len) * 4 + 2 < px@.len(),
    ensures
        c == pixel_at(px@, row_len as int, x as int, y as int),
{
    let n = px.len();
    assert(0 <= y * row_len) by (nonlinear_arith)
        requires
            y >= 0,
            row_len >= 0,
    ;
    let i = (x + y * row_len) * 4;
    Color { r: px[i + 2], g: px[i + 1], b: px[i] }
}

/// The quadrant of the cell whose top-left pixel is (`x`, `y`) (see
/// `pixel_quadrant`).
fn read_quadrant(px: &[u8], row_len: usize, x: usize, y: usize) -> (q: Quadrant)
    requires
        y + 4 <= px@.len(),
        (x + 1 + (y + 3) * row_len) * 4 + 2 < px@.len(),
    ensures
        q == pixel_quadrant(px@, row_len as int, x as int, y as int),
{
    let n = px.len();
    let ghost rl = row_len as int;
    let ghost plen = px@.len() as int;
    proof {
        lemma_pixel_index(x as int, y as int, x + 1, y + 3, rl, plen);
        lemma_pixel_index(x as int, y + 1, x + 1, y + 3, rl, plen);
        lemma_pixel_index(x + 1, y as int, x + 1, y + 3, rl, plen);
        lemma_pixel_index(x + 1, y + 1, x + 1, y + 3, rl, plen);
        lemma_pixel_index(x as int, y + 2, x + 1, y + 3, rl, plen);
        lemma_pixel_index(x as int, y + 3, x + 1, y + 3, rl, plen);
        lemma_pixel_index(x + 1, y + 2, x + 1, y + 3, rl, plen);
        lemma_pixel_index(x + 1, y + 3, x + 1, y + 3, rl, plen);
    }
    let a0 = read_pixel(px, row_len, x, y);
    let a1 = read_pixel(px, row_len, x, y + 1);
    let b0 = read_pixel(px, row_len, x + 1, y);
    let b1 = read_pixel(px, row_len, x + 1, y + 1);
    let c0 = read_pixel(px, row_len, x + 1, y + 2);
    let c1 = read_pixel(px, row_len, x + 1, y + 3);
    let d0 = read_pixel(px, row_len, x, y + 2);
    let d1 = read_pixel(px, row_len, x, y + 3);
    (a0.avg_with(a1), b0.avg_with(b1), c0.avg_with(c1), d0.avg_with(d1))
}

impl Renderer {
    /// Paints the page background from a BGRA pixel array (`pixels_size`
    /// pixels, two pixel columns and four pixel rows per cell) into the
    /// cells of page rows `top..bottom` and columns `left..right`; their
    /// text stays. Nothing happens when the array is smaller than the
    /// viewport needs.
    pub fn draw_background(
        &mut self,
        pixels: &[u8],
        pixels_size: Size,
        top: usize,
        bottom: usize,
        left: usize,
        right: usize,
    )
        requires
            old(self).wf(),
            top <= bottom <= old(self).viewport().height,
            left <= right <= old(self).viewport().width,
            pixels_cover(pixels@.len() as int, old(self).viewport()) ==> pixels_in_bounds(
                pixels@.len() as int,
                pixels_size.width as int,
                top as int,
                bottom as int,
                left as int,
                right as int,
            ),
        ensures
            final(self).wf(),
            final(self).viewport() == old(self).viewport(),
            final(self).previous_cells() == old(self).previous_cells(),
            final(self).restore_log() == old(self).restore_log(),
            final(self).keys() == old(self).keys(),
            final(self).true_color_enabled() == old(self).true_color_enabled(),
            final(self).current_cells().len() == old(self).current_cells().len(),
            forall|i: int|
                0 <= i < old(self).current_cells().len() ==> #[trigger] final(self).current_cells()[i]
                    == if pixels_cover(pixels@.len() as int, old(self).viewport()) && in_background(
                    i,
                    old(self).viewport().width as int,
                    top as int,
                    bottom as int,
                    left as int,
                    right as int,
                ) {
                    CellView {
                        quadrant: pixel_quadrant(
                            pixels@,
                            pixels_size.width as int,
                            2 * (i % old(self).viewport().width as int),
                            4 * (i / old(self).viewport().width as int - 1),
                        ),
                        ..old(self).current_cells()[i]
                    }
                } else {
                    old(self).current_cells()[i]
                },
    {
        let vw = self.size.width as usize;
        let vh = self.size.height as usize;
        let need: u64 = (vw as u64) * (vh as u64) * 32;
        let n = pixels.len();
        if (n as u64) < need {
            return;
        }
        let ghost cells0 = self.current_cells();
        let ghost len = cells0.len() as int;
        let ghost plen = pixels@.len() as int;
        let row_len = pixels_size.width as usize;
        let ghost rl = row_len as int;
        proof {
            lemma_row_fits(vw as int, vh as int, vh as int);
        }
        let mut y = top;
        while y < bottom
            invariant
                self.wf(),
                self.same_but_overlay(*old(self)),
                self.restore_log() == old(self).restore_log(),
                cells0 == old(self).current_cells(),
                vw == self.viewport().width,
                vh == self.viewport().height,
                rl == pixels_size.width,
                row_len == rl,
                plen == pixels@.len(),
                plen <= usize::MAX,
                vw * vh * 32 <= plen,
                len == cells0.len(),
                len == self.current_cells().len(),
                len == vw * (vh + 1),
                len <= u32::MAX,
                top <= y <= bottom,
                bottom <= vh,
                left <= right <= vw,
                top < bottom && left < right ==> (2 * right - 1 + (4 * bottom - 1) * rl) * 4 + 2 < plen,
                forall|i: int|
                    0 <= i < len ==> #[trigger] self.current_cells()[i] == if in_background(
                        i,
                        vw as int,
                        top as int,
                        y as int,
                        left as int,
                        right as int,
                    ) {
                        CellView {
                            quadrant: pixel_quadrant(pixels@, rl, 2 * (i % vw as int), 4 * (i / vw as int - 1)),
                            ..cells0[i]
                        }
                    } else {
                        cells0[i]
                    },
            decreases bottom - y,
        {
            proof {
                lemma_row_fits(vw as int, vh as int, y + 1);
            }
            let index = (y + 1) * vw;
            let ghost row_start = self.current_cells();
            proof {
                if left < right {
                    lemma_pixel_index(2 * right - 1, 4 * y + 3, 2 * right - 1, 4 * bottom - 1, rl, plen);
                }
            }
            self.background_row(pixels, row_len, index, y, left, right);
            proof {
                assert forall|i: int| 0 <= i < len implies #[trigger] self.current_cells()[i]
                    == if in_background(i, vw as int, top as int, y + 1, left as int, right as int) {
                    CellView {
                        quadrant: pixel_quadrant(pixels@, rl, 2 * (i % vw as int), 4 * (i / vw as int - 1)),
                        ..cells0[i]
                    }
                } else {
                    cells0[i]
                } by {
                    if vw > 0 {
                        lemma_in_row(i, vw as int, y + 1);
                    }
                }
            }
            y = y + 1;
        }
    }

    /// Paints the background of the cells `index + left..index + right` of
    /// page row `y` (see `draw_background`).
    #[verifier::rlimit(30)]
    fn background_row(&mut self, pixels: &[u8], row_len: usize, index: usize, y: usize, left: usize, right: usize)
        requires
            old(self).wf(),
            index == (y + 1) * old(self).viewport().width,
            index + old(self).viewport().width <= old(self).current_cells().len(),
            old(self).current_cells().len() <= u32::MAX,
            left <= right <= old(self).viewport().width,
            y < old(self).viewport().height,
            old(self).viewport().width * old(self).viewport().height * 32 <= pixels@.len(),
            left < right ==> (2 * right - 1 + (4 * y + 3) * row_len) * 4 + 2 < pixels@.len(),
        ensures
            final(self).wf(),
            final(self).same_but_overlay(*old(self)),
            final(self).restore_log() == old(self).restore_log(),
            final(self).current_cells().len() == old(self).current_cells().len(),
            forall|i: int|
                0 <= i < old(self).current_cells().len() ==> #[trigger] final(self).current_cells()[i]
                    == if index + left <= i < index + right {
                    CellView {
                        quadrant: pixel_quadrant(pixels@, row_len as int, 2 * (i - index), 4 * y),
                        ..old(self).current_cells()[i]
                    }
                } else {
                    old(self).current_cells()[i]
                },
    {
        let n = pixels.len();
        let ghost start = self.current_cells();
        let ghost len = start.len() as int;
        let ghost vw = self.viewport().width as int;
        let ghost vh = self.viewport().height as int;
        let ghost rl = row_len as int;
        let ghost plen = pixels@.len() as int;
        if left < right {
            assert(4 * y + 4 <= vw * vh * 32) by (nonlinear_arith)
                requires
                    vw >= 1,
                    y < vh,
            ;
        }
        let mut col = left;
        while col < right
            invariant
                self.wf(),
                self.same_but_overlay(*old(self)),
                self.restore_log() == old(self).restore_log(),
                vw == self.viewport().width,
                len == self.current_cells().len(),
                len <= u32::MAX,
                rl == row_len,
                plen == pixels@.len(),
                plen <= usize::MAX,
                index + vw <= len,
                left <= col <= right,
                right <= vw,
                left < right ==> 4 * y + 4 <= plen,
                left < right ==> (2 * right - 1 + (4 * y + 3) * rl) * 4 + 2 < plen,
                forall|i: int|
                    0 <= i < len ==> #[trigger] self.current_cells()[i] == if index + left <= i < index + col {
                        CellView { quadrant: pixel_quadrant(pixels@, rl, 2 * (i - index), 4 * y), ..start[i] }
                    } else {
                        start[i]
                    },
            decreases right - col,
        {
            let x = col * 2;
            let yy = y * 4;
            proof {
                lemma_pixel_index(x + 1, yy + 3, 2 * right - 1, 4 * y + 3, rl, plen);
            }
            let q = read_quadrant(pixels, row_len, x, yy);
            let ghost before = self.current_cells();
            self.write_cell(index + col, Some(q), None);
            assert(self.current_cells() =~= before.update(
                index + col,
                CellView { quadrant: q, ..before[index + col] },
            ));
            col = col + 1;
        }
    }
}

/// Cell `i` is on grid row `r` exactly when it lies in that row's index
/// range, and then its column is its offset in the range.
proof fn lemma_in_row(i: int, vw: int, r: int)
    requires
        vw > 0,
        r >= 0,
        i >= 0,
    ensures
        (r * vw <= i < r * vw + vw) <==> i / vw == r,
        r * vw <= i < r * vw + vw ==> i % vw == i - r * vw,
{
    vstd::arithmetic::div_mod::lemma_fundamental_div_mod(i, vw);
    if r * vw <= i < r * vw + vw {
        vstd::arithmetic::div_mod::lemma_fundamental_div_mod_converse(i, vw, r, i - r * vw);
    }
    if i / vw == r {
        vstd::arithmetic::mul::lemma_mul_is_commutative(vw, r);
    }
}

/// Cell `i` lies in grid rows `top..bottom` and columns `left..right`.
pub open spec fn in_cell_box(i: int, vw: int, top: int, bottom: int, left: int, right: int) -> bool {
    vw > 0 && top <= i / vw < bottom && left <= i % vw < right
}

impl Renderer {
    /// Removes the text of the cells in grid rows `top..bottom` and columns
    /// `left..right`.
    pub fn clear_text_in(&mut self, top: usize, bottom: usize, left: usize, right: usize)
        requires
            old(self).wf(),
            top <= bottom <= old(self).viewport().height,
            left <= right <= old(self).viewport().width,
        ensures
            final(self).wf(),
            final(self).viewport() == old(self).viewport(),
            final(self).previous_cells() == old(self).previous_cells(),
            final(self).restore_log() == old(self).restore_log(),
            final(self).keys() == old(self).keys(),
            final(self).true_color_enabled() == old(self).true_color_enabled(),
            final(self).current_cells().len() == old(self).current_cells().len(),
            forall|i: int|
                0 <= i < old(self).current_cells().len() ==> #[trigger] final(self).current_cells()[i]
                    == if in_cell_box(
                    i,
                    old(self).viewport().width as int,
                    top as int,
                    bottom as int,
                    left as int,
                    right as int,
                ) {
                    CellView { grapheme: None, ..old(self).current_cells()[i] }
                } else {
                    old(self).current_cells()[i]
                },
    {
        let vw = self.size.width as usize;
        let vh = self.size.height as usize;
        let ghost cells0 = self.current_cells();
        let ghost len = cells0.len() as int;
        proof {
            lemma_row_fits(vw as int, vh as int, vh as int);
        }
        let mut y = top;
        while y < bottom
            invariant
                self.wf(),
                self.same_but_overlay(*old(self)),
                self.restore_log() == old(self).restore_log(),
                cells0 == old(self).current_cells(),
                vw == self.viewport().width,
                vh == self.viewport().height,
                len == cells0.len(),
                len == self.current_cells().len(),
                len == vw * (vh + 1),
                len <= u32::MAX,
                top <= y <= bottom,
                bottom <= vh,
                left <= right <= vw,
                forall|i: int|
                    0 <= i < len ==> #[trigger] self.current_cells()[i] == if in_cell_box(
                        i,
                        vw as int,
                        top as int,
                        y as int,
                        left as int,
                        right as int,
                    ) {
                        CellView { grapheme: None, ..cells0[i] }
                    } else {
                        cells0[i]
                    },
            decreases bottom - y,
        {
            proof {
                lemma_row_fits(vw as int, vh as int, y as int);
            }
            let index = y * vw;
            let ghost row_start = self.current_cells();
            let mut col = left;
            while col < right
                invariant
                    self.wf(),
                    self.same_but_overlay(*old(self)),
                    self.restore_log() == old(self).restore_log(),
                    len == self.current_cells().len(),
                    len <= u32::MAX,
                    index + vw <= len,
                    left <= col <= right,
                    right <= vw,
                    forall|i: int|
                        0 <= i < len ==> #[trigger] self.current_cells()[i] == if index + left <= i < index
                            + col {
                            CellView { grapheme: None, ..row_start[i] }
                        } else {
                            row_start[i]
                        },
                decreases right - col,
            {
                let ghost before = self.current_cells();
                self.write_cell(index + col, None, Some(None));
                assert(self.current_cells() =~= before.update(
                    index + col,
                    CellView { grapheme: None, ..before[index + col] },
                ));
                col = col + 1;
            }
            proof {
                assert forall|i: int| 0 <= i < len implies #[trigger] self.current_cells()[i]
                    == if in_cell_box(i, vw as int, top as int, y + 1, left as int, right as int) {
                    CellView { grapheme: None, ..cells0[i] }
                } else {
                    cells0[i]
                } by {
                    if vw > 0 {
                        lemma_in_row(i, vw as int, y as int);
                    }
                }
            }
            y = y + 1;
        }
    }
}

/// `after` is what `draw` makes of a cell showing `before`, at the same
/// position.
pub open spec fn drawn_by<F: Fn(Cell) -> Cell>(draw: F, before: CellView, after: CellView) -> bool {
    exists|c: Cell, d: Cell|
        #![trigger draw.ensures((c,), d)]
        c@ == before && draw.ensures((c,), d) && after == (CellView { cursor: before.cursor, ..d@ })
}

/// `after` is what `n` successive calls of `draw` make of `before`: some
/// chain of cells leads from one to the other, each drawn from the one
/// before.
pub open spec fn drawn_times<F: Fn(Cell) -> Cell>(draw: F, before: CellView, after: CellView, n: nat) -> bool {
    exists|chain: Seq<CellView>|
        #![trigger chain.len(), chain[0]]
        chain.len() == n + 1 && chain[0] == before && chain[n as int] == after && forall|k: int|
            0 <= k < n ==> drawn_by(draw, #[trigger] chain[k], chain[k + 1])
}

proof fn lemma_drawn_none<F: Fn(Cell) -> Cell>(draw: F, c: CellView)
    ensures
        drawn_times(draw, c, c, 0),
{
    let chain = seq![c];
    assert(chain.len() == 1 && chain[0] == c);
}

proof fn lemma_drawn_same<F: Fn(Cell) -> Cell>(draw: F, before: CellView, a: CellView, b: CellView, n: nat)
    requires
        drawn_times(draw, before, a, n),
        a == b,
    ensures
        drawn_times(draw, before, b, n),
{
}

proof fn lemma_drawn_step<F: Fn(Cell) -> Cell>(draw: F, before: CellView, mid: CellView, after: CellView, n: nat)
    requires
        drawn_times(draw, before, mid, n),
        drawn_by(draw, mid, after),
    ensures
        drawn_times(draw, before, after, n + 1),
{
    let chain = choose|chain: Seq<CellView>|
        #![trigger chain.len(), chain[0]]
        chain.len() == n + 1 && chain[0] == before && chain[n as int] == mid && forall|k: int|
            0 <= k < n ==> drawn_by(draw, #[trigger] chain[k], chain[k + 1]);
    let c2 = chain.push(after);
    assert forall|k: int| 0 <= k < n + 1 implies drawn_by(draw, #[trigger] c2[k], c2[k + 1]) by {
        if k < n {
            assert(c2[k] == chain[k]);
            assert(c2[k + 1] == chain[k + 1]);
        } else {
            assert(c2[k] == mid);
            assert(c2[k + 1] == after);
        }
    }
    assert(c2.len() == n + 2 && c2[0] == before && c2[n as int + 1] == after);
}

/// How many of the rows `top..top + rows` of a rectangle (each `width`
/// cells from column `left` of a grid row of `vw` cells) cover cell `i`; a
/// rectangle wider than the grid covers some cells from two rows.
pub open spec fn row_visits(i: int, top: int, rows: int, vw: int, left: int, width: int) -> nat
    decreases rows,
{
    if rows <= 0 {
        0
    } else {
        row_visits(i, top, rows - 1, vw, left, width) + if (top + rows - 1) * vw + left <= i < (top
            + rows - 1) * vw + left + width {
            1nat
        } else {
            0nat
        }
    }
}

impl Renderer {
    /// Replaces every cell of the rectangle `bounds` (grid rows and columns),
    /// row by row, by what `draw` returns for it; each cell keeps its
    /// position.
    pub fn draw<F: Fn(Cell) -> Cell>(&mut self, bounds: Rect, draw: F)
        requires
            old(self).wf(),
            rect_fits(bounds, old(self).viewport().width as int, old(self).current_cells().len() as int),
            forall|c: Cell| draw.requires((c,)),
        ensures
            final(self).wf(),
            final(self).viewport() == old(self).viewport(),
            final(self).previous_cells() == old(self).previous_cells(),
            final(self).restore_log() == old(self).restore_log(),
            final(self).keys() == old(self).keys(),
            final(self).true_color_enabled() == old(self).true_color_enabled(),
            final(self).current_cells().len() == old(self).current_cells().len(),
            forall|i: int|
                0 <= i < old(self).current_cells().len() ==> drawn_times(
                    draw,
                    old(self).current_cells()[i],
                    #[trigger] final(self).current_cells()[i],
                    row_visits(
                        i,
                        bounds.origin.y as int,
                        bounds.size.height as int,
                        old(self).viewport().width as int,
                        bounds.origin.x as int,
                        bounds.size.width as int,
                    ),
                ),
    {
        let ghost old_cells = self.current_cells();
        let ghost vw = self.size.width as int;
        let ghost top = bounds.origin.y as int;
        let ghost left0 = bounds.origin.x as int;
        let ghost rw = bounds.size.width as int;
        let ghost len = old_cells.len() as int;
        proof {
            lemma_row_fits(vw, self.viewport().height as int, self.viewport().height as int);
        }
        assert forall|i: int| 0 <= i < len implies drawn_times(
            draw,
            old_cells[i],
            #[trigger] self.current_cells()[i],
            row_visits(i, top, 0, vw, left0, rw),
        ) by {
            lemma_drawn_none(draw, old_cells[i]);
        }
        if bounds.size.height == 0 {
            return;
        }
        let viewport_width = self.size.width as usize;
        let ox = bounds.origin.x as usize;
        let oy = bounds.origin.y as usize;
        let h = bounds.size.height as usize;
        let rwid = bounds.size.width as usize;
        let bottom = oy + h;
        let mut y = oy;
        while y < bottom
            invariant
                self.wf(),
                self.same_but_overlay(*old(self)),
                self.restore_log() == old(self).restore_log(),
                forall|c: Cell| draw.requires((c,)),
                oy == top,
                ox == left0,
                h == bounds.size.height,
                rwid == rw,
                bottom == oy + h,
                h > 0,
                viewport_width == vw,
                oy <= y <= bottom,
                (top + h - 1) * vw + left0 + rw <= len,
                len == old_cells.len(),
                len == self.current_cells().len(),
                len <= u32::MAX,
                forall|i: int|
                    0 <= i < len ==> drawn_times(
                        draw,
                        old_cells[i],
                        #[trigger] self.current_cells()[i],
                        row_visits(i, top, y - top, vw, left0, rw),
                    ),
            decreases bottom - y,
        {
            assert(y * vw + left0 + rw <= len) by (nonlinear_arith)
                requires
                    y <= top + h - 1,
                    vw >= 0,
                    (top + h - 1) * vw + left0 + rw <= len,
            ;
            assert(0 <= y * vw) by (nonlinear_arith)
                requires
                    y >= 0,
                    vw >= 0,
            ;
            let left = y * viewport_width + ox;
            let right = left + rwid;
            let ghost row_start = self.current_cells();
            let mut k = left;
            while k < right
                invariant
                    self.wf(),
                    self.same_but_overlay(*old(self)),
                    self.restore_log() == old(self).restore_log(),
                    forall|c: Cell| draw.requires((c,)),
                    left <= k <= right,
                    right <= len,
                    len == self.current_cells().len(),
                    len <= u32::MAX,
                    forall|i: int|
                        0 <= i < len ==> if left <= i < k {
                            drawn_by(draw, row_start[i], #[trigger] self.current_cells()[i])
                        } else {
                            self.current_cells()[i] == row_start[i]
                        },
                decreases right - k,
            {
                let c = self.current[k].duplicate();
                let ghost gc = c;
                let d = draw(c);
                let ghost gd = d;
                let ghost before = self.current_cells();
                let q = d.quadrant;
                self.write_cell(k, Some(q), Some(d.grapheme));
                proof {
                    assert(self.current_cells()[k as int] == (CellView { cursor: before[k as int].cursor, ..gd@ }));
                    assert(draw.ensures((gc,), gd));
                    assert(drawn_by(draw, row_start[k as int], self.current_cells()[k as int]));
                }
                k = k + 1;
            }
            proof {
                assert forall|i: int| 0 <= i < len implies drawn_times(
                    draw,
                    old_cells[i],
                    #[trigger] self.current_cells()[i],
                    row_visits(i, top, y + 1 - top, vw, left0, rw),
                ) by {
                    let n0 = row_visits(i, top, y - top, vw, left0, rw);
                    assert(drawn_times(draw, old_cells[i], row_start[i], n0));
                    assert(y * vw == (top + (y + 1 - top) - 1) * vw);
                    if left <= i < right {
                        assert(drawn_by(draw, row_start[i], self.current_cells()[i]));
                        assert(row_visits(i, top, y + 1 - top, vw, left0, rw) == n0 + 1);
                        lemma_drawn_step(draw, old_cells[i], row_start[i], self.current_cells()[i], n0);
                    } else {
                        assert(row_visits(i, top, y + 1 - top, vw, left0, rw) == n0);
                    }
                }
            }
            y = y + 1;
        }
        proof {
            assert forall|i: int| 0 <= i < len implies row_visits(i, top, h as int, vw, left0, rw) == row_visits(
                i,
                top,
                y - top,
                vw,
                left0,
                rw,
            ) by {}
        }
    }
}


/// Undoing the overlay gives the grid back: when an overlay pass starts
/// with no pending snapshots (after `set_size`, or a frame's restore),
/// applying the log it leaves (what the next frame's restore does) yields
/// the cells it started from, a cell snapshotted twice getting its first
/// snapshot back.
pub proof fn lemma_overlay_round_trip(
    before: Seq<CellView>,
    after: Seq<CellView>,
    log: Seq<(usize, CellView)>,
)
    requires
        apply_restore(after, log) == apply_restore(before, Seq::<(usize, CellView)>::empty()),
    ensures
        apply_restore(after, log) == before,
{
}

/// A call on a renderer, as far as its size goes: `set_size`, or any other
/// method (each of which keeps the viewport).
pub enum SizeCall {
    SetSize(Size),
    Other,
}

/// The viewport after the calls.
pub open spec fn size_after(start: Size, calls: Seq<SizeCall>) -> Size
    decreases calls.len(),
{
    if calls.len() == 0 {
        start
    } else {
        match calls.last() {
            SizeCall::SetSize(s) => s,
            SizeCall::Other => size_after(start, calls.drop_last()),
        }
    }
}

/// The position of the latest `set_size` among the calls, if any.
pub open spec fn latest_set(calls: Seq<SizeCall>) -> Option<int>
    decreases calls.len(),
{
    if calls.len() == 0 {
        None
    } else if calls.last() is SetSize {
        Some(calls.len() - 1)
    } else {
        latest_set(calls.drop_last())
    }
}

/// The size is the one of the latest `set_size`, or the starting one (zero
/// for a new renderer) if there was none.
pub proof fn lemma_size_of_latest_set(start: Size, calls: Seq<SizeCall>)
    ensures
        match latest_set(calls) {
            Some(i) => {
                &&& 0 <= i < calls.len()
                &&& calls[i] is SetSize
                &&& forall|j: int| i < j < calls.len() ==> !(#[trigger] calls[j] is SetSize)
                &&& size_after(start, calls) == calls[i]->0
            },
            None => {
                &&& forall|j: int| 0 <= j < calls.len() ==> !(#[trigger] calls[j] is SetSize)
                &&& size_after(start, calls) == start
            },
        },
    decreases calls.len(),
{
    if calls.len() > 0 {
        let n = calls.len() - 1;
        assert(calls[n] == calls.last());
        if !(calls.last() is SetSize) {
            let d = calls.drop_last();
            lemma_size_of_latest_set(start, d);
            assert forall|j: int| 0 <= j < d.len() implies #[trigger] d[j] == calls[j] by {}
            match latest_set(d) {
                Some(i) => {
                    assert(calls[i] == d[i]);
                    assert forall|j: int| i < j < calls.len() implies !(#[trigger] calls[j] is SetSize) by {
                        if j < n {
                            assert(d[j] == calls[j]);
                            assert(!(d[j] is SetSize));
                        }
                    }
                },
                None => {
                    assert forall|j: int| 0 <= j < calls.len() implies !(#[trigger] calls[j] is SetSize) by {
                        if j < n {
                            assert(d[j] == calls[j]);
                            assert(!(d[j] is SetSize));
                        }
                    }
                },
            }
        }
    }
}
} // verus!
