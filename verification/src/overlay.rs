use vstd::prelude::*;

use crate::cell::{CellView, GraphemeView, Quadrant};
use crate::gfx::Color;
use crate::hints::hint_targets_of;
use crate::find::matches_upto;
use crate::renderer::{filled, min_int, text_units, unit_grapheme};
use crate::text::{ascii_lower_seq, chars_of, decimal, has_prefix, push_decimal, push_str};
use crate::unicode::grapheme_clusters;
use crate::vimium::Vimium;
use crate::input::NavigationAction;
use crate::vimium::{after_exit_hint, key_step, HintView, Mode, VimiumState};

verus! {

pub open spec fn quad(c: Color) -> Quadrant {
    (c, c, c, c)
}

pub open spec fn rgb(r: u8, g: u8, b: u8) -> Color {
    Color { r, g, b }
}

/// The keyboard state once hint mode has its targets: entering hint mode
/// with no targets on the page leaves it again.
pub open spec fn with_hint_targets(keys: VimiumState, cells: Seq<CellView>, vw: int, vh: int) -> VimiumState {
    if keys.mode == Mode::Hint && keys.hints.len() == 0 {
        let t = hint_targets_of(cells, vw, vh);
        if t.len() == 0 {
            after_exit_hint(keys)
        } else {
            VimiumState { hints: t, ..keys }
        }
    } else {
        keys
    }
}

/// The status bar text before the match counter.
pub open spec fn status_text(keys: VimiumState) -> Option<Seq<char>> {
    match keys.mode {
        Mode::Find => Some(seq!['/'] + keys.find_buf),
        Mode::Insert => Some("-- INSERT --"@),
        Mode::Hint => Some(
            "hint ("@ + decimal(keys.hints.len()) + " link"@ + (if keys.hints.len() == 1 {
                Seq::empty()
            } else {
                seq!['s']
            }) + "): "@ + keys.hint_buf + "  [esc to cancel]"@,
        ),
        Mode::Normal => match keys.find_query {
            Some(q) => Some(seq!['/'] + q),
            None => None,
        },
    }
}

/// The match counter after the status text.
pub open spec fn status_suffix(n_matches: int, cursor: i64, has_query: bool) -> Seq<char> {
    if n_matches == 0 && has_query {
        " (no matches)"@
    } else if n_matches > 0 {
        " ["@ + decimal((current_match(cursor, n_matches) + 1) as nat) + "/"@ + decimal(n_matches as nat)
            + "]"@
    } else {
        Seq::empty()
    }
}

/// The index of the current match among `n` matches: the find cursor
/// modulo `n`, counted up from 0 (a cursor below 0 counts from the end).
pub open spec fn current_match(cursor: i64, n: int) -> int {
    cursor as int % n
}

/// The current match among `n` matches (see `current_match`).
pub fn current_match_of(cursor: i64, n: usize) -> (r: usize)
    requires
        n > 0,
    ensures
        r == current_match(cursor, n as int),
        r < n,
{
    let m = n as u64;
    if cursor >= 0 {
        ((cursor as u64) % m) as usize
    } else {
        let a: u64 = (-(cursor + 1)) as u64;
        let r = m - 1 - a % m;
        proof {
            let c = cursor as int;
            let mi = m as int;
            let ai = a as int;
            assert(c == -(ai + 1));
            vstd::arithmetic::div_mod::lemma_fundamental_div_mod(ai, mi);
            let q = ai / mi;
            let rr = ai % mi;
            assert(c == (-q - 1) * mi + (mi - 1 - rr)) by (nonlinear_arith)
                requires
                    ai == mi * q + rr,
                    c == -(ai + 1),
            ;
            vstd::arithmetic::div_mod::lemma_fundamental_div_mod_converse(
                c,
                mi,
                -(ai / mi) - 1,
                mi - 1 - ai % mi,
            );
        }
        r as usize
    }
}

/// Sets the quadrant of cell `idx`, if it exists.
pub open spec fn paint_quad(cells: Seq<CellView>, idx: int, q: Quadrant) -> Seq<CellView> {
    if 0 <= idx < cells.len() {
        cells.update(idx, CellView { quadrant: q, ..cells[idx] })
    } else {
        cells
    }
}

/// Paints columns `from..to` of the row starting at `row_off`.
pub open spec fn paint_span(cells: Seq<CellView>, row_off: int, from: int, to: int, q: Quadrant) -> Seq<
    CellView,
>
    decreases to - from,
{
    if from >= to {
        cells
    } else {
        paint_span(paint_quad(cells, row_off + from, q), row_off, from + 1, to, q)
    }
}

/// Highlights the find matches in order; the one at `cur` in a stronger
/// color.
pub open spec fn highlight_matches(
    cells: Seq<CellView>,
    ms: Seq<(usize, usize, usize)>,
    cur: int,
    vw: int,
) -> Seq<CellView>
    decreases ms.len(),
{
    if ms.len() == 0 {
        cells
    } else {
        let prev = highlight_matches(cells, ms.drop_last(), cur, vw);
        let m = ms.last();
        let bg = if ms.len() - 1 == cur {
            rgb(255, 150, 50)
        } else {
            rgb(255, 235, 110)
        };
        paint_span(prev, m.0 * vw, m.1 as int, m.2 as int, quad(bg))
    }
}

/// Draws the label of a hint from column `i` on: each letter on a yellow
/// cell, the letters already typed (`typed` bytes) in brown, the rest in
/// black, up to the end of the row.
pub open spec fn draw_label(cells: Seq<CellView>, h: HintView, typed: int, vw: int, i: int) -> Seq<
    CellView,
>
    decreases h.label.len() - i,
{
    if i >= h.label.len() || h.col_start + i >= vw || i < 0 {
        cells
    } else {
        let idx = h.row * vw + h.col_start + i;
        let fg = if i < typed {
            rgb(140, 60, 0)
        } else {
            rgb(0, 0, 0)
        };
        let next = if idx < cells.len() {
            cells.update(
                idx,
                CellView {
                    quadrant: quad(rgb(255, 220, 60)),
                    grapheme: Some(
                        GraphemeView { text: seq![h.label[i]], index: 0, width: 1, color: fg },
                    ),
                    ..cells[idx]
                },
            )
        } else {
            cells
        };
        draw_label(next, h, typed, vw, i + 1)
    }
}

/// Draws the labels of the hints, skipping rows 0 and `vh` and beyond.
pub open spec fn draw_labels(cells: Seq<CellView>, hs: Seq<HintView>, typed: int, vw: int, vh: int) -> Seq<
    CellView,
>
    decreases hs.len(),
{
    if hs.len() == 0 {
        cells
    } else {
        let prev = draw_labels(cells, hs.drop_last(), typed, vw, vh);
        let h = hs.last();
        if h.row == 0 || h.row >= vh {
            prev
        } else {
            draw_label(prev, h, typed, vw, 0)
        }
    }
}

/// The hints whose label starts with what was typed.
pub open spec fn visible_hints(hs: Seq<HintView>, buf: Seq<char>) -> Seq<HintView>
    decreases hs.len(),
{
    if hs.len() == 0 {
        Seq::empty()
    } else {
        let v = visible_hints(hs.drop_last(), buf);
        if has_prefix(hs.last().label, buf) {
            v.push(hs.last())
        } else {
            v
        }
    }
}

/// The hints whose labels are drawn are exactly those whose label starts
/// with the letters typed so far: each is one of the hints and starts with
/// them, and every hint that starts with them is among them.
pub proof fn lemma_visible_hints(hs: Seq<HintView>, buf: Seq<char>)
    ensures
        forall|i: int|
            0 <= i < visible_hints(hs, buf).len() ==> has_prefix(
                (#[trigger] visible_hints(hs, buf)[i]).label,
                buf,
            ) && hs.contains(visible_hints(hs, buf)[i]),
        forall|j: int| 0 <= j < hs.len() && has_prefix((#[trigger] hs[j]).label, buf) ==> visible_hints(
            hs,
            buf,
        ).contains(hs[j]),
    decreases hs.len(),
{
    if hs.len() > 0 {
        let d = hs.drop_last();
        lemma_visible_hints(d, buf);
        let v = visible_hints(d, buf);
        let w = visible_hints(hs, buf);
        assert forall|i: int| 0 <= i < w.len() implies has_prefix((#[trigger] w[i]).label, buf) && hs.contains(w[i]) by {
            if i < v.len() {
                assert(w[i] == v[i]);
                assert(has_prefix(v[i].label, buf) && d.contains(v[i]));
                let k = choose|k: int| 0 <= k < d.len() && d[k] == v[i];
                assert(hs[k] == d[k]);
            } else {
                assert(w[i] == hs.last());
                assert(hs[hs.len() - 1] == hs.last());
            }
        }
        assert forall|j: int| 0 <= j < hs.len() && has_prefix((#[trigger] hs[j]).label, buf) implies w.contains(hs[j]) by {
            if j < d.len() {
                assert(d[j] == hs[j]);
                assert(v.contains(d[j]));
                let k = choose|k: int| 0 <= k < v.len() && v[k] == d[j];
                assert(w[k] == v[k]);
            } else {
                assert(hs[j] == hs.last());
                assert(w[w.len() - 1] == hs.last());
            }
        }
    }
}

/// The grid row of the status bar.
pub open spec fn status_row(vh: int) -> int {
    if vh - 1 >= 1 {
        vh - 1
    } else {
        1
    }
}

/// The find matches shown: those of the lower-cased query, if there is a
/// non-empty one.
pub open spec fn overlay_matches(cells: Seq<CellView>, keys: VimiumState, vw: int, vh: int) -> Seq<
    (usize, usize, usize),
> {
    match keys.find_query {
        Some(q) => if q.len() > 0 {
            matches_upto(cells, vw, vh, ascii_lower_seq(q))
        } else {
            Seq::empty()
        },
        None => Seq::empty(),
    }
}

/// Find is ASCII case-insensitive: queries that agree once lower-cased
/// find the same matches.
pub proof fn lemma_find_case_insensitive(
    cells: Seq<CellView>,
    keys: VimiumState,
    q1: Seq<char>,
    q2: Seq<char>,
    vw: int,
    vh: int,
)
    requires
        ascii_lower_seq(q1) == ascii_lower_seq(q2),
    ensures
        overlay_matches(cells, VimiumState { find_query: Some(q1), ..keys }, vw, vh) == overlay_matches(
            cells,
            VimiumState { find_query: Some(q2), ..keys },
            vw,
            vh,
        ),
{
    assert(q1.len() == ascii_lower_seq(q1).len());
    assert(q2.len() == ascii_lower_seq(q2).len());
}

/// `n` makes the next find match current and `N` the previous one,
/// cycling: with `m` matches of the query on the grid and match `k`
/// current, `n` makes match `(k + 1) % m` current and `N` match
/// `(k + m - 1) % m`, and the matches stay the same. (The cursor wraps at
/// the ends of `i64`, which the law leaves out.)
pub proof fn lemma_find_cycles(cells: Seq<CellView>, s: VimiumState, h: i32, vw: int, vh: int)
    requires
        !s.disabled,
        s.mode == Mode::Normal,
        !s.pending_g,
        s.find_query is Some,
        overlay_matches(cells, s, vw, vh).len() > 0,
        i64::MIN < s.find_cursor < i64::MAX,
    ensures
        ({
            let m = overlay_matches(cells, s, vw, vh).len() as int;
            let k = current_match(s.find_cursor, m);
            let next = key_step(s, 0x6e, h);
            let prev = key_step(s, 0x4e, h);
            &&& next.1 == NavigationAction::Ignore
            &&& prev.1 == NavigationAction::Ignore
            &&& overlay_matches(cells, next.0, vw, vh) == overlay_matches(cells, s, vw, vh)
            &&& overlay_matches(cells, prev.0, vw, vh) == overlay_matches(cells, s, vw, vh)
            &&& current_match(next.0.find_cursor, m) == (k + 1) % m
            &&& current_match(prev.0.find_cursor, m) == (k + m - 1) % m
        }),
{
    let m = overlay_matches(cells, s, vw, vh).len() as int;
    let c = s.find_cursor as int;
    let k = c % m;
    vstd::arithmetic::div_mod::lemma_add_mod_noop(c, 1, m);
    vstd::arithmetic::div_mod::lemma_add_mod_noop_right(k, 1, m);
    vstd::arithmetic::div_mod::lemma_mod_sub_multiples_vanish(c + m - 1, m);
    vstd::arithmetic::div_mod::lemma_add_mod_noop(c, m - 1, m);
    vstd::arithmetic::div_mod::lemma_add_mod_noop_right(k, m - 1, m);
    assert(-m + (c + m - 1) == c - 1);
}

/// The status bar: its row painted dark, with `text` in white from column 0.
pub open spec fn status_bar(cells: Seq<CellView>, text: Seq<char>, vw: int, vh: int) -> Seq<CellView> {
    let row_off = status_row(vh) * vw;
    let units = text_units(grapheme_clusters(text), true);
    Seq::new(
        cells.len(),
        |i: int|
            if row_off <= i < row_off + vw {
                let f = filled(cells[i], rgb(20, 20, 20));
                if i - row_off < min_int(units.len() as int, vw) {
                    CellView {
                        grapheme: Some(unit_grapheme(units[i - row_off], rgb(255, 255, 255))),
                        ..f
                    }
                } else {
                    f
                }
            } else {
                cells[i]
            },
    )
}

/// The status bar text as printed: at most `vw - 1` characters.
pub open spec fn printed_status(full: Seq<char>, vw: int) -> Seq<char> {
    full.take(min_int(full.len() as int, vw - 1))
}

/// The grid with the keyboard layer's overlay drawn over it: find matches,
/// hint labels, then the status bar.
pub open spec fn overlay_cells(cells: Seq<CellView>, keys: VimiumState, vw: int, vh: int) -> Seq<
    CellView,
> {
    let ms = overlay_matches(cells, keys, vw, vh);
    let c1 = if ms.len() > 0 {
        highlight_matches(cells, ms, current_match(keys.find_cursor, ms.len() as int), vw)
    } else {
        cells
    };
    let c2 = if keys.mode == Mode::Hint {
        draw_labels(
            c1,
            visible_hints(keys.hints, keys.hint_buf),
            (vstd::utf8::encode_utf8(keys.hint_buf).len() as usize) as int,
            vw,
            vh,
        )
    } else {
        c1
    };
    match status_text(keys) {
        None => c2,
        Some(t) => status_bar(
            c2,
            printed_status(
                t + status_suffix(ms.len() as int, keys.find_cursor, keys.find_query is Some),
                vw,
            ),
            vw,
            vh,
        ),
    }
}

/// The status bar text for a keyboard state (see `status_text`).
pub fn status_text_of(v: &Vimium) -> (r: Option<Vec<char>>)
    ensures
        match r {
            Some(t) => status_text(v@) == Some(t@),
            None => status_text(v@) is None,
        },
{
    match v.mode() {
        Mode::Find => {
            let mut t: Vec<char> = vec!['/'];
            push_str(&mut t, v.find_buf());
            assert(t@ =~= seq!['/'] + v@.find_buf);
            Some(t)
        },
        Mode::Insert => {
            let mut t: Vec<char> = Vec::new();
            push_str(&mut t, "-- INSERT --");
            assert(t@ =~= "-- INSERT --"@);
            Some(t)
        },
        Mode::Hint => {
            let n = v.hints().len();
            let mut t: Vec<char> = Vec::new();
            push_str(&mut t, "hint (");
            push_decimal(&mut t, n as u64);
            push_str(&mut t, " link");
            if n != 1 {
                t.push('s');
            }
            push_str(&mut t, "): ");
            push_str(&mut t, v.hint_buf());
            push_str(&mut t, "  [esc to cancel]");
            assert(t@ =~= "hint ("@ + decimal(v@.hints.len()) + " link"@ + (if v@.hints.len() == 1 {
                Seq::empty()
            } else {
                seq!['s']
            }) + "): "@ + v@.hint_buf + "  [esc to cancel]"@);
            Some(t)
        },
        Mode::Normal => match v.find_query() {
            Some(q) => {
                let mut t: Vec<char> = vec!['/'];
                push_str(&mut t, q);
                assert(t@ =~= seq!['/'] + q@);
                Some(t)
            },
            None => None,
        },
    }
}

/// The match counter (see `status_suffix`).
pub fn status_suffix_of(n: usize, cursor: i64, has_query: bool) -> (r: Vec<char>)
    ensures
        r@ == status_suffix(n as int, cursor, has_query),
{
    let mut t: Vec<char> = Vec::new();
    if n == 0 && has_query {
        push_str(&mut t, " (no matches)");
        assert(t@ =~= " (no matches)"@);
    } else if n > 0 {
        let cur = current_match_of(cursor, n);
        push_str(&mut t, " [");
        push_decimal(&mut t, (cur as u64) + 1);
        push_str(&mut t, "/");
        push_decimal(&mut t, n as u64);
        push_str(&mut t, "]");
        assert(t@ =~= " ["@ + decimal((current_match(cursor, n as int) + 1) as nat) + "/"@ + decimal(
            n as nat,
        ) + "]"@);
    } else {
        assert(t@ =~= Seq::<char>::empty());
    }
    t
}

} // verus!
