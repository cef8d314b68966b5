use vstd::prelude::*;

use crate::input::{Key, NavigationAction};
use crate::text::{has_prefix, pop_char, push_char, starts_with, chars_of};

verus! {

/// Pixels scrolled by `gg` / `G`: far enough to reach either end of a page.
pub const SCROLL_TO_EDGE_PX: i32 = 1_000_000_000;

/// The keyboard mode of the navigation layer.
#[derive(Debug, Clone, Copy, PartialEq, Eq, Structural)]
pub enum Mode {
    Normal,
    Insert,
    Find,
    Hint,
}

/// A clickable candidate shown in hint mode: a label and the cell span
/// `col_start..col_end` on `row` that it marks.
#[derive(Debug, Clone)]
pub struct HintTarget {
    pub label: String,
    pub row: u32,
    pub col_start: u32,
    pub col_end: u32,
}

/// The mathematical content of a hint target.
pub struct HintView {
    pub label: Seq<char>,
    pub row: u32,
    pub col_start: u32,
    pub col_end: u32,
}

pub open spec fn sat_sub(a: int, b: int) -> int {
    if a >= b {
        a - b
    } else {
        0
    }
}

/// The column a click on this target lands on: the middle of its span.
pub open spec fn click_col_of(h: HintView) -> int {
    (h.col_start + sat_sub(h.col_end as int, 1)) / 2
}

/// The midpoint computation does not overflow a `u32`.
pub open spec fn click_in_range(h: HintView) -> bool {
    h.col_start + sat_sub(h.col_end as int, 1) <= u32::MAX
}

impl View for HintTarget {
    type V = HintView;

    open spec fn view(&self) -> HintView {
        HintView {
            label: self.label@,
            row: self.row,
            col_start: self.col_start,
            col_end: self.col_end,
        }
    }
}

pub open spec fn hints_view(v: Seq<HintTarget>) -> Seq<HintView> {
    v.map_values(|h: HintTarget| h@)
}

impl HintTarget {
    pub fn click_col(&self) -> (c: u32)
        requires
            click_in_range(self@),
        ensures
            c == click_col_of(self@),
    {
        (self.col_start + self.col_end.saturating_sub(1)) / 2
    }

    pub fn click_row(&self) -> (r: u32)
        ensures
            r == self.row,
    {
        self.row
    }

    /// A copy with the same content.
    pub fn duplicate(&self) -> (r: HintTarget)
        ensures
            r@ == self@,
    {
        HintTarget {
            label: self.label.clone(),
            row: self.row,
            col_start: self.col_start,
            col_end: self.col_end,
        }
    }
}

/// The state of the keyboard layer.
pub struct VimiumState {
    pub mode: Mode,
    pub pending_g: bool,
    pub find_buf: Seq<char>,
    pub find_query: Option<Seq<char>>,
    pub find_cursor: i64,
    pub hints: Seq<HintView>,
    pub hint_buf: Seq<char>,
    pub disabled: bool,
}

/// Vimium-style keyboard navigation: scrolling, history, find-on-page and
/// link hints, driven one key at a time.
pub struct Vimium {
    mode: Mode,
    pending_g: bool,
    find_buf: String,
    find_query: Option<String>,
    find_cursor: i64,
    hints: Vec<HintTarget>,
    hint_buf: String,
    // Off unless the user opts in: every key then reaches the page unchanged.
    disabled: bool,
}

pub open spec fn opt_string_view(o: Option<String>) -> Option<Seq<char>> {
    match o {
        Some(s) => Some(s@),
        None => None,
    }
}

/// Every hint's click position can be computed.
pub open spec fn hints_in_range(hints: Seq<HintView>) -> bool {
    forall|i: int| 0 <= i < hints.len() ==> click_in_range(#[trigger] hints[i])
}

impl View for Vimium {
    type V = VimiumState;

    closed spec fn view(&self) -> VimiumState {
        VimiumState {
            mode: self.mode,
            pending_g: self.pending_g,
            find_buf: self.find_buf@,
            find_query: opt_string_view(self.find_query),
            find_cursor: self.find_cursor,
            hints: hints_view(self.hints@),
            hint_buf: self.hint_buf@,
            disabled: self.disabled,
        }
    }
}

/// A fresh keyboard layer in Normal mode; `enabled` is whether the user
/// opted in.
pub open spec fn initial_state(enabled: bool) -> VimiumState {
    VimiumState {
        mode: Mode::Normal,
        pending_g: false,
        find_buf: Seq::empty(),
        find_query: None,
        find_cursor: 0,
        hints: Seq::empty(),
        hint_buf: Seq::empty(),
        disabled: !enabled,
    }
}

// ---------------------------------------------------------------------------
// What one key does.

pub open spec fn trunc_div(a: int, b: int) -> int {
    if a >= 0 {
        a / b
    } else {
        -((-a) / b)
    }
}

pub open spec fn max_int(a: int, b: int) -> int {
    if a >= b {
        a
    } else {
        b
    }
}

/// Pixels scrolled by `j` / `k`.
pub open spec fn line_step_px(h: i32) -> int {
    max_int(trunc_div(h as int, 16), 40)
}

/// Pixels scrolled by `d` / `u`.
pub open spec fn half_page_px(h: i32) -> int {
    max_int(trunc_div(h as int, 2), line_step_px(h))
}

pub open spec fn is_ascii_alpha(c: u8) -> bool {
    (65 <= c <= 90) || (97 <= c <= 122)
}

/// The lower-case letter typed by an ASCII letter key.
pub open spec fn lower_letter(c: u8) -> char {
    if 65 <= c <= 90 {
        ((c + 32) as u8) as char
    } else {
        c as char
    }
}

/// Number of hints whose label starts with `buf`.
pub open spec fn count_matching(hints: Seq<HintView>, buf: Seq<char>) -> nat
    decreases hints.len(),
{
    if hints.len() == 0 {
        0
    } else {
        count_matching(hints.drop_last(), buf) + if has_prefix(hints.last().label, buf) {
            1nat
        } else {
            0nat
        }
    }
}

/// Leaving hint mode: hints and typed letters are dropped.
pub open spec fn after_exit_hint(s: VimiumState) -> VimiumState {
    VimiumState { hints: Seq::empty(), hint_buf: Seq::empty(), mode: Mode::Normal, ..s }
}

pub open spec fn drop_last_char(s: Seq<char>) -> Seq<char> {
    if s.len() == 0 {
        s
    } else {
        s.drop_last()
    }
}

/// The hint a unique prefix selects.
pub open spec fn selected_hint(hints: Seq<HintView>, buf: Seq<char>) -> HintView {
    hints[choose|i: int| 0 <= i < hints.len() && has_prefix(hints[i].label, buf)]
}

pub open spec fn hint_step(s: VimiumState, c: u8) -> (VimiumState, NavigationAction) {
    if c == 0x1b {
        (after_exit_hint(s), NavigationAction::Ignore)
    } else if c == 0x7f || c == 0x08 {
        (VimiumState { hint_buf: drop_last_char(s.hint_buf), ..s }, NavigationAction::Ignore)
    } else if is_ascii_alpha(c) {
        let buf = s.hint_buf.push(lower_letter(c));
        let n = count_matching(s.hints, buf);
        if n == 1 {
            let h = selected_hint(s.hints, buf);
            (after_exit_hint(s), NavigationAction::Click(click_col_of(h) as u32, h.row))
        } else if n == 0 {
            (after_exit_hint(s), NavigationAction::Ignore)
        } else {
            (VimiumState { hint_buf: buf, ..s }, NavigationAction::Ignore)
        }
    } else {
        (s, NavigationAction::Ignore)
    }
}

pub open spec fn insert_step(s: VimiumState, c: u8) -> (VimiumState, NavigationAction) {
    if c == 0x1b {
        (VimiumState { mode: Mode::Normal, ..s }, NavigationAction::Ignore)
    } else {
        (s, NavigationAction::Forward)
    }
}

pub open spec fn find_step(s: VimiumState, c: u8) -> (VimiumState, NavigationAction) {
    if c == 0x1b {
        (VimiumState { mode: Mode::Normal, find_buf: Seq::empty(), ..s }, NavigationAction::Ignore)
    } else if c == 0x0d {
        (
            VimiumState {
                find_query: if s.find_buf.len() == 0 {
                    None
                } else {
                    Some(s.find_buf)
                },
                find_cursor: 0,
                find_buf: Seq::empty(),
                mode: Mode::Normal,
                ..s
            },
            NavigationAction::Ignore,
        )
    } else if c == 0x7f || c == 0x08 {
        if s.find_buf.len() == 0 {
            (VimiumState { mode: Mode::Normal, ..s }, NavigationAction::Ignore)
        } else {
            (VimiumState { find_buf: s.find_buf.drop_last(), ..s }, NavigationAction::Ignore)
        }
    } else if 0x20 <= c < 0x7f {
        (VimiumState { find_buf: s.find_buf.push(c as char), ..s }, NavigationAction::Ignore)
    } else {
        (s, NavigationAction::Ignore)
    }
}

/// The find cursor after `n`: one match on (the current match is the
/// cursor modulo the number of matches); it wraps at the end of `i64`.
pub open spec fn cursor_next(c: i64) -> i64 {
    if c == i64::MAX {
        i64::MIN
    } else {
        (c + 1) as i64
    }
}

/// The find cursor after `N`: one match back.
pub open spec fn cursor_prev(c: i64) -> i64 {
    if c == i64::MIN {
        i64::MAX
    } else {
        (c - 1) as i64
    }
}

pub open spec fn normal_step(s: VimiumState, c: u8, h: i32) -> (VimiumState, NavigationAction) {
    if s.pending_g && c != 0x1b {
        (
            VimiumState { pending_g: false, ..s },
            if c == 0x67 {
                NavigationAction::Scroll(SCROLL_TO_EDGE_PX)
            } else {
                NavigationAction::Ignore
            },
        )
    } else if c == 0x1b {
        (VimiumState { pending_g: false, find_query: None, find_cursor: 0, ..s }, NavigationAction::Ignore)
    } else if c == 0x69 {  // i
        (VimiumState { mode: Mode::Insert, ..s }, NavigationAction::Ignore)
    } else if c == 0x2f {  // /
        (VimiumState { mode: Mode::Find, find_buf: Seq::empty(), ..s }, NavigationAction::Ignore)
    } else if c == 0x68 {  // h
        (s, NavigationAction::KeyPress(0x14))
    } else if c == 0x6c {  // l
        (s, NavigationAction::KeyPress(0x13))
    } else if c == 0x6a {  // j
        (s, NavigationAction::Scroll((-line_step_px(h)) as i32))
    } else if c == 0x6b {  // k
        (s, NavigationAction::Scroll(line_step_px(h) as i32))
    } else if c == 0x64 {  // d
        (s, NavigationAction::Scroll((-half_page_px(h)) as i32))
    } else if c == 0x75 {  // u
        (s, NavigationAction::Scroll(half_page_px(h) as i32))
    } else if c == 0x67 {  // g
        (VimiumState { pending_g: true, ..s }, NavigationAction::Ignore)
    } else if c == 0x47 {  // G
        (s, NavigationAction::Scroll((-SCROLL_TO_EDGE_PX) as i32))
    } else if c == 0x72 {  // r
        (s, NavigationAction::Refresh())
    } else if c == 0x48 || c == 0x5b {  // H [
        (s, NavigationAction::GoBack())
    } else if c == 0x4c || c == 0x5d {  // L ]
        (s, NavigationAction::GoForward())
    } else if c == 0x6e {  // n
        (
            if s.find_query is Some {
                VimiumState { find_cursor: cursor_next(s.find_cursor), ..s }
            } else {
                s
            },
            NavigationAction::Ignore,
        )
    } else if c == 0x4e {  // N
        (
            if s.find_query is Some {
                VimiumState { find_cursor: cursor_prev(s.find_cursor), ..s }
            } else {
                s
            },
            NavigationAction::Ignore,
        )
    } else if c == 0x66 {  // f
        (
            VimiumState { mode: Mode::Hint, hint_buf: Seq::empty(), hints: Seq::empty(), ..s },
            NavigationAction::Ignore,
        )
    } else if c < 0x20 || c == 0x7f {
        (s, NavigationAction::Forward)
    } else {
        (s, NavigationAction::Ignore)
    }
}

/// The new state and the action for one key press.
pub open spec fn key_step(s: VimiumState, c: u8, h: i32) -> (VimiumState, NavigationAction) {
    if s.disabled {
        (s, NavigationAction::Forward)
    } else {
        match s.mode {
            Mode::Insert => insert_step(s, c),
            Mode::Find => find_step(s, c),
            Mode::Hint => hint_step(s, c),
            Mode::Normal => normal_step(s, c, h),
        }
    }
}

/// With the keyboard layer off, every key reaches the page unchanged and
/// the state stays as it is.
pub proof fn lemma_disabled_forwards(s: VimiumState, c: u8, h: i32)
    requires
        s.disabled,
    ensures
        key_step(s, c, h) == (s, NavigationAction::Forward),
{
}

/// Escape, in any mode, is swallowed and leaves the layer in Normal mode
/// (hint mode also drops its hints and typed letters); in Normal mode it
/// clears the find query and a half-typed `g`.
pub proof fn lemma_escape_to_normal(s: VimiumState, h: i32)
    requires
        !s.disabled,
    ensures
        key_step(s, 0x1b, h).0.mode == Mode::Normal,
        key_step(s, 0x1b, h).1 == NavigationAction::Ignore,
        s.mode == Mode::Hint ==> key_step(s, 0x1b, h).0 == after_exit_hint(s),
        s.mode == Mode::Normal ==> key_step(s, 0x1b, h).0 == (VimiumState {
            pending_g: false,
            find_query: None,
            find_cursor: 0,
            ..s
        }),
{
}

/// Enter in find mode confirms the query (none if nothing was typed),
/// empties the prompt, goes back to Normal mode and starts the cursor at 0,
/// so that the first match of the new query is the current one whatever
/// match was current before.
pub proof fn lemma_enter_confirms_query(s: VimiumState, h: i32, m: int)
    requires
        !s.disabled,
        s.mode == Mode::Find,
        m > 0,
    ensures
        key_step(s, 0x0d, h).1 == NavigationAction::Ignore,
        key_step(s, 0x0d, h).0.mode == Mode::Normal,
        key_step(s, 0x0d, h).0.find_buf.len() == 0,
        key_step(s, 0x0d, h).0.find_query == if s.find_buf.len() == 0 {
            None
        } else {
            Some(s.find_buf)
        },
        key_step(s, 0x0d, h).0.find_cursor == 0,
        (key_step(s, 0x0d, h).0.find_cursor as int) % m == 0,
{
}

/// In Normal mode the control keys other than Escape (arrows, Enter, Tab,
/// backspace) reach the page, and the state stays as it is.
pub proof fn lemma_control_keys_pass(s: VimiumState, c: u8, h: i32)
    requires
        !s.disabled,
        s.mode == Mode::Normal,
        !s.pending_g,
        (c < 0x20 && c != 0x1b) || c == 0x7f,
    ensures
        key_step(s, c, h) == (s, NavigationAction::Forward),
{
}

/// In hint mode, a letter after which no label starts with what was typed
/// leaves hint mode without a click.
pub proof fn lemma_no_match_exits(s: VimiumState, c: u8, h: i32)
    requires
        !s.disabled,
        s.mode == Mode::Hint,
        is_ascii_alpha(c),
        forall|j: int|
            0 <= j < s.hints.len() ==> !has_prefix(#[trigger] s.hints[j].label, s.hint_buf.push(lower_letter(c))),
    ensures
        key_step(s, c, h) == (after_exit_hint(s), NavigationAction::Ignore),
{
    let buf = s.hint_buf.push(lower_letter(c));
    if count_matching(s.hints, buf) != 0 {
        lemma_count_nonzero_has_match(s.hints, buf);
    }
}

/// A positive count has a matching hint.
proof fn lemma_count_nonzero_has_match(hints: Seq<HintView>, buf: Seq<char>)
    requires
        count_matching(hints, buf) != 0,
    ensures
        exists|j: int| 0 <= j < hints.len() && has_prefix(#[trigger] hints[j].label, buf),
    decreases hints.len(),
{
    let d = hints.drop_last();
    if !has_prefix(hints.last().label, buf) {
        lemma_count_nonzero_has_match(d, buf);
        let j = choose|j: int| 0 <= j < d.len() && has_prefix(#[trigger] d[j].label, buf);
        assert(hints[j] == d[j]);
    } else {
        assert(has_prefix(hints[hints.len() - 1].label, buf));
    }
}

/// In hint mode, a letter after which exactly one label starts with what
/// was typed clicks that hint and leaves hint mode.
pub proof fn lemma_unique_prefix_clicks(s: VimiumState, c: u8, h: i32, k: int)
    requires
        !s.disabled,
        s.mode == Mode::Hint,
        is_ascii_alpha(c),
        0 <= k < s.hints.len(),
        has_prefix(s.hints[k].label, s.hint_buf.push(lower_letter(c))),
        forall|j: int|
            0 <= j < s.hints.len() && j != k ==> !has_prefix(
                #[trigger] s.hints[j].label,
                s.hint_buf.push(lower_letter(c)),
            ),
    ensures
        key_step(s, c, h) == (after_exit_hint(s), NavigationAction::Click(
            click_col_of(s.hints[k]) as u32,
            s.hints[k].row,
        )),
{
    let buf = s.hint_buf.push(lower_letter(c));
    lemma_count_only(s.hints, buf, k);
    let i = choose|i: int| 0 <= i < s.hints.len() && has_prefix(s.hints[i].label, buf);
    lemma_count_one_unique(s.hints, buf, i, k);
}

/// Typing the last letter of a hint's label clicks it, when the labels are
/// the ones handed out for the hints (see `hint_label`).
pub proof fn lemma_full_label_clicks(s: VimiumState, c: u8, h: i32, k: int)
    requires
        !s.disabled,
        s.mode == Mode::Hint,
        is_ascii_alpha(c),
        0 <= k < s.hints.len(),
        s.hints.len() <= crate::hints::max_hint_labels(),
        forall|i: int|
            0 <= i < s.hints.len() ==> #[trigger] s.hints[i].label == crate::hints::hint_label(
                i,
                s.hints.len() as int,
            ),
        s.hint_buf.push(lower_letter(c)) == s.hints[k].label,
    ensures
        key_step(s, c, h) == (after_exit_hint(s), NavigationAction::Click(
            click_col_of(s.hints[k]) as u32,
            s.hints[k].row,
        )),
{
    let n = s.hints.len() as int;
    let buf = s.hint_buf.push(lower_letter(c));
    assert(buf.take(buf.len() as int) =~= buf);
    assert forall|j: int| 0 <= j < s.hints.len() && j != k implies !has_prefix(
        #[trigger] s.hints[j].label,
        buf,
    ) by {
        crate::hints::lemma_hint_labels_prefix_free(n, k, j);
    }
    lemma_unique_prefix_clicks(s, c, h, k);
}

/// Exactly one matching hint gives a count of one.
proof fn lemma_count_only(hints: Seq<HintView>, buf: Seq<char>, k: int)
    requires
        0 <= k < hints.len(),
        has_prefix(hints[k].label, buf),
        forall|j: int| 0 <= j < hints.len() && j != k ==> !has_prefix(#[trigger] hints[j].label, buf),
    ensures
        count_matching(hints, buf) == 1,
    decreases hints.len(),
{
    let last = hints.len() - 1;
    let d = hints.drop_last();
    if k != last {
        assert(d[k] == hints[k]);
        assert forall|j: int| 0 <= j < d.len() && j != k implies !has_prefix(#[trigger] d[j].label, buf) by {
            assert(d[j] == hints[j]);
        }
        lemma_count_only(d, buf, k);
    } else {
        lemma_count_none(d, buf, hints);
    }
}

/// No hint of a prefix of `all` matches: the count is zero.
proof fn lemma_count_none(hints: Seq<HintView>, buf: Seq<char>, all: Seq<HintView>)
    requires
        hints.len() < all.len(),
        forall|j: int| 0 <= j < hints.len() ==> hints[j] == all[j],
        forall|j: int| 0 <= j < all.len() && j != all.len() - 1 ==> !has_prefix(#[trigger] all[j].label, buf),
    ensures
        count_matching(hints, buf) == 0,
    decreases hints.len(),
{
    if hints.len() > 0 {
        let last = hints.len() - 1;
        assert(hints[last] == all[last]);
        assert(!has_prefix(all[last].label, buf));
        lemma_count_none(hints.drop_last(), buf, all);
    }
}

// ---------------------------------------------------------------------------

proof fn lemma_count_take(hints: Seq<HintView>, buf: Seq<char>, i: int)
    requires
        0 <= i < hints.len(),
    ensures
        count_matching(hints.take(i + 1), buf) == count_matching(hints.take(i), buf) + if has_prefix(
            hints[i].label,
            buf,
        ) {
            1nat
        } else {
            0nat
        },
{
    assert(hints.take(i + 1).drop_last() == hints.take(i));
}

proof fn lemma_count_monotone(hints: Seq<HintView>, buf: Seq<char>, i: int)
    requires
        0 <= i <= hints.len(),
    ensures
        count_matching(hints.take(i), buf) <= count_matching(hints, buf),
    decreases hints.len() - i,
{
    if i < hints.len() {
        lemma_count_take(hints, buf, i);
        lemma_count_monotone(hints, buf, i + 1);
    } else {
        assert(hints.take(i) == hints);
    }
}

/// With exactly one matching hint, every matching index is that one.
proof fn lemma_count_one_unique(hints: Seq<HintView>, buf: Seq<char>, i: int, j: int)
    requires
        0 <= i < hints.len(),
        0 <= j < hints.len(),
        has_prefix(hints[i].label, buf),
        has_prefix(hints[j].label, buf),
        count_matching(hints, buf) <= 1,
    ensures
        i == j,
    decreases hints.len(),
{
    let last = hints.len() - 1;
    if i != last && j != last {
        assert(hints.drop_last()[i] == hints[i]);
        assert(hints.drop_last()[j] == hints[j]);
        lemma_count_one_unique(hints.drop_last(), buf, i, j);
    } else if i != j {
        let k = if i == last {
            j
        } else {
            i
        };
        assert(hints.drop_last()[k] == hints[k]);
        lemma_count_positive(hints.drop_last(), buf, k);
    }
}

proof fn lemma_count_positive(hints: Seq<HintView>, buf: Seq<char>, k: int)
    requires
        0 <= k < hints.len(),
        has_prefix(hints[k].label, buf),
    ensures
        count_matching(hints, buf) >= 1,
    decreases hints.len(),
{
    if k != hints.len() - 1 {
        assert(hints.drop_last()[k] == hints[k]);
        lemma_count_positive(hints.drop_last(), buf, k);
    }
}

impl Vimium {
    #[verifier::type_invariant]
    spec fn inv(self) -> bool {
        hints_in_range(hints_view(self.hints@))
    }

    /// A keyboard layer in Normal mode; `enabled` is whether the user opted in.
    pub fn new(enabled: bool) -> (v: Vimium)
        ensures
            v@ == initial_state(enabled),
    {
        let v = Vimium {
            mode: Mode::Normal,
            pending_g: false,
            find_buf: String::new(),
            find_query: None,
            find_cursor: 0,
            hints: Vec::new(),
            hint_buf: String::new(),
            disabled: !enabled,
        };
        assert(hints_view(v.hints@) =~= Seq::<HintView>::empty());
        v
    }

    pub fn hints(&self) -> (r: &[HintTarget])
        ensures
            hints_view(r@) == self@.hints,
            hints_in_range(self@.hints),
    {
        proof {
            use_type_invariant(self);
        }
        self.hints.as_slice()
    }

    pub fn hint_buf(&self) -> (r: &str)
        ensures
            r@ == self@.hint_buf,
    {
        self.hint_buf.as_str()
    }

    pub fn set_hints(&mut self, hints: Vec<HintTarget>)
        requires
            hints_in_range(hints_view(hints@)),
        ensures
            final(self)@ == (VimiumState { hints: hints_view(hints@), ..old(self)@ }),
    {
        proof {
            use_type_invariant(&*self);
        }
        self.hints = hints;
    }

    pub fn exit_hint(&mut self)
        ensures
            final(self)@ == after_exit_hint(old(self)@),
    {
        proof {
            use_type_invariant(&*self);
        }
        self.hints = Vec::new();
        self.hint_buf = String::new();
        self.mode = Mode::Normal;
        assert(hints_view(self.hints@) =~= Seq::<HintView>::empty());
    }

    pub fn mode(&self) -> (m: Mode)
        ensures
            m == self@.mode,
    {
        self.mode
    }

    pub fn find_buf(&self) -> (r: &str)
        ensures
            r@ == self@.find_buf,
    {
        self.find_buf.as_str()
    }

    pub fn find_query(&self) -> (r: Option<&str>)
        ensures
            match r {
                Some(q) => self@.find_query == Some(q@),
                None => self@.find_query is None,
            },
    {
        match &self.find_query {
            Some(q) => Some(q.as_str()),
            None => None,
        }
    }

    /// The find cursor: the current match is this cursor modulo the number
    /// of matches (counting from 0).
    pub fn find_cursor(&self) -> (c: i64)
        ensures
            c == self@.find_cursor,
    {
        self.find_cursor
    }

    /// Handles one key press: updates the mode and buffers and says what the
    /// browser should do with the key.
    pub fn handle(&mut self, key: &Key, viewport_px_height: i32) -> (action: NavigationAction)
        ensures
            (final(self)@, action) == key_step(old(self)@, key.char, viewport_px_height),
    {
        if self.disabled {
            return NavigationAction::Forward;
        }
        let line_step = {
            let q = viewport_px_height / 16;
            if q > 40 {
                q
            } else {
                40
            }
        };
        let half_page = {
            let q = viewport_px_height / 2;
            if q > line_step {
                q
            } else {
                line_step
            }
        };
        assert(line_step == line_step_px(viewport_px_height));
        assert(half_page == half_page_px(viewport_px_height));
        match self.mode {
            Mode::Insert => self.handle_insert(key),
            Mode::Find => self.handle_find(key),
            Mode::Hint => self.handle_hint(key),
            Mode::Normal => self.handle_normal(key, line_step, half_page),
        }
    }

    fn handle_hint(&mut self, key: &Key) -> (action: NavigationAction)
        ensures
            (final(self)@, action) == hint_step(old(self)@, key.char),
    {
        proof {
            use_type_invariant(&*self);
        }
        let c = key.char;
        if c == 0x1b {
            self.exit_hint();
            NavigationAction::Ignore
        } else if c == 0x7f || c == 0x08 {
            let mut b = self.hint_buf.clone();
            let _ = pop_char(&mut b);
            self.hint_buf = b;
            NavigationAction::Ignore
        } else if (65 <= c && c <= 90) || (97 <= c && c <= 122) {
            let lc: char = if c <= 90 {
                (c + 32) as char
            } else {
                c as char
            };
            let mut b = self.hint_buf.clone();
            push_char(&mut b, lc);
            self.hint_buf = b;
            let buf = chars_of(self.hint_buf.as_str());
            let ghost hs = hints_view(self.hints@);
            let mut last_match: (u32, u32) = (0, 0);
            let ghost mut last_idx: int = 0;
            let mut count: usize = 0;
            let mut i: usize = 0;
            while i < self.hints.len() && count <= 1
                invariant
                    i <= self.hints.len(),
                    hs == hints_view(self.hints@),
                    hints_in_range(hs),
                    count == count_matching(hs.take(i as int), buf@),
                    count <= 2,
                    count >= 1 ==> 0 <= last_idx < i && has_prefix(hs[last_idx].label, buf@)
                        && last_match == (click_col_of(hs[last_idx]) as u32, hs[last_idx].row),
                decreases self.hints.len() - i,
            {
                let h = &self.hints[i];
                let label = chars_of(h.label.as_str());
                proof {
                    lemma_count_take(hs, buf@, i as int);
                    assert(hs[i as int] == h@);
                }
                if starts_with(&label, &buf) {
                    count = count + 1;
                    assert(click_in_range(hs[i as int]));
                    last_match = (h.click_col(), h.click_row());
                    proof {
                        last_idx = i as int;
                    }
                }
                i = i + 1;
            }
            proof {
                lemma_count_monotone(hs, buf@, i as int);
                if count <= 1 {
                    assert(hs.take(i as int) == hs);
                }
            }
            if count == 1 {
                let (col, row) = last_match;
                proof {
                    let k = choose|k: int| 0 <= k < hs.len() && has_prefix(hs[k].label, buf@);
                    lemma_count_one_unique(hs, buf@, k, last_idx);
                }
                self.exit_hint();
                return NavigationAction::Click(col, row);
            }
            if count == 0 {
                self.exit_hint();
            }
            NavigationAction::Ignore
        } else {
            NavigationAction::Ignore
        }
    }

    fn handle_insert(&mut self, key: &Key) -> (action: NavigationAction)
        ensures
            (final(self)@, action) == insert_step(old(self)@, key.char),
    {
        proof {
            use_type_invariant(&*self);
        }
        if key.char == 0x1b {
            self.mode = Mode::Normal;
            return NavigationAction::Ignore;
        }
        NavigationAction::Forward
    }

    fn handle_find(&mut self, key: &Key) -> (action: NavigationAction)
        ensures
            (final(self)@, action) == find_step(old(self)@, key.char),
    {
        proof {
            use_type_invariant(&*self);
        }
        let c = key.char;
        if c == 0x1b {
            self.mode = Mode::Normal;
            self.find_buf = String::new();
            NavigationAction::Ignore
        } else if c == 0x0d {
            self.find_query = if self.find_buf.as_str().is_empty() {
                None
            } else {
                Some(self.find_buf.clone())
            };
            self.find_cursor = 0;
            self.find_buf = String::new();
            self.mode = Mode::Normal;
            NavigationAction::Ignore
        } else if c == 0x7f || c == 0x08 {
            let mut b = self.find_buf.clone();
            if pop_char(&mut b).is_none() {
                self.mode = Mode::Normal;
            }
            self.find_buf = b;
            NavigationAction::Ignore
        } else if 0x20 <= c && c < 0x7f {
            let mut b = self.find_buf.clone();
            push_char(&mut b, c as char);
            self.find_buf = b;
            NavigationAction::Ignore
        } else {
            NavigationAction::Ignore
        }
    }

    fn handle_normal(&mut self, key: &Key, line: i32, half: i32) -> (action: NavigationAction)
        requires
            40 <= line <= half,
        ensures
            old(self)@.pending_g ==> (final(self)@, action) == normal_step(old(self)@, key.char, 0),
            !old(self)@.pending_g ==> forall|h: i32|
                line_step_px(h) == line && half_page_px(h) == half ==> (final(self)@, action)
                    == #[trigger] normal_step(old(self)@, key.char, h),
    {
        proof {
            use_type_invariant(&*self);
        }
        let c = key.char;
        if self.pending_g && c != 0x1b {
            self.pending_g = false;
            return if c == 0x67 {
                NavigationAction::Scroll(SCROLL_TO_EDGE_PX)
            } else {
                NavigationAction::Ignore
            };
        }
        if c == 0x1b {
            self.pending_g = false;
            self.find_query = None;
            self.find_cursor = 0;
            NavigationAction::Ignore
        } else if c == 0x69 {
            self.mode = Mode::Insert;
            NavigationAction::Ignore
        } else if c == 0x2f {
            self.mode = Mode::Find;
            self.find_buf = String::new();
            NavigationAction::Ignore
        } else if c == 0x68 {
            NavigationAction::KeyPress(0x14)
        } else if c == 0x6c {
            NavigationAction::KeyPress(0x13)
        } else if c == 0x6a {
            NavigationAction::Scroll(-line)
        } else if c == 0x6b {
            NavigationAction::Scroll(line)
        } else if c == 0x64 {
            NavigationAction::Scroll(-half)
        } else if c == 0x75 {
            NavigationAction::Scroll(half)
        } else if c == 0x67 {
            self.pending_g = true;
            NavigationAction::Ignore
        } else if c == 0x47 {
            NavigationAction::Scroll(-SCROLL_TO_EDGE_PX)
        } else if c == 0x72 {
            NavigationAction::Refresh()
        } else if c == 0x48 || c == 0x5b {
            NavigationAction::GoBack()
        } else if c == 0x4c || c == 0x5d {
            NavigationAction::GoForward()
        } else if c == 0x6e {
            if self.find_query.is_some() {
                self.find_cursor = if self.find_cursor == i64::MAX {
                    i64::MIN
                } else {
                    self.find_cursor + 1
                };
            }
            NavigationAction::Ignore
        } else if c == 0x4e {
            if self.find_query.is_some() {
                self.find_cursor = if self.find_cursor == i64::MIN {
                    i64::MAX
                } else {
                    self.find_cursor - 1
                };
            }
            NavigationAction::Ignore
        } else if c == 0x66 {
            self.mode = Mode::Hint;
            self.hint_buf = String::new();
            self.hints = Vec::new();
            assert(hints_view(self.hints@) =~= Seq::<HintView>::empty());
            NavigationAction::Ignore
        } else if c < 0x20 || c == 0x7f {
            NavigationAction::Forward
        } else {
            NavigationAction::Ignore
        }
    }
}

} // verus!
