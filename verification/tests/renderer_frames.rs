use carbonyl::cell::Cell;
use carbonyl::gfx::{Color, Point, Rect, Size};
use carbonyl::input::{Key, NavigationAction};
use carbonyl::renderer::{NavElement, Renderer};
use carbonyl::vimium::Mode;

fn sized(vim: bool, w: u32, h: u32) -> Renderer {
    let mut r = Renderer::new(vim);
    r.set_size(Size::new(w, h));
    r
}

fn frame(r: &mut Renderer) -> Vec<Cell> {
    r.render(&Vec::new()).expect("frame")
}

fn text_of(c: &Cell) -> Option<String> {
    c.grapheme.as_ref().map(|g| g.char.clone())
}

fn find(cells: &[Cell], x: u32, y: u32) -> &Cell {
    cells.iter().find(|c| c.cursor == (x, y)).expect("cell painted")
}

#[test]
fn new_renderer_is_empty() {
    let r = Renderer::new(false);
    assert_eq!(r.get_size(), Size::new(0, 0));
    assert_eq!(r.cells_size(), Size::new(0, 0));
    assert!(!r.true_color());
}

#[test]
fn enable_true_color_sets_the_flag() {
    let mut r = Renderer::new(false);
    r.enable_true_color();
    assert!(r.true_color());
}

#[test]
fn first_frame_of_a_fresh_grid_paints_nothing() {
    let mut r = sized(false, 4, 2);
    assert_eq!(r.get_size(), Size::new(4, 2));
    assert!(frame(&mut r).is_empty());
}

#[test]
fn fill_rect_paints_one_row() {
    let mut r = sized(false, 4, 2);
    let red = Color::new(200, 0, 0);
    r.fill_rect(Rect::new(1, 1, 2, 1), red);
    let cells = frame(&mut r);
    assert_eq!(cells.len(), 2);
    assert_eq!(cells[0].cursor, (1, 1));
    assert_eq!(cells[1].cursor, (2, 1));
    assert_eq!(cells[0].quadrant, (red, red, red, red));
    // Nothing changed since: the next frame paints nothing.
    assert!(frame(&mut r).is_empty());
}

#[test]
fn draw_text_places_graphemes_by_pixel_origin() {
    let mut r = sized(false, 4, 2);
    let white = Color::splat(255);
    // Four pixel rows per cell, rounded: y = 4 is the first page row.
    r.draw_text("hi", Point::new(0, 4), white);
    let cells = frame(&mut r);
    assert_eq!(cells.len(), 2);
    assert_eq!(cells[0].cursor, (0, 1));
    assert_eq!(text_of(&cells[0]).as_deref(), Some("h"));
    assert_eq!(text_of(&cells[1]).as_deref(), Some("i"));
    let g = cells[1].grapheme.as_ref().unwrap();
    assert_eq!((g.index, g.width, g.color), (0, 1, white));
}

#[test]
fn wide_graphemes_take_two_cells() {
    let mut r = sized(false, 4, 2);
    r.draw_text("日x", Point::new(2, 3), Color::splat(9));
    let cells = frame(&mut r);
    // x = 2 pixels is column 1; (3 + 1) / 4 = row 1.
    assert_eq!(cells.len(), 3);
    let a = cells[0].grapheme.as_ref().unwrap();
    let b = cells[1].grapheme.as_ref().unwrap();
    assert_eq!((a.char.as_str(), a.index, a.width), ("日", 0, 2));
    assert_eq!((b.char.as_str(), b.index, b.width), ("日", 1, 2));
    assert_eq!(cells[2].cursor, (3, 1));
}

#[test]
fn text_stops_at_the_end_of_the_grid() {
    let mut r = sized(false, 2, 1);
    r.draw_text("abcdef", Point::new(2, 4), Color::splat(1));
    let cells = frame(&mut r);
    assert_eq!(cells.len(), 1);
    assert_eq!(text_of(&cells[0]).as_deref(), Some("a"));
}

#[test]
fn clear_text_removes_graphemes() {
    let mut r = sized(false, 4, 2);
    r.draw_text("hi", Point::new(0, 4), Color::splat(255));
    frame(&mut r);
    r.clear_text();
    let cells = frame(&mut r);
    assert_eq!(cells.len(), 2);
    assert!(cells.iter().all(|c| c.grapheme.is_none()));
}

#[test]
fn navigation_elements_are_drawn_on_their_row() {
    let mut r = sized(false, 4, 2);
    let bg = Color::new(1, 2, 3);
    let fg = Color::new(9, 9, 9);
    let el = NavElement { origin: Point::new(1, 0), text: "ab".to_string(), background: bg, foreground: fg };
    let cells = r.render(&vec![el]).expect("frame");
    assert_eq!(cells.len(), 2);
    assert_eq!(cells[0].cursor, (1, 0));
    assert_eq!(cells[0].quadrant, (bg, bg, bg, bg));
    assert_eq!(text_of(&cells[0]).as_deref(), Some("a"));
    assert_eq!(text_of(&cells[1]).as_deref(), Some("b"));
    assert_eq!(cells[1].grapheme.as_ref().unwrap().color, fg);
}

#[test]
fn elements_outside_the_grid_draw_nothing() {
    let mut r = sized(false, 4, 2);
    let c = Color::splat(7);
    let below = NavElement { origin: Point::new(0, 3), text: "abc".to_string(), background: c, foreground: c };
    assert!(r.render(&vec![below]).is_none());
    let left = NavElement { origin: Point::new(-1, 0), text: "a".to_string(), background: c, foreground: c };
    assert!(r.render(&vec![left]).is_none());
    assert!(frame(&mut r).is_empty());
}

#[test]
fn background_pixels_become_cell_quadrants() {
    let mut r = sized(false, 1, 1);
    // 2 x 4 pixels, BGRA: the top half blue-ish, the bottom half red-ish.
    let mut px = Vec::new();
    for y in 0..4 {
        for _x in 0..2 {
            if y < 2 {
                px.extend_from_slice(&[200, 10, 0, 255]);
            } else {
                px.extend_from_slice(&[0, 10, 100, 255]);
            }
        }
    }
    r.draw_background(&px, Size::new(2, 4), 0, 1, 0, 1);
    let cells = frame(&mut r);
    assert_eq!(cells.len(), 1);
    assert_eq!(cells[0].cursor, (0, 1));
    let top = Color::new(0, 10, 200);
    let bottom = Color::new(100, 10, 0);
    assert_eq!(cells[0].quadrant, (top, top, bottom, bottom));
}

#[test]
fn background_pairs_are_averaged() {
    let mut r = sized(false, 1, 1);
    let mut px = Vec::new();
    for y in 0..4u8 {
        for _x in 0..2 {
            px.extend_from_slice(&[0, 0, 10 * y + 1, 255]);
        }
    }
    r.draw_background(&px, Size::new(2, 4), 0, 1, 0, 1);
    let cells = frame(&mut r);
    // Rows 0 and 1 average to (1 + 11) / 2, rows 2 and 3 to (21 + 31) / 2.
    let top = Color::new(6, 0, 0);
    let bottom = Color::new(26, 0, 0);
    assert_eq!(cells[0].quadrant, (top, top, bottom, bottom));
}

#[test]
fn short_pixel_buffers_are_ignored() {
    let mut r = sized(false, 1, 1);
    r.draw_background(&[0u8; 31], Size::new(2, 4), 0, 1, 0, 1);
    assert!(frame(&mut r).is_empty());
}

fn press(r: &mut Renderer, c: u8) -> NavigationAction {
    r.keypress(&Key { char: c }, 800)
}

#[test]
fn keypress_goes_to_the_keyboard_layer() {
    let mut r = sized(true, 10, 3);
    assert_eq!(press(&mut r, b'j'), NavigationAction::Scroll(-50));
    press(&mut r, b'i');
    assert_eq!(r.vimium().mode(), Mode::Insert);
    let mut off = sized(false, 10, 3);
    assert_eq!(press(&mut off, b'j'), NavigationAction::Forward);
}

#[test]
fn find_highlights_matches_and_status_bar() {
    let mut r = sized(true, 10, 3);
    r.draw_text("foo bar", Point::new(0, 4), Color::splat(255));
    for c in [b'/', b'O', 0x0d] {
        press(&mut r, c);
    }
    let cells = frame(&mut r);
    let current = Color::new(255, 150, 50);
    let other = Color::new(255, 235, 110);
    assert_eq!(find(&cells, 1, 1).quadrant.0, current);
    assert_eq!(find(&cells, 2, 1).quadrant.0, other);
    assert_eq!(find(&cells, 0, 1).quadrant.0, Color::splat(0));
    let status: String = (0..8).map(|x| text_of(find(&cells, x, 2)).unwrap()).collect();
    assert_eq!(status, "/O [1/2]");
    assert_eq!(find(&cells, 9, 2).quadrant.0, Color::splat(20));

    press(&mut r, b'n');
    let cells = frame(&mut r);
    assert_eq!(find(&cells, 1, 1).quadrant.0, other);
    assert_eq!(find(&cells, 2, 1).quadrant.0, current);
    assert_eq!(text_of(find(&cells, 4, 2)).as_deref(), Some("2"));

    // Leaving find mode brings the page back.
    press(&mut r, 0x1b);
    let cells = frame(&mut r);
    assert_eq!(find(&cells, 1, 1).quadrant.0, Color::splat(0));
    assert_eq!(text_of(find(&cells, 1, 1)).as_deref(), Some("o"));
    assert!(find(&cells, 0, 2).grapheme.is_none());
    assert!(frame(&mut r).is_empty());
}

#[test]
fn find_without_matches_says_so() {
    let mut r = sized(true, 20, 2);
    r.draw_text("abc", Point::new(0, 4), Color::splat(255));
    for c in [b'/', b'z', 0x0d] {
        press(&mut r, c);
    }
    let cells = frame(&mut r);
    let status: String = (0..15).map(|x| text_of(find(&cells, x, 1)).unwrap()).collect();
    assert_eq!(status, "/z (no matches)");
}

#[test]
fn hint_mode_labels_the_text_spans() {
    let mut r = sized(true, 10, 3);
    r.draw_text("foo bar", Point::new(0, 4), Color::splat(255));
    frame(&mut r);
    press(&mut r, b'f');
    let cells = frame(&mut r);
    let hints = r.vimium().hints();
    assert_eq!(hints.len(), 1);
    assert_eq!(hints[0].label, "a");
    assert_eq!((hints[0].row, hints[0].col_start, hints[0].col_end), (1, 0, 7));
    let label = find(&cells, 0, 1);
    assert_eq!(text_of(label).as_deref(), Some("a"));
    assert_eq!(label.quadrant.0, Color::new(255, 220, 60));
    let status: String = (0..9).map(|x| text_of(find(&cells, x, 2)).unwrap()).collect();
    assert_eq!(status, "hint (1 l");
    assert_eq!(press(&mut r, b'a'), NavigationAction::Click(3, 1));
    assert_eq!(r.vimium().mode(), Mode::Normal);
}

#[test]
fn hint_mode_on_an_empty_page_ends() {
    let mut r = sized(true, 10, 3);
    press(&mut r, b'f');
    assert_eq!(r.vimium().mode(), Mode::Hint);
    frame(&mut r);
    assert_eq!(r.vimium().mode(), Mode::Normal);
}

#[test]
fn distinct_colors_make_distinct_hints() {
    let mut r = sized(true, 20, 2);
    r.draw_text("home", Point::new(0, 4), Color::splat(255));
    r.draw_text("news", Point::new(10, 4), Color::new(0, 0, 255));
    frame(&mut r);
    press(&mut r, b'f');
    frame(&mut r);
    let hints = r.vimium().hints();
    assert_eq!(hints.len(), 2);
    assert_eq!((hints[0].label.as_str(), hints[0].col_start, hints[0].col_end), ("a", 0, 4));
    assert_eq!((hints[1].label.as_str(), hints[1].col_start, hints[1].col_end), ("b", 5, 9));
}

#[test]
fn draw_applies_the_closure_row_by_row() {
    let mut r = sized(false, 4, 2);
    let bump = |c: Cell| {
        let mut q = c.quadrant;
        q.0 = Color::new(q.0.r.wrapping_add(1), q.0.g, q.0.b);
        Cell { cursor: c.cursor, grapheme: c.grapheme, quadrant: q }
    };
    // Six cells wide on a four-cell grid: the two rows overlap on cells 4
    // and 5, which are drawn twice.
    r.draw(Rect::new(0, 0, 6, 2), bump);
    let cells = frame(&mut r);
    assert_eq!(cells.len(), 10);
    for c in &cells {
        let index = c.cursor.1 * 4 + c.cursor.0;
        let want = if index == 4 || index == 5 { 2 } else { 1 };
        assert_eq!(c.quadrant.0.r, want);
        assert_eq!(c.quadrant.1, Color::splat(0));
    }
}

#[test]
fn draw_graphemes_uses_the_given_widths() {
    let mut r = sized(false, 4, 2);
    let c = Color::splat(3);
    let gs = vec![("a".to_string(), 1), ("bb".to_string(), 2), ("z".to_string(), 0), ("q".to_string(), 1)];
    r.draw_graphemes(&gs, Point::new(0, 4), c);
    let cells = frame(&mut r);
    assert_eq!(cells.len(), 4);
    let g: Vec<(String, usize, usize)> = cells
        .iter()
        .map(|c| {
            let g = c.grapheme.as_ref().unwrap();
            (g.char.clone(), g.index, g.width)
        })
        .collect();
    assert_eq!(
        g,
        vec![
            ("a".to_string(), 0, 1),
            ("bb".to_string(), 0, 2),
            ("bb".to_string(), 1, 2),
            ("q".to_string(), 0, 1)
        ]
    );
}

#[test]
fn same_text_in_same_color_keeps_the_cell() {
    let mut r = sized(false, 4, 2);
    let c = Color::splat(3);
    r.draw_text("ab", Point::new(0, 4), c);
    frame(&mut r);
    r.draw_text("ab", Point::new(0, 4), c);
    assert!(frame(&mut r).is_empty());
    r.draw_text("ab", Point::new(0, 4), Color::splat(4));
    assert_eq!(frame(&mut r).len(), 2);
}

/// What the terminal shows: each painted cell's text and first quadrant
/// color, by position.
struct Screen(std::collections::HashMap<(u32, u32), (Option<String>, Color)>);

impl Screen {
    fn new() -> Screen {
        Screen(std::collections::HashMap::new())
    }

    fn paint(&mut self, r: &mut Renderer) {
        for c in frame(r) {
            self.0.insert(c.cursor, (text_of(&c), c.quadrant.0));
        }
    }

    fn line(&self, y: u32, n: u32) -> String {
        (0..n).map(|x| self.0.get(&(x, y)).and_then(|c| c.0.clone()).unwrap_or_default()).collect()
    }

    fn color(&self, x: u32, y: u32) -> Color {
        self.0.get(&(x, y)).map(|c| c.1).unwrap_or(Color::splat(0))
    }
}

#[test]
fn n_and_shift_n_cycle_through_matches() {
    let mut r = sized(true, 12, 3);
    let mut screen = Screen::new();
    r.draw_text("xa xb xc", Point::new(0, 4), Color::splat(255));
    for c in [b'/', b'x', 0x0d] {
        press(&mut r, c);
    }
    screen.paint(&mut r);
    assert_eq!(screen.line(2, 8), "/x [1/3]");
    assert_eq!(screen.color(0, 1), Color::new(255, 150, 50));
    press(&mut r, b'N');
    screen.paint(&mut r);
    assert_eq!(screen.line(2, 8), "/x [3/3]");
    assert_eq!(screen.color(6, 1), Color::new(255, 150, 50));
    assert_eq!(screen.color(0, 1), Color::new(255, 235, 110));
    press(&mut r, b'N');
    screen.paint(&mut r);
    assert_eq!(screen.line(2, 8), "/x [2/3]");
    press(&mut r, b'n');
    press(&mut r, b'n');
    screen.paint(&mut r);
    assert_eq!(screen.line(2, 8), "/x [1/3]");
}

#[test]
fn shift_n_wraps_with_five_matches() {
    let mut r = sized(true, 12, 3);
    let mut screen = Screen::new();
    r.draw_text("x x x x x", Point::new(0, 4), Color::splat(255));
    for c in [b'/', b'x', 0x0d, b'N'] {
        press(&mut r, c);
    }
    screen.paint(&mut r);
    assert_eq!(screen.line(2, 8), "/x [5/5]");
    for _ in 0..3 {
        press(&mut r, b'n');
    }
    screen.paint(&mut r);
    assert_eq!(screen.line(2, 8), "/x [3/5]");
}
