use carbonyl::input::{Key, NavigationAction};
use carbonyl::vimium::{HintTarget, Mode, Vimium};

fn key(c: u8) -> Key {
    Key { char: c }
}

fn press(v: &mut Vimium, c: u8) -> NavigationAction {
    v.handle(&key(c), 800)
}

#[test]
fn disabled_layer_forwards_every_key() {
    let mut v = Vimium::new(false);
    for c in [b'j', b'f', b'/', 0x1b, b'i'] {
        assert_eq!(v.handle(&key(c), 800), NavigationAction::Forward);
        assert_eq!(v.mode(), Mode::Normal);
    }
}

#[test]
fn scroll_steps_follow_viewport_height() {
    let mut v = Vimium::new(true);
    assert_eq!(press(&mut v, b'j'), NavigationAction::Scroll(-50));
    assert_eq!(press(&mut v, b'k'), NavigationAction::Scroll(50));
    assert_eq!(press(&mut v, b'd'), NavigationAction::Scroll(-400));
    assert_eq!(press(&mut v, b'u'), NavigationAction::Scroll(400));
    // Small viewports scroll at least 40 pixels per line.
    assert_eq!(v.handle(&key(b'j'), 320), NavigationAction::Scroll(-40));
    assert_eq!(v.handle(&key(b'd'), 60), NavigationAction::Scroll(-40));
    assert_eq!(v.handle(&key(b'j'), -32), NavigationAction::Scroll(-40));
}

#[test]
fn gg_and_shift_g_jump_to_the_edges() {
    let mut v = Vimium::new(true);
    assert_eq!(press(&mut v, b'g'), NavigationAction::Ignore);
    assert_eq!(press(&mut v, b'g'), NavigationAction::Scroll(1_000_000_000));
    assert_eq!(press(&mut v, b'G'), NavigationAction::Scroll(-1_000_000_000));
    assert_eq!(press(&mut v, b'g'), NavigationAction::Ignore);
    assert_eq!(press(&mut v, b'x'), NavigationAction::Ignore);
    assert_eq!(press(&mut v, b'j'), NavigationAction::Scroll(-50));
}

#[test]
fn history_and_arrow_keys() {
    let mut v = Vimium::new(true);
    assert_eq!(press(&mut v, b'h'), NavigationAction::KeyPress(0x14));
    assert_eq!(press(&mut v, b'l'), NavigationAction::KeyPress(0x13));
    assert_eq!(press(&mut v, b'r'), NavigationAction::Refresh());
    assert_eq!(press(&mut v, b'H'), NavigationAction::GoBack());
    assert_eq!(press(&mut v, b'['), NavigationAction::GoBack());
    assert_eq!(press(&mut v, b'L'), NavigationAction::GoForward());
    assert_eq!(press(&mut v, b']'), NavigationAction::GoForward());
    assert_eq!(press(&mut v, 0x0d), NavigationAction::Forward);
    assert_eq!(press(&mut v, 0x7f), NavigationAction::Forward);
    assert_eq!(press(&mut v, b'z'), NavigationAction::Ignore);
}

#[test]
fn insert_mode_passes_keys_until_escape() {
    let mut v = Vimium::new(true);
    assert_eq!(press(&mut v, b'i'), NavigationAction::Ignore);
    assert_eq!(v.mode(), Mode::Insert);
    assert_eq!(press(&mut v, b'j'), NavigationAction::Forward);
    assert_eq!(press(&mut v, b'f'), NavigationAction::Forward);
    assert_eq!(press(&mut v, 0x1b), NavigationAction::Ignore);
    assert_eq!(v.mode(), Mode::Normal);
}

#[test]
fn find_mode_builds_a_query() {
    let mut v = Vimium::new(true);
    press(&mut v, b'/');
    assert_eq!(v.mode(), Mode::Find);
    press(&mut v, b'A');
    press(&mut v, b'b');
    press(&mut v, b'c');
    press(&mut v, 0x7f);
    assert_eq!(v.find_buf(), "Ab");
    press(&mut v, 0x01);
    assert_eq!(v.find_buf(), "Ab");
    assert_eq!(press(&mut v, 0x0d), NavigationAction::Ignore);
    assert_eq!(v.mode(), Mode::Normal);
    assert_eq!(v.find_query(), Some("Ab"));
    assert_eq!(v.find_buf(), "");
    assert_eq!(v.find_cursor(), 0);
    press(&mut v, b'n');
    press(&mut v, b'n');
    assert_eq!(v.find_cursor(), 2);
    press(&mut v, b'N');
    press(&mut v, b'N');
    press(&mut v, b'N');
    assert_eq!(v.find_cursor(), -1);
    press(&mut v, 0x1b);
    assert_eq!(v.find_query(), None);
    assert_eq!(v.find_cursor(), 0);
}

#[test]
fn empty_find_clears_the_query() {
    let mut v = Vimium::new(true);
    press(&mut v, b'/');
    press(&mut v, b'x');
    press(&mut v, 0x0d);
    assert_eq!(v.find_query(), Some("x"));
    press(&mut v, b'/');
    press(&mut v, 0x0d);
    assert_eq!(v.find_query(), None);
    // Backspace on an empty buffer leaves find mode.
    press(&mut v, b'/');
    press(&mut v, 0x08);
    assert_eq!(v.mode(), Mode::Normal);
    // Escape drops what was typed.
    press(&mut v, b'/');
    press(&mut v, b'q');
    press(&mut v, 0x1b);
    assert_eq!(v.mode(), Mode::Normal);
    assert_eq!(v.find_buf(), "");
    assert_eq!(v.find_query(), None);
}

#[test]
fn n_without_query_keeps_cursor() {
    let mut v = Vimium::new(true);
    press(&mut v, b'n');
    press(&mut v, b'N');
    assert_eq!(v.find_cursor(), 0);
}

fn target(label: &str, row: u32, col_start: u32, col_end: u32) -> HintTarget {
    HintTarget { label: label.to_string(), row, col_start, col_end }
}

#[test]
fn hint_click_position() {
    let h = target("a", 3, 4, 9);
    assert_eq!(h.click_col(), 6);
    assert_eq!(h.click_row(), 3);
    assert_eq!(target("b", 1, 5, 0).click_col(), 2);
    assert_eq!(target("c", 1, 7, 8).click_col(), 7);
}

#[test]
fn typing_a_unique_label_clicks_it() {
    let mut v = Vimium::new(true);
    press(&mut v, b'f');
    assert_eq!(v.mode(), Mode::Hint);
    v.set_hints(vec![target("aa", 1, 0, 4), target("ab", 2, 10, 20), target("ba", 3, 2, 3)]);
    assert_eq!(press(&mut v, b'A'), NavigationAction::Ignore);
    assert_eq!(v.hint_buf(), "a");
    assert_eq!(v.mode(), Mode::Hint);
    assert_eq!(press(&mut v, b'b'), NavigationAction::Click(14, 2));
    assert_eq!(v.mode(), Mode::Normal);
    assert!(v.hints().is_empty());
    assert_eq!(v.hint_buf(), "");
}

#[test]
fn hint_mode_backspace_digits_and_misses() {
    let mut v = Vimium::new(true);
    press(&mut v, b'f');
    v.set_hints(vec![target("aa", 1, 0, 4), target("ab", 2, 10, 20)]);
    press(&mut v, b'a');
    press(&mut v, 0x7f);
    assert_eq!(v.hint_buf(), "");
    assert_eq!(press(&mut v, b'1'), NavigationAction::Ignore);
    assert_eq!(v.mode(), Mode::Hint);
    // No label starts with "z": hint mode ends.
    assert_eq!(press(&mut v, b'z'), NavigationAction::Ignore);
    assert_eq!(v.mode(), Mode::Normal);
    assert!(v.hints().is_empty());
}

#[test]
fn escape_leaves_hint_mode() {
    let mut v = Vimium::new(true);
    press(&mut v, b'f');
    v.set_hints(vec![target("a", 1, 0, 4)]);
    assert_eq!(press(&mut v, 0x1b), NavigationAction::Ignore);
    assert_eq!(v.mode(), Mode::Normal);
    v.exit_hint();
    assert_eq!(v.mode(), Mode::Normal);
}

#[test]
fn escape_clears_a_pending_g_and_the_query() {
    let mut v = Vimium::new(true);
    for c in [b'/', b'x', 0x0d] {
        press(&mut v, c);
    }
    assert_eq!(v.find_query(), Some("x"));
    press(&mut v, b'g');
    assert_eq!(press(&mut v, 0x1b), NavigationAction::Ignore);
    assert_eq!(v.find_query(), None);
    // The half-typed `g` is gone: `g` starts a new one.
    assert_eq!(press(&mut v, b'g'), NavigationAction::Ignore);
    assert_eq!(press(&mut v, b'g'), NavigationAction::Scroll(1_000_000_000));
}

#[test]
fn arrows_enter_and_tab_pass_through() {
    let mut v = Vimium::new(true);
    for c in [0x11, 0x12, 0x13, 0x14, 0x0d, 0x09] {
        assert_eq!(press(&mut v, c), NavigationAction::Forward);
    }
    assert_eq!(v.mode(), Mode::Normal);
}
