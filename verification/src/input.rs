use vstd::prelude::*;

verus! {

/// A key press, identified by the byte it produces.
#[derive(Clone, Copy, Debug, PartialEq, Eq, Structural)]
pub struct Key {
    pub char: u8,
}

/// What the browser should do in response to an input event.
#[derive(Clone, Copy, Debug, PartialEq, Eq, Structural)]
pub enum NavigationAction {
    /// Hand the event to the page unchanged.
    Forward,
    /// Swallow the event.
    Ignore,
    /// Send a synthetic click at a terminal cell (column, row).
    Click(u32, u32),
    /// Scroll by a number of pixels (positive scrolls up).
    Scroll(i32),
    /// Send a key press to the page.
    KeyPress(u8),
    Refresh(),
    GoBack(),
    GoForward(),
}

} // verus!
