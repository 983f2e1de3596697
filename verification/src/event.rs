//! Terminal events: the tick of the event source and what a key does.
use vstd::prelude::*;
use crate::outline::App;

verus! {

/// The event source of the terminal interface: it waits for a key for at
/// most one tick.
#[derive(Debug, Clone, Copy, PartialEq, Eq, Structural)]
pub struct EventHandler {
    tick_rate_ms: u64,
}

impl EventHandler {
    /// An event handler with a tick of `tick_rate_ms` milliseconds.
    pub fn new(tick_rate_ms: u64) -> (res: EventHandler)
        ensures
            res.tick() == tick_rate_ms,
    {
        EventHandler { tick_rate_ms }
    }

    /// The tick, in milliseconds.
    pub closed spec fn tick(&self) -> u64 {
        self.tick_rate_ms
    }

    /// The tick, in milliseconds.
    pub fn tick_rate_ms(&self) -> (res: u64)
        ensures
            res == self.tick(),
    {
        self.tick_rate_ms
    }
}

/// The keys that the interface tells apart.
#[derive(Debug, Clone, Copy, PartialEq, Eq, Structural)]
pub enum KeyCode {
    Char(char),
    Up,
    Down,
    Left,
    Right,
    Enter,
    Other,
}

/// A key press, with whether Control was held.
#[derive(Debug, Clone, Copy, PartialEq, Eq, Structural)]
pub struct KeyEvent {
    pub code: KeyCode,
    pub control: bool,
}

/// Whether a key quits: `q` or `Q`, or `c` or `C` with Control.
pub open spec fn quits(key: KeyEvent) -> bool {
    match key.code {
        KeyCode::Char(c) => c == 'q' || c == 'Q' || ((c == 'c' || c == 'C') && key.control),
        _ => false,
    }
}

/// Handle a key press: the quitting keys quit the view; the others do
/// nothing yet.
pub fn handle_key_event(key: KeyEvent, app: &mut App)
    ensures
        final(app).should_quit == (old(app).should_quit || quits(key)),
        final(app).current_note == old(app).current_note,
        final(app).outline_tree == old(app).outline_tree,
        final(app).cursor_position == old(app).cursor_position,
        final(app).scroll_offset == old(app).scroll_offset,
        final(app).is_editing == old(app).is_editing,
        final(app).edit_buffer == old(app).edit_buffer,
{
    match key.code {
        KeyCode::Char(c) => {
            if c == 'q' || c == 'Q' || ((c == 'c' || c == 'C') && key.control) {
                app.quit();
            }
        },
        _ => {},
    }
}

} // verus!
