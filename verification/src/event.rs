use vstd::prelude::*;

verus! {

/// One step of a recorded macro: either a left-button click at an absolute
/// screen position, or a pause (in milliseconds) before the next step.
#[derive(Clone, Copy, Debug, PartialEq, Eq, Structural)]
pub enum ClickEvent {
    Click(i32, i32),
    Wait(i32),
}

/// An ordered sequence of click and wait events: one recorded macro.
/// Order is playback order. The empty path is valid and means
/// "nothing recorded".
#[derive(Debug)]
pub struct ClickPath {
    pub clicks: Vec<ClickEvent>,
}

impl View for ClickPath {
    type V = Seq<ClickEvent>;

    open spec fn view(&self) -> Seq<ClickEvent> {
        self.clicks@
    }
}

impl ClickPath {
    /// An empty path.
    pub fn new() -> (r: Self)
        ensures
            r@ == Seq::<ClickEvent>::empty(),
    {
        ClickPath { clicks: Vec::new() }
    }

    /// Appends a click at absolute coordinates `(x, y)`. Coordinates are not
    /// range-checked: screen bounds are the input-simulation side's concern.
    pub fn add_click(&mut self, x: i32, y: i32)
        ensures
            final(self)@ == old(self)@.push(ClickEvent::Click(x, y)),
    {
        self.clicks.push(ClickEvent::Click(x, y));
    }

    /// Appends a pause of `duration_ms` milliseconds. Zero-length waits are
    /// never stored, so the caller must pass a positive duration.
    pub fn add_wait(&mut self, duration_ms: i32)
        requires
            duration_ms > 0,
        ensures
            final(self)@ == old(self)@.push(ClickEvent::Wait(duration_ms)),
    {
        self.clicks.push(ClickEvent::Wait(duration_ms));
    }

    /// Number of recorded events.
    pub fn len(&self) -> (n: usize)
        ensures
            n == self@.len(),
    {
        self.clicks.len()
    }

    /// Whether nothing has been recorded.
    pub fn is_empty(&self) -> (b: bool)
        ensures
            b == (self@.len() == 0),
    {
        self.clicks.len() == 0
    }
}

} // verus!
