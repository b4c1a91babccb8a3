use vstd::prelude::*;

use crate::event::ClickEvent;
use crate::event::ClickPath;
use crate::session::PlayMode;

verus! {

/// The observable state of a playback pass: the loaded events, the mode,
/// the cursor of the next event, and whether the pass is over.
pub ghost struct PlaybackView {
    pub events: Seq<ClickEvent>,
    pub mode: PlayMode,
    pub index: int,
    pub finished: bool,
}

impl PlaybackView {
    /// Well formed: at least one event, and the cursor stands on one of
    /// them unless the pass is over.
    pub open spec fn wf(self) -> bool {
        self.events.len() > 0 && (self.finished || 0 <= self.index < self.events.len())
    }
}

/// One decision step of playback. The poll result goes in: whether an exit
/// command was just seen. Out comes the event to perform now, or nothing
/// when the pass is over. An exit ends the pass before any further event;
/// in Once mode the pass ends after the last event; in Loop mode the cursor
/// wraps around instead.
pub open spec fn playback_step(p: PlaybackView, cancel: bool) -> (PlaybackView, Option<
    ClickEvent,
>) {
    if cancel {
        (PlaybackView { finished: true, ..p }, None)
    } else if p.finished {
        (p, None)
    } else {
        let ev = p.events[p.index];
        if p.index + 1 < p.events.len() {
            (PlaybackView { index: p.index + 1, ..p }, Some(ev))
        } else if p.mode is Loop {
            (PlaybackView { index: 0, ..p }, Some(ev))
        } else {
            (PlaybackView { finished: true, ..p }, Some(ev))
        }
    }
}

/// What one step emits, as a sequence.
pub open spec fn opt_seq(o: Option<ClickEvent>) -> Seq<ClickEvent> {
    match o {
        Some(e) => seq![e],
        None => Seq::empty(),
    }
}

/// The state reached and the events emitted after `n` steps in which no
/// exit was polled.
pub open spec fn playback_run(p: PlaybackView, n: nat) -> (PlaybackView, Seq<ClickEvent>)
    decreases n,
{
    if n == 0 {
        (p, Seq::empty())
    } else {
        let sr = playback_step(p, false);
        let rest = playback_run(sr.0, (n - 1) as nat);
        (rest.0, opt_seq(sr.1) + rest.1)
    }
}

/// A playback pass over a freshly loaded, independent path.
#[derive(Debug)]
pub struct Playback {
    pub events: Vec<ClickEvent>,
    pub mode: PlayMode,
    pub index: usize,
    pub finished: bool,
}

impl View for Playback {
    type V = PlaybackView;

    open spec fn view(&self) -> PlaybackView {
        PlaybackView {
            events: self.events@,
            mode: self.mode,
            index: self.index as int,
            finished: self.finished,
        }
    }
}

impl Playback {
    /// Begins playback of a loaded path, or refuses an empty one (nothing
    /// recorded: the caller reports and returns to idle).
    pub fn start(path: ClickPath, mode: PlayMode) -> (r: Option<Playback>)
        ensures
            (path@.len() == 0) <==> r is None,
            r matches Some(p) ==> p@ == (PlaybackView {
                events: path@,
                mode: mode,
                index: 0,
                finished: false,
            }),
            r matches Some(p) ==> p@.wf() && !p@.finished,
    {
        if path.clicks.len() == 0 {
            None
        } else {
            Some(Playback { events: path.clicks, mode, index: 0, finished: false })
        }
    }

    /// Whether another step remains. In Once mode this goes false after the
    /// last event; in Loop mode only an exit makes it false.
    pub fn has_next(&self) -> (r: bool)
        ensures
            r == !self@.finished,
    {
        !self.finished
    }

    /// Performs one decision step, exactly as `playback_step` describes:
    /// `cancel` says whether the caller's non-blocking poll saw an exit.
    pub fn next(&mut self, cancel: bool) -> (r: Option<ClickEvent>)
        requires
            old(self)@.wf(),
        ensures
            final(self)@.wf(),
            (final(self)@, r) == playback_step(old(self)@, cancel),
    {
        if cancel {
            self.finished = true;
            return None;
        }
        if self.finished {
            return None;
        }
        let n = self.events.len();
        let ev = self.events[self.index];
        if self.index + 1 < n {
            self.index = self.index + 1;
        } else if matches!(self.mode, PlayMode::Loop) {
            self.index = 0;
        } else {
            self.finished = true;
        }
        Some(ev)
    }
}

/// From the cursor at `i`, an uncancelled run of the remaining steps emits
/// the rest of the path in order; then a Once pass is finished, while a
/// Loop pass stands at the start again.
pub proof fn lemma_play_pass(p: PlaybackView, i: int)
    requires
        p.wf(),
        !p.finished,
        p.index == i,
        0 <= i < p.events.len(),
    ensures
        playback_run(p, (p.events.len() - i) as nat).1 == p.events.subrange(
            i,
            p.events.len() as int,
        ),
        p.mode is Once ==> playback_run(p, (p.events.len() - i) as nat).0 == (PlaybackView {
            finished: true,
            index: p.events.len() - 1,
            ..p
        }),
        p.mode is Loop ==> playback_run(p, (p.events.len() - i) as nat).0 == (PlaybackView {
            index: 0,
            ..p
        }),
    decreases p.events.len() - i,
{
    let n = (p.events.len() - i) as nat;
    let sr = playback_step(p, false);
    if i + 1 < p.events.len() {
        lemma_play_pass(sr.0, i + 1);
        assert(playback_run(p, n).1 =~= p.events.subrange(i, p.events.len() as int)) by {
            assert(playback_run(sr.0, (n - 1) as nat).1 == p.events.subrange(
                i + 1,
                p.events.len() as int,
            ));
        }
    } else {
        assert(n == 1);
        assert(playback_run(sr.0, 0nat).1 == Seq::<ClickEvent>::empty());
        assert(playback_run(p, n).1 =~= p.events.subrange(i, p.events.len() as int));
    }
}

/// Playback fidelity, Once: a pass started at the top emits the whole path
/// exactly once, in order, and then is finished.
pub proof fn lemma_once_fidelity(p: PlaybackView)
    requires
        p.wf(),
        !p.finished,
        p.index == 0,
        p.mode is Once,
    ensures
        playback_run(p, p.events.len()).1 == p.events,
        playback_run(p, p.events.len()).0.finished,
{
    lemma_play_pass(p, 0);
    assert(p.events.subrange(0, p.events.len() as int) =~= p.events);
}

/// One full Loop cycle: the whole path comes out in order and the state
/// returns exactly to where it began, ready to repeat.
pub proof fn lemma_loop_cycle(p: PlaybackView)
    requires
        p.wf(),
        !p.finished,
        p.index == 0,
        p.mode is Loop,
    ensures
        playback_run(p, p.events.len()).1 == p.events,
        playback_run(p, p.events.len()).0 == p,
{
    lemma_play_pass(p, 0);
    assert(p.events.subrange(0, p.events.len() as int) =~= p.events);
}

/// A Loop pass never ends on its own: without an exit it is still running
/// after any number of steps.
pub proof fn lemma_loop_runs_forever(p: PlaybackView, n: nat)
    requires
        p.wf(),
        !p.finished,
        p.mode is Loop,
    ensures
        !playback_run(p, n).0.finished,
        playback_run(p, n).0.wf(),
    decreases n,
{
    if n > 0 {
        let sr = playback_step(p, false);
        lemma_loop_runs_forever(sr.0, (n - 1) as nat);
    }
}

/// Runs compose: `a + b` uncancelled steps are `a` steps and then `b` more
/// from where those left off.
proof fn lemma_run_add(p: PlaybackView, a: nat, b: nat)
    ensures
        playback_run(p, a + b).0 == playback_run(playback_run(p, a).0, b).0,
        playback_run(p, a + b).1 == playback_run(p, a).1 + playback_run(
            playback_run(p, a).0,
            b,
        ).1,
    decreases a,
{
    if a == 0 {
        assert(playback_run(p, b).1 =~= playback_run(p, 0nat).1 + playback_run(p, b).1);
    } else {
        let sr = playback_step(p, false);
        lemma_run_add(sr.0, (a - 1) as nat, b);
        assert((a + b - 1) as nat == (a - 1) as nat + b);
        assert(playback_run(p, a + b).1 =~= playback_run(p, a).1 + playback_run(
            playback_run(p, a).0,
            b,
        ).1);
    }
}

/// The path repeated `k` times over.
pub open spec fn repeat_events(s: Seq<ClickEvent>, k: nat) -> Seq<ClickEvent>
    decreases k,
{
    if k == 0 {
        Seq::empty()
    } else {
        s + repeat_events(s, (k - 1) as nat)
    }
}

/// Loop playback repeats indefinitely: `k` full uncancelled cycles emit the
/// path `k` times over, for every `k`, and come back to the start.
pub proof fn lemma_loop_repeats(p: PlaybackView, k: nat)
    requires
        p.wf(),
        !p.finished,
        p.index == 0,
        p.mode is Loop,
    ensures
        playback_run(p, k * p.events.len()).0 == p,
        playback_run(p, k * p.events.len()).1 == repeat_events(p.events, k),
    decreases k,
{
    let len = p.events.len();
    if k == 0 {
        assert(0nat * len == 0nat) by (nonlinear_arith);
    } else {
        assert(k * len == len + (k - 1) as nat * len) by (nonlinear_arith)
            requires
                k >= 1,
        ;
        lemma_run_add(p, len, (k - 1) as nat * len);
        lemma_loop_cycle(p);
        lemma_loop_repeats(p, (k - 1) as nat);
    }
}

/// Cancellation is immediate: the step at which an exit is polled performs
/// nothing and ends the pass, whatever its state was.
pub proof fn lemma_cancel_immediate(p: PlaybackView)
    ensures
        playback_step(p, true).1 is None,
        playback_step(p, true).0.finished,
{
}

} // verus!
