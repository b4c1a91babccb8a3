use vstd::prelude::*;

use crate::codec::encode_log;
use crate::codec::serialize;
use crate::event::ClickEvent;
use crate::event::ClickPath;

verus! {

/// Whether playback runs one pass or repeats until an exit arrives.
#[derive(Clone, Copy, Debug, PartialEq, Eq, Structural)]
pub enum PlayMode {
    Once,
    Loop,
}

/// A command token delivered asynchronously from hotkey capture. Each is a
/// full instruction; the session consumes them strictly in arrival order.
#[derive(Clone, Copy, Debug, PartialEq, Eq, Structural)]
pub enum AppCommand {
    StartRecording,
    RegisterClick,
    StopRecording,
    PlayClicks(PlayMode),
    Exit,
}

/// The observable state of a session: whether it is recording, and the
/// events gathered so far.
pub ghost struct SessionView {
    pub recording: bool,
    pub log: Seq<ClickEvent>,
}

/// Starting a recording: any prior log is discarded, whatever the state.
pub open spec fn start_recording_spec(s: SessionView) -> SessionView {
    SessionView { recording: true, log: Seq::empty() }
}

/// What one taken register-click command appends: the elapsed wait only
/// when it is positive, then exactly one click at the pointer position.
pub open spec fn click_suffix(elapsed_ms: i32, x: i32, y: i32) -> Seq<ClickEvent> {
    if elapsed_ms > 0 {
        seq![ClickEvent::Wait(elapsed_ms), ClickEvent::Click(x, y)]
    } else {
        seq![ClickEvent::Click(x, y)]
    }
}

/// Registering a click: while recording, the suffix above is appended;
/// outside recording, nothing changes.
pub open spec fn register_click_spec(s: SessionView, elapsed_ms: i32, x: i32, y: i32) -> SessionView {
    if !s.recording {
        s
    } else {
        SessionView { log: s.log + click_suffix(elapsed_ms, x, y), ..s }
    }
}

/// Stopping a recording: valid in any state; the log itself is kept.
pub open spec fn stop_recording_spec(s: SessionView) -> SessionView {
    SessionView { recording: false, ..s }
}

/// The single owner of recording state and of the log under construction.
#[derive(Debug)]
pub struct Session {
    pub recording: bool,
    pub log: ClickPath,
}

impl View for Session {
    type V = SessionView;

    open spec fn view(&self) -> SessionView {
        SessionView { recording: self.recording, log: self.log@ }
    }
}

impl Session {
    /// A fresh, idle session with nothing recorded.
    pub fn new() -> (r: Self)
        ensures
            r@ == (SessionView { recording: false, log: Seq::<ClickEvent>::empty() }),
    {
        Session { recording: false, log: ClickPath::new() }
    }

    /// Handles a start command: recording begins over an empty log, and any
    /// unsaved prior log is discarded.
    pub fn start_recording(&mut self)
        ensures
            final(self)@ == start_recording_spec(old(self)@),
    {
        self.recording = true;
        self.log = ClickPath::new();
    }

    /// Handles a register-click command with the elapsed time since the last
    /// mark and the current pointer position. Taken only while recording;
    /// otherwise a no-op, for the caller to report. Says whether it was taken.
    pub fn register_click(&mut self, elapsed_ms: i32, x: i32, y: i32) -> (accepted: bool)
        requires
            elapsed_ms >= 0,
        ensures
            final(self)@ == register_click_spec(old(self)@, elapsed_ms, x, y),
            accepted == old(self)@.recording,
    {
        if !self.recording {
            return false;
        }
        if elapsed_ms > 0 {
            self.log.add_wait(elapsed_ms);
        }
        self.log.add_click(x, y);
        proof {
            assert(self@.log =~= register_click_spec(old(self)@, elapsed_ms, x, y).log);
        }
        true
    }

    /// Handles a stop command: recording ends (valid in any state) and the
    /// log, empty or not, is rendered into the persisted byte form for the
    /// caller to write out whole. Last recording wins.
    pub fn stop_recording(&mut self) -> (data: Vec<u8>)
        ensures
            final(self)@ == stop_recording_spec(old(self)@),
            data@ == encode_log(old(self)@.log),
    {
        self.recording = false;
        serialize(&self.log)
    }

    /// Whether a play command may proceed: never while recording, so the
    /// caller reads the persisted file and simulates input only when this
    /// says so.
    pub fn can_play(&self) -> (r: bool)
        ensures
            r == !self@.recording,
    {
        !self.recording
    }

    /// Whether clicks are currently being recorded.
    pub fn is_recording(&self) -> (r: bool)
        ensures
            r == self@.recording,
    {
        self.recording
    }
}

/// Whether a polled command demands cancelling playback: only an exit does;
/// every other command arriving mid-playback is dropped.
pub fn wants_exit(cmd: &AppCommand) -> (r: bool)
    ensures
        r == (*cmd is Exit),
{
    match cmd {
        AppCommand::Exit => true,
        _ => false,
    }
}

/// Wait omission: per register-click command taken while recording, exactly
/// one wait is appended when the elapsed time is positive and none when it
/// is zero, followed by exactly one click; what was recorded before stays.
pub proof fn lemma_wait_omission(s: SessionView, elapsed_ms: i32, x: i32, y: i32)
    requires
        s.recording,
        elapsed_ms >= 0,
    ensures
        elapsed_ms > 0 ==> register_click_spec(s, elapsed_ms, x, y).log == s.log + seq![
            ClickEvent::Wait(elapsed_ms),
            ClickEvent::Click(x, y),
        ],
        elapsed_ms == 0 ==> register_click_spec(s, elapsed_ms, x, y).log == s.log.push(
            ClickEvent::Click(x, y),
        ),
        register_click_spec(s, elapsed_ms, x, y).log.len() == s.log.len() + (
        if elapsed_ms > 0 {
            2int
        } else {
            1int
        }),
        register_click_spec(s, elapsed_ms, x, y).log.subrange(0, s.log.len() as int) == s.log,
        register_click_spec(s, elapsed_ms, x, y).log.last() == ClickEvent::Click(x, y),
{
    let after = register_click_spec(s, elapsed_ms, x, y).log;
    assert(after.subrange(0, s.log.len() as int) =~= s.log);
}

/// State exclusivity: a register-click command issued while not recording
/// never changes the session, its log included.
pub proof fn lemma_register_click_idle(s: SessionView, elapsed_ms: i32, x: i32, y: i32)
    requires
        !s.recording,
    ensures
        register_click_spec(s, elapsed_ms, x, y) == s,
{
}

/// Idempotent reset: two consecutive start commands with no clicks between
/// them come to the same state as one, with an empty log at the second.
pub proof fn lemma_start_recording_idempotent(s: SessionView)
    ensures
        start_recording_spec(start_recording_spec(s)) == start_recording_spec(s),
        start_recording_spec(start_recording_spec(s)).log == Seq::<ClickEvent>::empty(),
{
}

/// One run of register-click commands, each with its elapsed time and
/// pointer position, taken in order.
pub open spec fn register_all_spec(s: SessionView, calls: Seq<(i32, i32, i32)>) -> SessionView
    decreases calls.len(),
{
    if calls.len() == 0 {
        s
    } else {
        register_all_spec(
            register_click_spec(s, calls[0].0, calls[0].1, calls[0].2),
            calls.drop_first(),
        )
    }
}

/// Everything such a run appends, call by call and in call order.
pub open spec fn suffixes_of(calls: Seq<(i32, i32, i32)>) -> Seq<ClickEvent>
    decreases calls.len(),
{
    if calls.len() == 0 {
        Seq::empty()
    } else {
        click_suffix(calls[0].0, calls[0].1, calls[0].2) + suffixes_of(calls.drop_first())
    }
}

/// How many clicks a sequence of events holds.
pub open spec fn click_count(s: Seq<ClickEvent>) -> nat
    decreases s.len(),
{
    if s.len() == 0 {
        0
    } else {
        (if s[0] is Click {
            1nat
        } else {
            0nat
        }) + click_count(s.drop_first())
    }
}

proof fn lemma_click_count_concat(a: Seq<ClickEvent>, b: Seq<ClickEvent>)
    ensures
        click_count(a + b) == click_count(a) + click_count(b),
    decreases a.len(),
{
    if a.len() == 0 {
        assert(a + b =~= b);
    } else {
        assert((a + b).drop_first() =~= a.drop_first() + b);
        lemma_click_count_concat(a.drop_first(), b);
    }
}

proof fn lemma_suffix_click_count(calls: Seq<(i32, i32, i32)>)
    ensures
        click_count(suffixes_of(calls)) == calls.len(),
    decreases calls.len(),
{
    if calls.len() > 0 {
        let suffix = click_suffix(calls[0].0, calls[0].1, calls[0].2);
        lemma_click_count_concat(suffix, suffixes_of(calls.drop_first()));
        lemma_suffix_click_count(calls.drop_first());
        let c = ClickEvent::Click(calls[0].1, calls[0].2);
        let single = seq![c];
        assert(single.len() == 1);
        assert(single[0] == c);
        assert(single.drop_first() =~= Seq::<ClickEvent>::empty());
        assert(click_count(Seq::<ClickEvent>::empty()) == 0);
        assert(click_count(single) == 1);
        if calls[0].0 > 0 {
            assert(suffix[0] == ClickEvent::Wait(calls[0].0));
            assert(suffix.drop_first() =~= single);
        } else {
            assert(suffix =~= single);
        }
        assert(click_count(suffix) == 1);
    }
}

/// Wait omission over whole runs: while recording, any sequence of
/// register-click commands appends — per call, in call order — one wait
/// exactly when that call's elapsed time is positive and exactly one click,
/// so the log gains exactly one click per call; recording stays on.
pub proof fn lemma_register_run(s: SessionView, calls: Seq<(i32, i32, i32)>)
    requires
        s.recording,
    ensures
        register_all_spec(s, calls).recording,
        register_all_spec(s, calls).log == s.log + suffixes_of(calls),
        click_count(register_all_spec(s, calls).log) == click_count(s.log) + calls.len(),
    decreases calls.len(),
{
    if calls.len() == 0 {
        assert(s.log + Seq::<ClickEvent>::empty() =~= s.log);
    } else {
        let suffix = click_suffix(calls[0].0, calls[0].1, calls[0].2);
        let s1 = register_click_spec(s, calls[0].0, calls[0].1, calls[0].2);
        lemma_register_run(s1, calls.drop_first());
        assert((s.log + suffix) + suffixes_of(calls.drop_first()) =~= s.log + suffixes_of(calls));
    }
    lemma_click_count_concat(s.log, suffixes_of(calls));
    lemma_suffix_click_count(calls);
}

} // verus!
