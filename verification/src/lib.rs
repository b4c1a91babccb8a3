//! A hotkey-driven macro recorder and player: the recording/playback state
//! machine, the event log it builds, and the persisted byte format, all with
//! proved contracts. Hotkey capture, pointer simulation and file access stay
//! outside, handing plain values in and taking plain values out.

/// The persisted byte format and the verified encoder.
pub mod codec;
/// Click and wait events, and the recorded path of them.
pub mod event;
/// The verified reader of the persisted byte format.
pub mod parser;
/// The playback pass: its transition, stepper, fidelity and cancellation.
pub mod playback;
/// What was encoded decodes back to itself.
pub mod roundtrip;
/// The session: commands, recording state, and its laws.
pub mod session;
