//! The one-shot headless capture sequence: let the scene settle, optionally
//! enter run mode and tick the demo, take a screenshot, and exit once the
//! screenshot is on disk. The sequence decides; the host performs the
//! actions it asks for and reports whether a capture is in flight.

use vstd::prelude::*;

verus! {

/// Where the capture sequence stands.
#[derive(Clone, Copy, PartialEq, Eq, Debug, Structural)]
pub enum Phase {
    /// Let the first frames' layout and the starter board settle.
    Settle,
    /// Force one tick per frame so the demos light up.
    Tick,
    /// Screenshot requested; `started` once the capture was seen in flight.
    Flush { started: bool },
}

/// What the host should do this frame.
#[derive(Clone, Copy, PartialEq, Eq, Debug, Structural)]
pub enum CaptureAction {
    /// Nothing.
    Wait,
    /// Switch the editor into run mode.
    EnterRun,
    /// Request exactly one simulation tick.
    Step,
    /// Take a screenshot of the primary window to the capture path.
    Shoot,
    /// The file is on disk: quit.
    Exit,
}

/// Drives the capture sequence across frames.
pub struct Capture {
    /// Where to write the screenshot.
    pub path: String,
    /// Whether to enter run mode and tick before shooting.
    pub run: bool,
    /// Frames left in the current phase.
    pub frames: u32,
    /// Current phase.
    pub phase: Phase,
}

/// The sequence after one frame, and the action that frame asks for, given
/// whether a capture is in flight.
pub open spec fn capture_step(run: bool, frames: u32, phase: Phase, capturing: bool) -> (u32, Phase, CaptureAction) {
    match phase {
        Phase::Settle => if frames > 0 {
            ((frames - 1) as u32, Phase::Settle, CaptureAction::Wait)
        } else if run {
            (24, Phase::Tick, CaptureAction::EnterRun)
        } else {
            (frames, Phase::Flush { started: false }, CaptureAction::Shoot)
        },
        Phase::Tick => if frames > 0 {
            ((frames - 1) as u32, Phase::Tick, CaptureAction::Step)
        } else {
            (frames, Phase::Flush { started: false }, CaptureAction::Shoot)
        },
        Phase::Flush { started } => if capturing {
            (frames, Phase::Flush { started: true }, CaptureAction::Wait)
        } else if started {
            (frames, phase, CaptureAction::Exit)
        } else {
            (frames, phase, CaptureAction::Wait)
        },
    }
}

impl Capture {
    /// A fresh sequence: settle for 16 frames first.
    pub fn new(path: String, run: bool) -> (c: Capture)
        ensures
            c.path == path,
            c.run == run,
            c.frames == 16,
            c.phase == Phase::Settle,
    {
        Capture { path, run, frames: 16, phase: Phase::Settle }
    }

    /// Advance one frame: settle, optionally run and tick, shoot, and ask to
    /// exit once the capture that was seen in flight has finished.
    pub fn step(&mut self, capturing: bool) -> (a: CaptureAction)
        ensures
            (final(self).frames, final(self).phase, a) == capture_step(old(self).run, old(self).frames, old(self).phase, capturing),
            final(self).run == old(self).run,
            final(self).path == old(self).path,
    {
        match self.phase {
            Phase::Settle => {
                if self.frames > 0 {
                    self.frames -= 1;
                    CaptureAction::Wait
                } else if self.run {
                    self.phase = Phase::Tick;
                    self.frames = 24;
                    CaptureAction::EnterRun
                } else {
                    self.phase = Phase::Flush { started: false };
                    CaptureAction::Shoot
                }
            },
            Phase::Tick => {
                if self.frames > 0 {
                    self.frames -= 1;
                    CaptureAction::Step
                } else {
                    self.phase = Phase::Flush { started: false };
                    CaptureAction::Shoot
                }
            },
            Phase::Flush { started } => {
                if capturing {
                    self.phase = Phase::Flush { started: true };
                    CaptureAction::Wait
                } else if started {
                    CaptureAction::Exit
                } else {
                    CaptureAction::Wait
                }
            },
        }
    }
}

/// The sequence asks to exit only once the screenshot it requested was seen
/// in flight and has finished: from a phase that has not seen it, never.
pub proof fn lemma_exit_after_flush(run: bool, frames: u32, phase: Phase, capturing: bool)
    ensures
        capture_step(run, frames, phase, capturing).2 == CaptureAction::Exit ==> phase == (Phase::Flush { started: true })
            && !capturing,
        capture_step(run, frames, phase, capturing).2 == CaptureAction::Shoot ==> !(phase is Flush),
{
}

} // verus!
