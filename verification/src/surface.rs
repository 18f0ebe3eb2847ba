//! Whether a control surface may drive the decks, which depends on the mode the
//! app is in.

use vstd::prelude::*;

verus! {

/// The app's modes. Outside performance the session scheduler owns the strips.
#[derive(Clone, Copy, Debug, PartialEq, Eq, Structural)]
pub enum AppMode {
    Performance,
    Edit,
    Session,
}

/// Whether a surface's messages may move the decks.
pub struct SurfaceControl {
    allowed: bool,
}

impl View for SurfaceControl {
    type V = bool;

    closed spec fn view(&self) -> bool {
        self.allowed
    }
}

impl Default for SurfaceControl {
    /// The app starts in performance mode, and the frontend only pushes a mode on a change.
    fn default() -> (control: SurfaceControl)
        ensures
            control@,
    {
        let mut control = SurfaceControl { allowed: false };
        control.allow(AppMode::Performance);
        control
    }
}

impl SurfaceControl {
    /// Only performance mode lets a surface drive the decks.
    pub fn allow(&mut self, mode: AppMode)
        ensures
            final(self)@ == (mode == AppMode::Performance),
    {
        self.allowed = mode == AppMode::Performance;
    }

    pub fn allowed(&self) -> (allowed: bool)
        ensures
            allowed == self@,
    {
        self.allowed
    }
}

} // verus!
