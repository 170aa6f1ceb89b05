use vstd::prelude::*;

verus! {

/// The terminal settings to bring back when the view closes. Nothing needs
/// recording: bringing them back always restores the same defaults.
#[derive(Clone, Copy, Debug, PartialEq, Eq, Structural)]
pub struct TerminalState {}

impl TerminalState {
    /// Records the current terminal settings.
    pub fn save() -> (r: TerminalState)
        ensures
            r == (TerminalState {}),
    {
        TerminalState {}
    }
}

/// Receives progress messages of a running comparison.
pub trait ProgressCallback {
    fn update(&self, message: &str);
}

} // verus!
