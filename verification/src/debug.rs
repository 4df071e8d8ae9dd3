//! The switch of the debug log.

use vstd::prelude::*;

verus! {

/// Whether debug lines are written.
#[derive(Debug, Clone, Copy, PartialEq, Eq, Structural)]
pub struct DebugSwitch {
    pub on: bool,
}

impl DebugSwitch {
    /// A switch that is off.
    pub fn new() -> (r: DebugSwitch)
        ensures
            !r.on,
    {
        DebugSwitch { on: false }
    }

    /// Turns the switch on or off.
    pub fn set_debug(&mut self, on: bool)
        ensures
            final(self).on == on,
    {
        self.on = on;
    }

    /// Whether the switch is on.
    pub fn enabled(&self) -> (r: bool)
        ensures
            r == self.on,
    {
        self.on
    }

    /// The line to write for a message of a module, if any.
    pub fn line(&self, module: &str, message: &str) -> (r: Option<String>)
        ensures
            match r {
                Some(s) => self.on && s@ == "[debug]["@ + module@ + "] "@ + message@,
                None => !self.on,
            },
    {
        if !self.on {
            return None;
        }
        let mut out = "[debug][".to_owned();
        out.append(module);
        out.append("] ");
        out.append(message);
        Some(out)
    }
}

} // verus!
