//! The push button that switches the indicator.

use vstd::prelude::*;

verus! {

/// The level to drive the indicator's pin to.
#[derive(Clone, Copy, Debug, PartialEq, Eq, Structural)]
pub enum Level {
    Low,
    High,
}

/// What the button's task keeps between its invocations: whether the button
/// has switched the indicator on.
#[derive(Clone, Copy, Debug, PartialEq, Eq, Structural)]
pub struct ButtonToggle {
    toggled_to: bool,
}

impl View for ButtonToggle {
    type V = bool;

    closed spec fn view(&self) -> bool {
        self.toggled_to
    }
}

impl ButtonToggle {
    /// The state before the first press: the indicator is off.
    pub fn new() -> (toggle: ButtonToggle)
        ensures
            toggle@ == false,
    {
        ButtonToggle { toggled_to: false }
    }

    /// Whether the button has switched the indicator on.
    pub fn is_on(&self) -> (on: bool)
        ensures
            on == self@,
    {
        self.toggled_to
    }

    /// The level that shows the state on the indicator.
    pub open spec fn spec_level(on: bool) -> Level {
        if on {
            Level::High
        } else {
            Level::Low
        }
    }

    /// One invocation of the button's task. If the button's event is
    /// pending, the state flips and the indicator is to be driven to the
    /// level that shows it; otherwise nothing happens.
    pub fn on_event(&mut self, triggered: bool) -> (drive: Option<Level>)
        ensures
            triggered ==> final(self)@ == !old(self)@ && drive == Some(
                Self::spec_level(final(self)@),
            ),
            !triggered ==> final(self)@ == old(self)@ && drive.is_none(),
    {
        if triggered {
            self.toggled_to = !self.toggled_to;
            if self.toggled_to {
                Some(Level::High)
            } else {
                Some(Level::Low)
            }
        } else {
            None
        }
    }
}

} // verus!
