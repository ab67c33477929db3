//! Warnings about input that is dropped. A warning never stops the work.

use crate::text::{decimal, push_decimal};
use vstd::prelude::*;
use vstd::string::*;

verus! {

/// A warning about one dock of the input that is left out of consideration.
#[derive(Debug, Clone, Copy, PartialEq, Eq, Structural)]
pub enum Warning {
    /// An exception group lists a dock outside the range `min ..= max`.
    ExceptionOutOfRange { dock: u32, min: u32, max: u32 },
    /// An exception group lists a dock that an earlier exception group has.
    AlreadyClaimed { dock: u32 },
    /// The first-priority docks hold a dock outside the range `min ..= max`.
    FirstPriorityOutOfRange { dock: u32, min: u32, max: u32 },
    /// The second-priority docks hold a dock outside the range `min ..= max`.
    SecondPriorityOutOfRange { dock: u32, min: u32, max: u32 },
}

/// The text of a warning about a dock outside the range; `lead` names the
/// kind of dock.
pub open spec fn out_of_range_text(lead: Seq<char>, dock: u32, min: u32, max: u32) -> Seq<char> {
    lead + decimal(dock as nat) + " is outside the specified range ["@ + decimal(min as nat)
        + "-"@ + decimal(max as nat) + "] and will be ignored."@
}

/// Writes the warning about a dock outside the range.
fn out_of_range_message(lead: &str, dock: u32, min: u32, max: u32) -> (m: String)
    ensures
        m@ == out_of_range_text(lead@, dock, min, max),
{
    let mut m = String::from_str(lead);
    push_decimal(&mut m, dock);
    m.append(" is outside the specified range [");
    push_decimal(&mut m, min);
    m.append("-");
    push_decimal(&mut m, max);
    m.append("] and will be ignored.");
    m
}

impl Warning {
    /// The text of the warning.
    pub open spec fn text(self) -> Seq<char> {
        match self {
            Warning::ExceptionOutOfRange { dock, min, max } => out_of_range_text(
                "Warning: Exception dock "@,
                dock,
                min,
                max,
            ),
            Warning::AlreadyClaimed { dock } => "Warning: Dock "@ + decimal(dock as nat)
                + " in exception group already part of another exception group. Ignoring."@,
            Warning::FirstPriorityOutOfRange { dock, min, max } => out_of_range_text(
                "Warning: First priority dock "@,
                dock,
                min,
                max,
            ),
            Warning::SecondPriorityOutOfRange { dock, min, max } => out_of_range_text(
                "Warning: Second priority dock "@,
                dock,
                min,
                max,
            ),
        }
    }

    /// Writes the text of the warning.
    pub fn message(&self) -> (m: String)
        ensures
            m@ == self.text(),
    {
        match *self {
            Warning::ExceptionOutOfRange { dock, min, max } => out_of_range_message(
                "Warning: Exception dock ",
                dock,
                min,
                max,
            ),
            Warning::AlreadyClaimed { dock } => {
                let mut m = String::from_str("Warning: Dock ");
                push_decimal(&mut m, dock);
                m.append(" in exception group already part of another exception group. Ignoring.");
                m
            },
            Warning::FirstPriorityOutOfRange { dock, min, max } => out_of_range_message(
                "Warning: First priority dock ",
                dock,
                min,
                max,
            ),
            Warning::SecondPriorityOutOfRange { dock, min, max } => out_of_range_message(
                "Warning: Second priority dock ",
                dock,
                min,
                max,
            ),
        }
    }
}

} // verus!
