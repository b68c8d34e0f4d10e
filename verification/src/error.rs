//! What can go wrong while an index is built or opened.

use crate::automaton::{error_display, error_text};
use vstd::prelude::*;
use vstd::string::StringExecFns;

verus! {

/// Errors occurring while building a set or a map.
#[derive(Debug)]
pub enum BuildError {
    /// The bytes are not an automaton that this version can open. The
    /// automaton's own error is kept where it raised one: there is none
    /// where the footer holds an address that this target does not have.
    Format(Option<fst::Error>),
    /// A key did not come strictly after the one before it, or the builder
    /// had failed before. The automaton's own error is kept where it raised
    /// one.
    OrderViolation(Option<fst::Error>),
    /// The sink did not take what was written.
    Write(fst::Error),
}

impl BuildError {
    /// The error of the automaton that caused this one, if any.
    pub open spec fn cause(&self) -> Option<fst::Error> {
        match *self {
            BuildError::Format(cause) => cause,
            BuildError::OrderViolation(cause) => cause,
            BuildError::Write(e) => Some(e),
        }
    }

    /// The description of the error: under a heading what the automaton's
    /// error displays of itself, or the library's own words where there is
    /// none.
    pub open spec fn text(&self) -> Seq<char> {
        match self.cause() {
            Some(e) => "FST error: "@ + error_display(e),
            None => match *self {
                BuildError::Format(_) => "FST error: address out of range"@,
                _ => "builder has failed"@,
            },
        }
    }

    /// The error of the automaton that caused this one, if any.
    pub fn source(&self) -> (cause: Option<&fst::Error>)
        ensures
            match cause {
                Some(e) => self.cause() == Some(*e),
                None => self.cause() is None,
            },
    {
        match self {
            BuildError::Format(Some(e)) => Some(e),
            BuildError::Format(None) => None,
            BuildError::OrderViolation(Some(e)) => Some(e),
            BuildError::OrderViolation(None) => None,
            BuildError::Write(e) => Some(e),
        }
    }

    /// A description of the error, never empty.
    pub fn message(&self) -> (text: String)
        ensures
            text@ == self.text(),
            text@.len() > 0,
    {
        proof {
            reveal_strlit("FST error: ");
            reveal_strlit("FST error: address out of range");
            reveal_strlit("builder has failed");
        }
        match self.source() {
            Some(e) => {
                let display = error_text(e);
                "FST error: ".to_string().concat(display.as_str())
            },
            None => match self {
                BuildError::Format(_) => "FST error: address out of range".to_string(),
                _ => "builder has failed".to_string(),
            },
        }
    }
}

} // verus!
