//! What can refuse, and which step refused.

use vstd::prelude::*;

verus! {

/// Why a copier could not be made, or could not copy.
///
/// Every variant names the step, because the steps fail for unrelated reasons on unrelated
/// machines and a caller's log line is the only place that difference is ever seen.
#[derive(Debug)]
pub enum Error {
    /// A library could not be opened at run time.
    Library {
        /// What was looked for.
        soname: &'static str,
        /// What the loader said.
        reason: String,
    },
    /// A symbol that is called is missing from a library that did open.
    Symbol {
        /// The name that did not resolve.
        name: &'static str,
    },
    /// The driver refused a step, and this is which one.
    Driver {
        /// What was being attempted, in words a log line can carry.
        step: &'static str,
        /// What the driver said, where it said anything.
        reason: String,
    },
    /// The device offers no way to copy a rectangle between two textures.
    ///
    /// The ways are tried in turn, so this means a driver with none of them.
    NoCopy,
}

impl Error {
    /// What a log line says of it.
    pub open spec fn said(self) -> Seq<char> {
        match self {
            Error::Library { soname, reason } => soname@ + " would not open: "@ + reason@,
            Error::Symbol { name } => "the library has no "@ + name@,
            Error::Driver { step, reason } => step@ + ": "@ + reason@,
            Error::NoCopy =>
                "this device can copy no rectangle between two textures, by any of the three ways this crate knows"@,
        }
    }

    /// Whether it is the refusal of a step, for a reason.
    pub open spec fn refuses(self, step: Seq<char>, reason: Seq<char>) -> bool {
        self matches Error::Driver { step: s, reason: why } && s@ == step && why@ == reason
    }

    /// What a log line says of it.
    pub fn message(&self) -> (r: String)
        ensures
            r@ == self.said(),
    {
        match self {
            Error::Library { soname, reason } => {
                let mut message = String::from_str(soname);
                message.append(" would not open: ");
                message.append(reason.as_str());
                message
            },
            Error::Symbol { name } => {
                let mut message = String::from_str("the library has no ");
                message.append(name);
                message
            },
            Error::Driver { step, reason } => {
                let mut message = String::from_str(step);
                message.append(": ");
                message.append(reason.as_str());
                message
            },
            Error::NoCopy => String::from_str(
                "this device can copy no rectangle between two textures, by any of the three ways this crate knows",
            ),
        }
    }
}

} // verus!
