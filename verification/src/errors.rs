//! The errors that the library reports.

use vstd::prelude::*;

verus! {

/// What can go wrong outside a job.
#[derive(Debug)]
pub enum MyErrors {
    /// The configuration could not be read as one.
    ConfigErr(String),
    /// A file could not be read or written.
    IoErr(String),
    /// The configuration asks for what this host cannot give.
    InvalidConfig(String),
}

impl MyErrors {
    /// The text that the error carries.
    pub open spec fn text(self) -> Seq<char> {
        match self {
            MyErrors::ConfigErr(m) => m@,
            MyErrors::IoErr(m) => m@,
            MyErrors::InvalidConfig(m) => m@,
        }
    }

    /// The text that the error carries.
    pub fn message(&self) -> (r: &str)
        ensures
            r@ == self.text(),
    {
        match self {
            MyErrors::ConfigErr(m) => m.as_str(),
            MyErrors::IoErr(m) => m.as_str(),
            MyErrors::InvalidConfig(m) => m.as_str(),
        }
    }
}

} // verus!
