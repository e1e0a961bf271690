//! The command-line surface. Parsing arguments, printing and storage live
//! outside the library; only the constructor is logic of its own.

use vstd::prelude::*;

use crate::errors::Error;

verus! {

/// The command-line front end.
pub struct Cli {}

impl Cli {
    /// A fresh front end.
    pub fn new() -> (r: Result<Cli, Error>)
        ensures
            r is Ok,
    {
        Ok(Cli {  })
    }
}

} // verus!
