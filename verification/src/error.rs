use vstd::prelude::*;

verus! {

/// Error carried by every fallible operation of this crate: a failure
/// of the embedded store or of configuration handling, reported as a
/// plain message.
#[derive(Debug)]
pub struct CyxError {
    pub message: String,
}

impl CyxError {
    pub fn new(message: String) -> (r: CyxError)
        ensures
            r.message == message,
    {
        CyxError { message }
    }

    pub fn message(&self) -> (r: &String)
        ensures
            r == &self.message,
    {
        &self.message
    }
}

} // verus!
