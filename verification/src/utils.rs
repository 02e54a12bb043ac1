use vstd::prelude::*;

verus! {

/// Error reported when the execution backend cannot determine the host
/// machine's instruction-set capabilities. It carries the backend's own
/// description of the problem.
#[derive(Debug, Clone, Copy)]
pub struct UnsupportedMachineError<'a>(pub &'a str);

impl<'a> UnsupportedMachineError<'a> {
    /// The human-readable description carried by this error.
    pub fn message(&self) -> (r: String)
        ensures
            r@ == self.0@,
    {
        self.0.to_owned()
    }
}

} // verus!
