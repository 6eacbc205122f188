use vstd::prelude::*;

verus! {

/// An error of the memory palace, with its message.
pub struct MemPalaceError(pub String);

impl MemPalaceError {
    /// The message of the error, as it is displayed.
    pub fn message(&self) -> (r: String)
        ensures
            r@ == self.0@,
    {
        self.0.clone()
    }
}

} // verus!
