//! The error that reading or writing tables can end in.

use vstd::prelude::*;

verus! {

/// Why a table could not be read or written.
#[derive(Debug)]
pub struct StorageError {
    pub message: String,
}

impl View for StorageError {
    type V = Seq<char>;

    /// The message.
    open spec fn view(&self) -> Seq<char> {
        self.message@
    }
}

} // verus!
