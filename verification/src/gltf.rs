use vstd::prelude::*;

verus! {

/// Why a glTF scene could not be loaded.
#[derive(Debug)]
pub enum Error {
    UnknownError,
}

} // verus!
