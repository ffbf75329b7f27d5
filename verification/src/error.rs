//! Errors.

use vstd::prelude::*;

verus! {

/// What can go wrong: a configuration that does not fit, or a run that was stopped.
pub enum MoEError {
    Config(String),
    Metal(String),
}

} // verus!
