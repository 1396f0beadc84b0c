//! The kinds of machine that file layouts differ between.

use vstd::prelude::*;

verus! {

/// The family of the operating system.
#[derive(Debug, Clone, Copy, PartialEq, Eq, Structural)]
pub enum Host {
    Unix,
    Windows,
    Other,
}

} // verus!
