//! Focus traversal events exchanged with the host.

use vstd::prelude::*;

verus! {

/// Raised when focus enters a registered element, so that the host can
/// align its focus ring.
#[derive(Clone, Copy, Debug)]
pub struct EnterFocusEvent {}

} // verus!
