//! Well-known request kinds. The field is a plain string so that a team can
//! invent its own protocol, but these have behaviour attached.

use vstd::prelude::*;

verus! {

/// "Hand me that lease." Accepting performs the transfer.
pub const LEASE_TRANSFER: &'static str = "lease-transfer";

/// "I need this interface to exist before I can continue."
pub const INTERFACE: &'static str = "interface";

/// "I am blocked until that task is done." Fulfilled by the task's completion.
pub const DEPENDENCY: &'static str = "dependency";

/// "Please look at this."
pub const REVIEW: &'static str = "review";

/// "This changed and your active work may depend on it."
pub const API_CHANGE: &'static str = "api-change";

/// Anything else.
pub const QUESTION: &'static str = "question";

} // verus!
