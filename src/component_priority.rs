//! Reserved priority bands. Components with a lower priority run their hooks
//! first: input handling, then transforms, then gameplay, then rendering.
use vstd::prelude::*;

verus! {

/// Input-class components: bindings are refreshed before anything reads them.
pub const INPUT: i32 = -150;

/// Transform-class components: settled before gameplay and rendering.
pub const TRANSFORM: i32 = -100;

/// Unclassified components.
pub const DEFAULT: i32 = 0;

/// Components that produce draw requests.
pub const RENDER: i32 = 100;

} // verus!
