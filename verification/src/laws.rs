//! What the operations promise, in numbers and words of their own: each law takes an
//! operation's inputs and what the operation made of them, and says what must hold
//! between the two.

use vstd::prelude::*;

pub mod axis;
pub mod drawing;
pub mod panel;
pub mod recording;
pub mod session;
pub mod sweep;
pub mod tuning;
pub mod window;

verus! {

/// How far apart two numbers are.
pub open spec fn away(a: int, b: int) -> int {
    if a < b {
        b - a
    } else {
        a - b
    }
}

} // verus!
