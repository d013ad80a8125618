//! A virtual-DOM core: a declarative tree model, a diff engine with a skip-diff
//! overlay, the patches it produces, and a realized tree that applies them.
use vstd::prelude::*;

pub mod tree_path;
pub mod skip_diff;
pub mod vdom;
pub mod patch;
pub mod diff;
pub mod dom_node;
pub mod server_context;
pub mod equivalence;

verus! {

/// The string to hand to the presentation layer for `s`; without interning it is `s`
/// itself.
pub fn intern(s: &str) -> (r: &str)
    ensures
        r@ == s@,
{
    s
}

} // verus!
