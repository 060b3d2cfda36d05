//! The greeting command: pure string formatting around a caller-supplied name.

use vstd::prelude::*;
use vstd::string::StringExecFns;

verus! {

/// The fixed greeting template with the given name embedded verbatim.
pub open spec fn greeting_of(name: Seq<char>) -> Seq<char> {
    "Hello, "@ + name + "! You've been greeted from Rust!"@
}

/// Builds the greeting for `name`.  No validation, no failure.
pub fn greet(name: &str) -> (r: String)
    ensures
        r@ == greeting_of(name@),
{
    let prefix: String = "Hello, ".to_owned();
    let with_name: String = prefix.concat(name);
    with_name.concat("! You've been greeted from Rust!")
}

} // verus!
