//! The greeting offered to a script host.
use vstd::prelude::*;
use vstd::string::StringExecFns;

verus! {

/// `Hello, <name>!`
pub fn greet(name: String) -> (r: String)
    ensures
        r@ == "Hello, "@ + name@ + "!"@,
{
    let mut r = String::from_str("Hello, ");
    r.append(name.as_str());
    r.append("!");
    r
}

} // verus!
