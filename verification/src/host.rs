//! The name under which this machine is known.

use vstd::prelude::*;
use vstd::string::StringExecFns;

verus! {

/// Asks the operating system for the host name by calling `hostname::get`.
///
/// Nothing is claimed of the answer: it depends on the machine. `None`
/// stands for a lookup that failed, or for a name that is not Unicode text.
#[verifier::external_body]
fn system_host_name() -> Option<String> {
    match hostname::get() {
        Ok(name) => name.into_string().ok(),
        Err(_) => None,
    }
}

/// The host name to use once the lookup has answered: the name that was
/// found, or `localhost` where none was.
pub fn host_name_or_default(found: Option<String>) -> (name: String)
    ensures
        name@ == match found {
            Some(n) => n@,
            None => "localhost"@,
        },
{
    match found {
        Some(n) => n,
        None => String::from_str("localhost"),
    }
}

/// This machine's host name, or `localhost` where the system does not tell.
pub fn hostname() -> (name: String) {
    host_name_or_default(system_host_name())
}

} // verus!
