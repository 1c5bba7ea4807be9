//! Uninstall decisions: which binaries count as development builds and what
//! the binary is called. Removing files and services is the caller's work.

use vstd::prelude::*;
use vstd::string::StringSliceAdditionalSpecFns;

use crate::text::{bytes_of, contains_bytes, contains_sub};

verus! {

/// The installed binary's name on Unix-like systems.
pub fn bin_name() -> (r: &'static str)
    ensures
        r@ == "lightclaw"@,
{
    "lightclaw"
}

/// A path under a build tree: deleting it would destroy a development
/// build, so automatic removal skips it.
pub open spec fn dev_binary_spec(s: Seq<u8>) -> bool {
    ||| contains_bytes(s, "/target/debug/".spec_bytes())
    ||| contains_bytes(s, "/target/release/".spec_bytes())
    ||| contains_bytes(s, "\\target\\debug\\".spec_bytes())
    ||| contains_bytes(s, "\\target\\release\\".spec_bytes())
}

/// Does this path point into a build tree?
pub fn is_dev_binary(path: &str) -> (r: bool)
    ensures
        r == dev_binary_spec(path.spec_bytes()),
{
    let b = bytes_of(path);
    contains_sub(b.as_slice(), bytes_of("/target/debug/").as_slice()) || contains_sub(
        b.as_slice(),
        bytes_of("/target/release/").as_slice(),
    ) || contains_sub(b.as_slice(), bytes_of("\\target\\debug\\").as_slice()) || contains_sub(
        b.as_slice(),
        bytes_of("\\target\\release\\").as_slice(),
    )
}

} // verus!
