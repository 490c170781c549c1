//! What the program calls itself.
use vstd::prelude::*;
use crate::text::{chars_of, string_of};

verus! {

/// The release version.
pub const VERSION: &'static str = "0.1.0";

/// The human-facing version string: "TermKrush v" and the version.
pub fn version_banner() -> (r: String)
    ensures
        r@ == "TermKrush v"@ + VERSION@,
{
    let mut out = chars_of("TermKrush v");
    let mut v = chars_of(VERSION);
    out.append(&mut v);
    string_of(out.as_slice())
}

} // verus!
