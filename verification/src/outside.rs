//! The crate's trusted boundary: the few calls whose behaviour Verus
//! believes without proof, each one a thin veneer over one outside function.

use vstd::prelude::*;

verus! {

/// The decimal human-readable rendering of a byte count. The rendering
/// depends on the count alone; its exact text is left unnamed.
pub uninterp spec fn human_size_of(n: u64) -> Seq<char>;

/// Relies on `humansize::format_size` with the `DECIMAL` options: a pure
/// rendering of the byte count, the same text for the same count.
#[verifier::external_body]
pub fn format_size(size: u64) -> (r: String)
    ensures
        r@ == human_size_of(size),
{
    humansize::format_size(size, humansize::DECIMAL)
}

/// Relies on `chrono::DateTime::<Utc>::from(SystemTime)` and
/// `DateTime::timestamp`: the wall clock as whole seconds since the Unix
/// epoch; the conversion handles a clock set before the epoch. Nothing is
/// promised of the value.
#[verifier::external_body]
pub(crate) fn now_seconds() -> i64 {
    chrono::DateTime::<chrono::Utc>::from(std::time::SystemTime::now()).timestamp()
}

/// Relies on `String::push`: appends the given character at the end.
pub assume_specification[ String::push ](s: &mut String, c: char)
    ensures
        final(s)@ == old(s)@.push(c),
;

} // verus!
