//! A small helper to time parts of the code.
use vstd::prelude::*;

verus! {

#[verifier::external_type_specification]
#[verifier::external_body]
pub struct ExInstant(std::time::Instant);

/// Relies on `std::time::Instant::now`: an opaque reading of the
/// monotonic clock; nothing is promised of its value.
pub assume_specification[ std::time::Instant::now ]() -> std::time::Instant;

/// Helper to time various parts of the code, holding the instant it was
/// started and a name for reporting.
pub struct Stopwatch {
    pub start: std::time::Instant,
    pub name: &'static str,
}

impl Stopwatch {
    pub fn new(name: &'static str) -> (r: Stopwatch)
        ensures
            r.name@ == name@,
    {
        Stopwatch { name, start: std::time::Instant::now() }
    }

    /// Time a closure, returning its result.
    pub fn time<T, F: FnOnce() -> T>(name: &'static str, func: F) -> (r: T)
        requires
            func.requires(()),
        ensures
            func.ensures((), r),
    {
        let sw = Self::new(name);
        let r = func();
        let _ = sw;
        r
    }
}

} // verus!
