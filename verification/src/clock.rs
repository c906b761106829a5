use vstd::prelude::*;

verus! {

/// `std::time::Instant`: a moment in time, of which nothing is known.
#[verifier::external_type_specification]
#[verifier::external_body]
pub struct ExInstant(std::time::Instant);

/// `Instant::now`: the present moment. Nothing is claimed of it.
pub assume_specification[ std::time::Instant::now ]() -> std::time::Instant;

/// `Instant::elapsed`: the time that has passed since the moment. Nothing
/// is claimed of it.
pub assume_specification[ std::time::Instant::elapsed ](
    start: &std::time::Instant,
) -> std::time::Duration;

/// `Duration::as_nanos`: the length of the time in nanoseconds. Nothing is
/// claimed of the number.
pub assume_specification[ std::time::Duration::as_nanos ](time: &std::time::Duration) -> u128;

/// Whether a time that has passed is more than the time allowed, both in
/// nanoseconds. A time that is just the time allowed is not.
pub fn past_limit(elapsed: u128, limit: u128) -> (past: bool)
    ensures
        past == (elapsed > limit),
{
    elapsed > limit
}

/// Whether the time allowed has run out: whether more nanoseconds than the
/// limit have passed since the start. Without a deadline it never has.
pub fn out_of_time(deadline: &Option<(std::time::Instant, u128)>) -> (out: bool)
    ensures
        deadline is None ==> !out,
{
    match deadline {
        None => false,
        Some((start, limit)) => past_limit(start.elapsed().as_nanos(), *limit),
    }
}

} // verus!
