use vstd::prelude::*;

verus! {

pub const NANOS_PER_SEC: u64 = 1_000_000_000;

/// Nanoseconds since the epoch for a clock reading of `secs` whole seconds and
/// `nanos` more.
pub open spec fn nanos_since_epoch(secs: u64, nanos: u32) -> int {
    secs * NANOS_PER_SEC + nanos
}

/// Identifier for a new sender. With a clock reading (seconds and nanoseconds
/// since the epoch) that fits in 64 bits as nanoseconds, that count is the id;
/// without a reading (the clock stood before the epoch), or when the count
/// does not fit, a random number is drawn instead.
pub fn random_id(elapsed: Option<(u64, u32)>) -> (r: u64)
    ensures
        match elapsed {
            Some(t) => nanos_since_epoch(t.0, t.1) <= u64::MAX ==> r == nanos_since_epoch(t.0, t.1),
            None => true,
        },
{
    match elapsed {
        Some((secs, nanos)) => {
            if secs <= (u64::MAX - nanos as u64) / NANOS_PER_SEC {
                proof {
                    lemma_fits(secs, nanos);
                }
                secs * NANOS_PER_SEC + nanos as u64
            } else {
                proof {
                    lemma_too_large(secs, nanos);
                }
                rand::random::<u64>()
            }
        },
        None => rand::random::<u64>(),
    }
}

proof fn lemma_fits(secs: u64, nanos: u32)
    requires
        secs <= (u64::MAX - nanos as u64) / (NANOS_PER_SEC as int),
    ensures
        nanos_since_epoch(secs, nanos) <= u64::MAX,
{
    assert(secs * NANOS_PER_SEC <= u64::MAX - nanos) by (nonlinear_arith)
        requires
            secs <= (u64::MAX - nanos as u64) / (NANOS_PER_SEC as int),
    ;
}

proof fn lemma_too_large(secs: u64, nanos: u32)
    requires
        secs > (u64::MAX - nanos as u64) / (NANOS_PER_SEC as int),
    ensures
        nanos_since_epoch(secs, nanos) > u64::MAX,
{
    assert(secs * NANOS_PER_SEC > u64::MAX - nanos) by (nonlinear_arith)
        requires
            secs > (u64::MAX - nanos as u64) / (NANOS_PER_SEC as int),
    ;
}

/// Relies on rand::random: a value drawn from the thread-local generator;
/// nothing is promised of which one.
pub assume_specification<T>[ rand::random::<T> ]() -> T
    where
        rand::distributions::Standard: rand::distributions::Distribution<T>,
;

} // verus!
