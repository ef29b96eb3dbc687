//! Hybrid logical time: wall-clock nanoseconds with a logical counter in the low bits.
use vstd::prelude::*;

verus! {

/// Mask that clears the four low bits of a wall-clock reading; they hold the logical counter.
pub const SYS_MASK: u64 = 0xffff_ffff_ffff_fff0;

/// A hybrid timestamp: a never-decreasing approximation of system time in nanoseconds.
#[derive(Debug, Clone, Copy, PartialEq, Eq, Structural, PartialOrd, Ord, Hash)]
pub struct HybridTime(pub u64);

/// The wall-clock part of a reading of `wall_ns` nanoseconds.
pub open spec fn wall_part(wall_ns: u64) -> u64 {
    (wall_ns & SYS_MASK) as u64
}

/// The timestamp that follows `latest` when the wall clock reads `wall_ns`.
pub open spec fn hlc_next(latest: u64, wall_ns: u64) -> u64 {
    if wall_part(wall_ns) >= latest {
        (wall_part(wall_ns) + 1) as u64
    } else {
        (latest + 1) as u64
    }
}

/// The latest timestamp after observing `remote`.
pub open spec fn hlc_sync(latest: u64, remote: u64) -> u64 {
    if remote > latest {
        remote
    } else {
        latest
    }
}

impl HybridTime {
    pub fn new(ticks: u64) -> (t: HybridTime)
        ensures
            t.0 == ticks,
    {
        HybridTime(ticks)
    }

    pub fn ticks(&self) -> (r: u64)
        ensures
            r == self.0,
    {
        self.0
    }

    /// The wall-clock part of a reading of `wall_ns` nanoseconds.
    pub fn sys_time(wall_ns: u64) -> (r: u64)
        ensures
            r == wall_part(wall_ns),
    {
        wall_ns & SYS_MASK
    }

    /// The next timestamp after `latest`, the last one this process issued or observed, when
    /// the wall clock reads `wall_ns`: one past the later of the two.
    pub fn now(latest: HybridTime, wall_ns: u64) -> (t: HybridTime)
        requires
            latest.0 < u64::MAX,
        ensures
            t.0 == hlc_next(latest.0, wall_ns),
            t.0 > latest.0,
            t.0 > wall_part(wall_ns),
    {
        let current = HybridTime::sys_time(wall_ns);
        proof {
            assert(wall_ns & SYS_MASK <= 0xffff_ffff_ffff_fff0u64) by (bit_vector);
        }
        let base = if current >= latest.0 {
            current
        } else {
            latest.0
        };
        HybridTime(base + 1)
    }

    /// The latest timestamp after observing `remote`: the later of the two.
    pub fn sync(latest: HybridTime, remote: HybridTime) -> (t: HybridTime)
        ensures
            t.0 == hlc_sync(latest.0, remote.0),
            t.0 >= latest.0,
            t.0 >= remote.0,
    {
        if remote.0 > latest.0 {
            remote
        } else {
            latest
        }
    }
}

/// Each timestamp issued after another one is strictly later, whatever the wall clock reads.
pub proof fn lemma_now_increases(latest: u64, wall1: u64, wall2: u64)
    requires
        latest < u64::MAX - 1,
        hlc_next(latest, wall1) < u64::MAX,
    ensures
        hlc_next(latest, wall1) > latest,
        hlc_next(hlc_next(latest, wall1), wall2) > hlc_next(latest, wall1),
{
    assert(wall1 & SYS_MASK <= 0xffff_ffff_ffff_fff0u64) by (bit_vector);
    assert(wall2 & SYS_MASK <= 0xffff_ffff_ffff_fff0u64) by (bit_vector);
}

/// After observing a later remote timestamp, the next local timestamp exceeds it.
pub proof fn lemma_sync_then_now(latest: u64, remote: u64, wall: u64)
    requires
        hlc_sync(latest, remote) < u64::MAX,
    ensures
        hlc_next(hlc_sync(latest, remote), wall) > remote,
        hlc_next(hlc_sync(latest, remote), wall) > latest,
{
    assert(wall & SYS_MASK <= 0xffff_ffff_ffff_fff0u64) by (bit_vector);
}

/// A source of the current time.
pub trait Clock: Sized {
    fn now() -> Self;
}

} // verus!
