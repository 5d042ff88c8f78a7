//! Waiting until the second of the last clone is over.
//!
//! Cloned files keep their old mtime, so git never treats them as racily clean and relies on
//! ctime to spot edits. git (unless built with USE_NSEC) compares ctime in whole seconds, so an
//! edit that restores the mtime (`cp -p`, `rsync -t`) within the second the clone was made would
//! go unnoticed. Returning only after that second is over guarantees any later edit gets a newer
//! ctime. Usually the rest of the work already took that long.
use vstd::prelude::*;

verus! {

/// How many nanoseconds a second has.
pub const NANOS: u32 = 1_000_000_000;

/// A moment: whole seconds since the epoch, and the nanoseconds after that.
#[derive(Clone, Copy, Debug, PartialEq, Eq, Structural)]
pub struct Moment {
    pub seconds: i64,
    pub nanos: u32,
}

/// A length of time.
#[derive(Clone, Copy, Debug, PartialEq, Eq, Structural)]
pub struct Pause {
    pub seconds: u64,
    pub nanos: u32,
}

impl Moment {
    /// The nanoseconds are less than a second.
    pub open spec fn wf(&self) -> bool {
        self.nanos < NANOS
    }

    /// The nanoseconds since the epoch.
    pub open spec fn time(&self) -> int {
        self.seconds * NANOS + self.nanos
    }
}

impl Pause {
    /// The nanoseconds are less than a second.
    pub open spec fn wf(&self) -> bool {
        self.nanos < NANOS
    }

    /// The nanoseconds that it lasts.
    pub open spec fn length(&self) -> int {
        self.seconds * NANOS + self.nanos
    }
}

/// When the second of a moment is over.
pub open spec fn end_of_second(m: Moment) -> int {
    (m.seconds + 1) * NANOS
}

/// The nanoseconds that a wait lasts.
pub open spec fn wait_of(pause: Option<Pause>) -> int {
    match pause {
        Some(p) => p.length(),
        None => 0,
    }
}

/// How long to wait at `now` until the second of `last` is over. There is nothing to wait for
/// when it is over already, or when `last` is before the epoch. Whoever has waited as long goes
/// on only when that second is over.
pub fn pause_after(last: Moment, now: Moment) -> (r: Option<Pause>)
    requires
        last.wf(),
        now.wf(),
        last.seconds < i64::MAX,
    ensures
        r is Some <==> last.seconds >= 0 && now.time() <= end_of_second(last),
        r matches Some(p) ==> p.wf() && p.length() == end_of_second(last) - now.time(),
        last.seconds >= 0 ==> now.time() + wait_of(r) >= end_of_second(last) > last.time(),
{
    if last.seconds < 0 {
        return None;
    }
    let next: i64 = last.seconds + 1;
    if now.seconds > next || (now.seconds == next && now.nanos > 0) {
        return None;
    }
    if now.nanos == 0 {
        let seconds: u64 = (next as i128 - now.seconds as i128) as u64;
        Some(Pause { seconds, nanos: 0 })
    } else {
        let seconds: u64 = (next as i128 - now.seconds as i128 - 1) as u64;
        Some(Pause { seconds, nanos: NANOS - now.nanos })
    }
}

/// A second has 10^9 nanoseconds, and is over when the next one begins.
pub proof fn law_seconds_are_counted_in_nanoseconds(m: Moment, p: Pause)
    ensures
        m.time() == m.seconds * 1_000_000_000 + m.nanos,
        p.length() == p.seconds * 1_000_000_000 + p.nanos,
        end_of_second(m) == (m.seconds + 1) * 1_000_000_000,
        m.nanos < 1_000_000_000 ==> m.time() < end_of_second(m) <= m.time() + 1_000_000_000,
{
}

} // verus!
