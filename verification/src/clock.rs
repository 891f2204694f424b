//! Time, injected.
//!
//! Round deadlines are decided by the server's clock, so that clock is
//! substitutable: a test of a five-minute round does not take five minutes.

use std::sync::atomic::{AtomicU64, Ordering};
use std::sync::Arc;
use std::time::{SystemTime, UNIX_EPOCH};
use vstd::prelude::*;

verus! {

/// A source of wall-clock time in epoch milliseconds.
pub trait Clock {
    /// Milliseconds since the Unix epoch.
    fn now_ms(&self) -> u64;
}

/// Calls `std::time::SystemTime::now` and measures it from the Unix epoch, in
/// milliseconds; nothing when the system clock stands before the epoch. What it
/// reads is left open: it rests on the machine.
#[verifier::external_body]
fn since_epoch_ms() -> (now: Option<u64>)
{
    SystemTime::now().duration_since(UNIX_EPOCH).ok().map(|d| d.as_millis() as u64)
}

/// The time that a reading of the system clock stands for: zero for one before
/// the epoch.
pub fn epoch_ms(reading: Option<u64>) -> (now: u64)
    ensures
        now == match reading {
            Some(ms) => ms,
            None => 0,
        },
{
    match reading {
        Some(ms) => ms,
        None => 0,
    }
}

/// The time of the system clock.
pub fn now_ms() -> (now: u64) {
    epoch_ms(since_epoch_ms())
}

/// The real clock.
#[derive(Clone, Copy, Debug)]
pub struct SystemClock;

impl Clock for SystemClock {
    fn now_ms(&self) -> (now: u64) {
        now_ms()
    }
}

/// Calls `Arc::clone`, which makes another pointer to the same value.
#[verifier::external_body]
fn share(cell: &Arc<AtomicU64>) -> (r: Arc<AtomicU64>)
    ensures
        r == *cell,
{
    cell.clone()
}

/// The time a clock shows once it was moved forward, round past the largest time
/// to zero.
pub open spec fn moved_forward(now: u64, millis: u64) -> u64 {
    ((now + millis) % 0x1_0000_0000_0000_0000) as u64
}

/// The time a clock shows once it was moved forward.
pub fn advanced(now: u64, millis: u64) -> (r: u64)
    ensures
        r == moved_forward(now, millis),
{
    now.wrapping_add(millis)
}

/// Moving a clock forward twice is moving it forward once by both.
pub proof fn law_moves_forward_add_up(now: u64, first: u64, second: u64)
    ensures
        moved_forward(moved_forward(now, first), second) == moved_forward(
            now,
            moved_forward(first, second),
        ),
        moved_forward(now, 0) == now,
{
}

/// A clock that only moves when told to. Its clones show one time: whoever is
/// handed one sees every move of the others. The time stands in a cell that all of
/// them share, so what a reading gives is left open: any of them may have moved it.
#[derive(Debug)]
pub struct ManualClock {
    time: Arc<AtomicU64>,
}

impl ManualClock {
    /// The cell that the time is kept in.
    pub closed spec fn cell(self) -> AtomicU64 {
        *self.time
    }

    /// Start at `now_ms`.
    pub fn new(now_ms: u64) -> (r: Self) {
        ManualClock { time: Arc::new(AtomicU64::new(now_ms)) }
    }

    /// Jump forward, and say the time it then shows. What it showed before is left
    /// open: other holders of the clock may have moved it.
    pub fn advance(&self, millis: u64) -> (now: u64)
        ensures
            exists|before: u64| now == #[trigger] moved_forward(before, millis),
    {
        let before: u64 = self.time.fetch_add(millis, Ordering::SeqCst);
        assert(moved_forward(before, millis) == moved_forward(before, millis));
        advanced(before, millis)
    }

    /// Jump to an absolute time, for every holder of the clock.
    pub fn set(&self, now_ms: u64) {
        self.time.store(now_ms, Ordering::SeqCst);
    }
}

impl Clone for ManualClock {
    /// Another handle of the same clock.
    fn clone(&self) -> (r: Self)
        ensures
            r.cell() == self.cell(),
    {
        ManualClock { time: share(&self.time) }
    }
}

impl Clock for ManualClock {
    fn now_ms(&self) -> (now: u64) {
        self.time.load(Ordering::SeqCst)
    }
}

/// The real clock, shared.
pub fn system_clock() -> (clock: Arc<SystemClock>)
    ensures
        *clock == SystemClock,
{
    Arc::new(SystemClock)
}

}
