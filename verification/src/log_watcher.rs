//! The log watcher: its stop flag, and the decisions of its polling loop.

use vstd::prelude::*;
use std::sync::atomic::{AtomicBool, Ordering};
use std::sync::Arc;

verus! {

/// The shortest poll interval, in seconds.
pub const MIN_POLL_INTERVAL: u64 = 1;

/// The longest poll interval, in seconds.
pub const MAX_POLL_INTERVAL: u64 = 10;

/// How much new content one read takes while tailing the log.
pub const READ_BUF_SIZE: usize = 65536;

/// How much one read takes while catching up on a large log.
pub const CATCHUP_CHUNK_SIZE: usize = 2097152;

/// A handle that stops the watcher's polling loop.
pub struct LogWatcher {
    stop: Arc<AtomicBool>,
}

impl LogWatcher {
    /// A watcher whose loop has not been told to stop.
    pub fn new() -> LogWatcher {
        LogWatcher { stop: Arc::new(AtomicBool::new(false)) }
    }

    /// Tells the polling loop to stop.
    pub fn stop(&self) {
        self.stop.store(true, Ordering::SeqCst);
    }

    /// Whether the polling loop has been told to stop.
    pub fn is_stopped(&self) -> bool {
        self.stop.load(Ordering::SeqCst)
    }

    /// The flag that `stop` sets and `is_stopped` reads.
    pub closed spec fn flag(&self) -> Arc<AtomicBool> {
        self.stop
    }

    /// The flag that the polling loop reads: this watcher's own flag, shared.
    pub fn stop_flag(&self) -> (r: Arc<AtomicBool>)
        ensures
            r == self.flag(),
    {
        share_flag(&self.stop)
    }
}

/// `Arc::clone`: another pointer to the same allocation, so the same flag.
#[verifier::external_body]
fn share_flag(a: &Arc<AtomicBool>) -> (r: Arc<AtomicBool>)
    ensures
        r == *a,
{
    a.clone()
}


/// The poll interval that the watcher uses for a configured one: clamped to
/// `MIN_POLL_INTERVAL..=MAX_POLL_INTERVAL`.
pub open spec fn spec_poll_interval(poll_interval_sec: u64) -> u64 {
    if poll_interval_sec < MIN_POLL_INTERVAL {
        MIN_POLL_INTERVAL
    } else if poll_interval_sec > MAX_POLL_INTERVAL {
        MAX_POLL_INTERVAL
    } else {
        poll_interval_sec
    }
}

/// The poll interval, in seconds, for a configured one.
pub fn poll_interval(poll_interval_sec: u64) -> (r: u64)
    ensures
        r == spec_poll_interval(poll_interval_sec),
        MIN_POLL_INTERVAL <= r <= MAX_POLL_INTERVAL,
{
    if poll_interval_sec < MIN_POLL_INTERVAL {
        MIN_POLL_INTERVAL
    } else if poll_interval_sec > MAX_POLL_INTERVAL {
        MAX_POLL_INTERVAL
    } else {
        poll_interval_sec
    }
}

/// Where reading starts: at the beginning when catching up on a temporary log, else at
/// the end of the file (only new content is read).
pub fn initial_read_position(use_tmp_log: bool, end: u64) -> (r: u64)
    ensures
        r == if use_tmp_log {
            0
        } else {
            end
        },
{
    if use_tmp_log {
        0
    } else {
        end
    }
}

/// One step of the polling loop: where reading stands, and how much to read now
/// (0: wait for new content).
pub struct PollStep {
    pub position: u64,
    pub read_len: usize,
}

/// The read position for a file of `size` bytes: a file that shrank is read from its end.
pub open spec fn step_position(size: u64, read_position: u64) -> u64 {
    if size < read_position {
        size
    } else {
        read_position
    }
}

/// How much to read: nothing when there is no new content, else the new content up to one
/// chunk, a large chunk when catching up on more than a small one's worth.
pub open spec fn step_read_len(size: u64, read_position: u64, use_tmp_log: bool) -> int {
    let p = step_position(size, read_position);
    if size <= p {
        0
    } else {
        let avail = size - p;
        let chunk = if use_tmp_log && avail > READ_BUF_SIZE {
            CATCHUP_CHUNK_SIZE as int
        } else {
            READ_BUF_SIZE as int
        };
        if avail < chunk {
            avail
        } else {
            chunk
        }
    }
}

/// Plans one step of the polling loop for a file of `size` bytes.
pub fn plan_poll(size: u64, read_position: u64, use_tmp_log: bool) -> (r: PollStep)
    ensures
        r.position == step_position(size, read_position),
        r.read_len == step_read_len(size, read_position, use_tmp_log),
        r.position + r.read_len <= size,
{
    let position = if size < read_position {
        size
    } else {
        read_position
    };
    if size <= position {
        return PollStep { position, read_len: 0 };
    }
    let avail = size - position;
    let chunk: usize = if use_tmp_log && avail > READ_BUF_SIZE as u64 {
        CATCHUP_CHUNK_SIZE
    } else {
        READ_BUF_SIZE
    };
    let read_len: usize = if avail < chunk as u64 {
        avail as usize
    } else {
        chunk
    };
    PollStep { position, read_len }
}

/// The read position after the step's read completed.
pub fn position_after_read(step: &PollStep, size: u64) -> (r: u64)
    requires
        step.position + step.read_len <= size,
    ensures
        r == step.position + step.read_len,
{
    step.position + step.read_len as u64
}

} // verus!
