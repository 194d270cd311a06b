//! The raw output that the runtime hands back after a run.

use vstd::prelude::*;

verus! {

/// Standard output and error as captured, and the run's duration.
pub struct WasiExecutionIO {
    pub stdout: Vec<u8>,
    pub stderr: Vec<u8>,
    pub duration_ms: u128,
}

/// The first `max` bytes of `b`, or all of them if there are fewer.
pub open spec fn bounded(b: Seq<u8>, max: nat) -> Seq<u8> {
    if b.len() <= max {
        b
    } else {
        b.take(max as int)
    }
}

impl WasiExecutionIO {
    /// Collects a run's output, keeping at most `max_output_bytes` of each
    /// stream whatever the buffers held.
    pub fn capture(stdout: Vec<u8>, stderr: Vec<u8>, max_output_bytes: usize, duration_ms: u128) -> (r:
        WasiExecutionIO)
        ensures
            r.stdout@ == bounded(stdout@, max_output_bytes as nat),
            r.stderr@ == bounded(stderr@, max_output_bytes as nat),
            r.stdout.len() <= max_output_bytes,
            r.stderr.len() <= max_output_bytes,
            r.duration_ms == duration_ms,
    {
        let mut stdout = stdout;
        let mut stderr = stderr;
        stdout.truncate(max_output_bytes);
        stderr.truncate(max_output_bytes);
        WasiExecutionIO { stdout, stderr, duration_ms }
    }
}

} // verus!
