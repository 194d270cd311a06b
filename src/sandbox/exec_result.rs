//! The record of one sandboxed run.

use vstd::prelude::*;
use vstd::utf8::{encode_utf8, valid_utf8};

use crate::sandbox::wasi::WasiExecutionIO;
use crate::text::{longest_prefix_within, prefix_within_bytes};

verus! {

/// One sandboxed run: its captured output, exit code and duration.
pub struct WasmExecResult {
    pub stdout: String,
    pub stderr: String,
    /// 0 for normal completion, the code of an explicit exit, or -1 for a fault.
    pub exit_code: i32,
    pub duration_ms: u128,
}

/// How the module's entrypoint ended.
pub enum GuestOutcome {
    /// The entrypoint returned normally.
    Completed,
    /// The module asked to exit with this code.
    Exited(i32),
    /// A trap, a capability violation, a missing entrypoint or any other fault.
    Faulted,
}

/// The exit code that reports an outcome.
pub open spec fn exit_code_of(outcome: GuestOutcome) -> i32 {
    match outcome {
        GuestOutcome::Completed => 0,
        GuestOutcome::Exited(n) => n,
        GuestOutcome::Faulted => -1i32,
    }
}

/// The exit code that reports `outcome` (see `exit_code_of`).
pub fn decode_exit(outcome: &GuestOutcome) -> (r: i32)
    ensures
        r == exit_code_of(*outcome),
{
    match outcome {
        GuestOutcome::Completed => 0,
        GuestOutcome::Exited(n) => *n,
        GuestOutcome::Faulted => -1,
    }
}

/// What `String::from_utf8_lossy` makes of a byte sequence.
pub uninterp spec fn utf8_lossy(b: Seq<u8>) -> Seq<char>;

/// Relies on `String::from_utf8_lossy`: decodes UTF-8, replacing each invalid
/// sequence with U+FFFD; valid UTF-8 decodes to the text it encodes.
#[verifier::external_body]
pub(crate) fn decode_lossy(b: &[u8]) -> (r: String)
    ensures
        r@ == utf8_lossy(b@),
        valid_utf8(b@) ==> encode_utf8(r@) == b@,
{
    String::from_utf8_lossy(b).into_owned()
}

impl WasmExecResult {
    /// The record of a run from its captured output and outcome. Each stream
    /// is decoded, then cut at a character boundary to at most
    /// `max_output_bytes` bytes, since replacement characters may take more
    /// bytes than the invalid sequences they stand for.
    pub fn from_run(io: &WasiExecutionIO, outcome: &GuestOutcome, max_output_bytes: usize) -> (r:
        WasmExecResult)
        ensures
            longest_prefix_within(utf8_lossy(io.stdout@), max_output_bytes as nat, r.stdout@),
            longest_prefix_within(utf8_lossy(io.stderr@), max_output_bytes as nat, r.stderr@),
            encode_utf8(r.stdout@).len() <= max_output_bytes,
            encode_utf8(r.stderr@).len() <= max_output_bytes,
            r.exit_code == exit_code_of(*outcome),
            r.duration_ms == io.duration_ms,
    {
        let out = decode_lossy(io.stdout.as_slice());
        let err = decode_lossy(io.stderr.as_slice());
        WasmExecResult {
            stdout: prefix_within_bytes(out.as_str(), max_output_bytes),
            stderr: prefix_within_bytes(err.as_str(), max_output_bytes),
            exit_code: decode_exit(outcome),
            duration_ms: io.duration_ms,
        }
    }
}

} // verus!
