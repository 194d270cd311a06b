//! Command-line options of a scan, and the parsing of `KEY=VALUE` options.

use vstd::prelude::*;
use vstd::string::StringExecFns;

use crate::text::{chars_of, string_of, trim, trimmed};

verus! {

/// The options of one scan.
pub struct Args {
    /// Path to the module.
    pub wasm: String,
    /// Directory exposed to the module as `/data`, if any.
    pub data_dir: Option<String>,
    /// Environment given to the module, as `(key, value)` entries.
    pub env: Vec<(String, String)>,
    /// The most bytes kept of standard output and of standard error.
    pub max_output_size: usize,
}

/// The capture limit used when none is given.
pub const DEFAULT_MAX_OUTPUT_SIZE: usize = 512_000;

/// `i` is the position of the first `=` in `s`.
pub open spec fn first_equals(s: Seq<char>, i: int) -> bool {
    0 <= i < s.len() && s[i] == '=' && forall|j: int| 0 <= j < i ==> s[j] != '='
}

/// Splits `KEY=VALUE` at the first `=`: the key trimmed, the value as it
/// stands. Fails without `=`, or where the key is blank.
pub fn parse_key_val(s: &str) -> (r: Result<(String, String), String>)
    ensures
        match r {
            Ok((k, v)) => exists|i: int|
                first_equals(s@, i) && k@ == trimmed(s@.take(i)) && k@.len() > 0 && v@ == s@.skip(
                    i + 1,
                ),
            Err(e) => {
                ||| (forall|j: int| 0 <= j < s@.len() ==> s@[j] != '=') && e@ == "Expected KEY=VALUE"@
                ||| exists|i: int| first_equals(s@, i) && trimmed(s@.take(i)).len() == 0 && e@ == "Empty KEY"@
            },
        },
        r is Err <==> (forall|j: int| 0 <= j < s@.len() ==> s@[j] != '=') || exists|i: int|
            first_equals(s@, i) && trimmed(s@.take(i)).len() == 0,
{
    let cs = chars_of(s);
    let mut i: usize = 0;
    while i < cs.len() && cs[i] != '='
        invariant
            i <= cs.len(),
            cs@ == s@,
            forall|j: int| 0 <= j < i ==> cs@[j] != '=',
        decreases cs.len() - i,
    {
        i = i + 1;
    }
    if i == cs.len() {
        proof {
            assert forall|k: int| !first_equals(s@, k) by {
                if 0 <= k < s@.len() {
                    assert(cs@[k] != '=');
                }
            }
        }
        return Err(String::from_str("Expected KEY=VALUE"));
    }
    let key_part = string_of(&cs, 0, i);
    assert(key_part@ =~= s@.take(i as int));
    let key = trim(key_part.as_str());
    assert(first_equals(s@, i as int));
    proof {
        assert forall|k: int| first_equals(s@, k) implies k == i by {
            if k < i {
                assert(cs@[k] != '=');
            } else if k > i {
                assert(s@[i as int] == '=');
            }
        }
    }
    if key.as_str().is_empty() {
        return Err(String::from_str("Empty KEY"));
    }
    let value = string_of(&cs, i + 1, cs.len());
    assert(value@ =~= s@.skip(i + 1));
    Ok((key, value))
}

} // verus!
