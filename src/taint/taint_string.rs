//! A text together with the sources it is known to derive from.

use vstd::prelude::*;

use crate::taint::source::TaintSource;

verus! {

pub struct TaintedString {
    pub value: String,
    pub sources: Vec<TaintSource>,
}

} // verus!
