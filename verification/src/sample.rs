//! Workload helpers of the sample crate that profiling runs exercise.

use vstd::prelude::*;

verus! {

/// Clones every string of `data` (exercises `.clone()` on `String`).
pub fn duplicate_data(data: &[String]) -> (out: Vec<String>)
    ensures
        out@ == data@,
{
    let mut out: Vec<String> = Vec::new();
    let mut i: usize = 0;
    while i < data.len()
        invariant
            i <= data@.len(),
            out@ == data@.take(i as int),
        decreases data@.len() - i,
    {
        out.push(data[i].clone());
        i += 1;
        assert(out@ =~= data@.take(i as int));
    }
    assert(data@.take(data@.len() as int) =~= data@);
    out
}

} // verus!
