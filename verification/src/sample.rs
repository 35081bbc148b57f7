//! Small functions with a known branch structure: the subjects of the sample
//! projects on which the analyzer is exercised end to end.
use vstd::prelude::*;

verus! {

/// 1 when both inputs hold, else 0: one `if` and one `&&`, complexity 3.
pub fn choose_branch(a: bool, b: bool) -> (r: i32)
    ensures
        r == (if a && b {
            1i32
        } else {
            0i32
        }),
{
    if a && b {
        1
    } else {
        0
    }
}

/// Its input: complexity 1.
pub fn always(value: bool) -> (r: bool)
    ensures
        r == value,
{
    value
}

/// Whether both inputs hold, written with a branch: complexity 3. The sample
/// project compiles it only with its `extra` feature.
pub fn feature_only(left: bool, right: bool) -> (r: bool)
    ensures
        r == (left && right),
{
    if left && right {
        true
    } else {
        false
    }
}

} // verus!
