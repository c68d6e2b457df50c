use vstd::arithmetic::div_mod::{lemma_mod_self_0, lemma_small_mod};
use vstd::prelude::*;

verus! {

/// The step that follows `step` in a cyclic sequence of `len` steps.
pub fn next_step(step: usize, len: usize) -> (r: usize)
    requires
        len > 0,
    ensures
        r == (step + 1) % (len as int),
        r < len,
{
    let s = step % len;
    assert((step + 1) % (len as int) == (s + 1) % (len as int)) by (nonlinear_arith)
        requires
            len > 0,
            s as int == (step as int) % (len as int),
    ;
    proof {
        if s + 1 == len {
            lemma_mod_self_0(len as int);
        } else {
            lemma_small_mod((s + 1) as nat, len as nat);
        }
    }
    if s + 1 == len {
        0
    } else {
        s + 1
    }
}

} // verus!
