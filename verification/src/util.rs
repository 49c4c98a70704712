use vstd::prelude::*;

verus! {

/// The line separator written after every line on save and accepted
/// between lines on load.
#[inline]
pub fn newline() -> (r: &'static str)
    ensures
        r@ == seq!['\n'],
{
    proof {
        reveal_strlit("\n");
        assert("\n"@ =~= seq!['\n']);
    }
    "\n"
}

} // verus!
