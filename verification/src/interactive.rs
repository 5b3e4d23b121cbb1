//! A terminal on the guest's UART: which output has not been shown yet.

use vstd::prelude::*;

verus! {

/// The byte that leaves an interactive session: Ctrl-].
pub const QUIT_BYTE: u8 = 0x1d;

/// The bytes of `output` that have not been shown yet, given `shown` already printed. A
/// `shown` past the end yields nothing.
#[must_use]
pub fn unshown(output: &[u8], shown: usize) -> (r: &[u8])
    ensures
        r@ == if shown <= output@.len() {
            output@.skip(shown as int)
        } else {
            Seq::empty()
        },
{
    let start: usize = if shown <= output.len() {
        shown
    } else {
        output.len()
    };
    let r: &[u8] = vstd::slice::slice_subrange(output, start, output.len());
    proof {
        assert(r@ =~= output@.skip(start as int));
        if shown > output@.len() {
            assert(r@ =~= Seq::<u8>::empty());
        }
    }
    r
}

/// Showing what is unshown, and then what is unshown of the grown output, shows the output
/// once, in order.
pub proof fn law_nothing_is_shown_twice(before: Seq<u8>, more: Seq<u8>, shown: int)
    requires
        0 <= shown <= before.len(),
    ensures
        before.skip(shown) + (before + more).skip(before.len() as int) == (before + more).skip(
            shown,
        ),
{
    assert(before.skip(shown) + (before + more).skip(before.len() as int) =~= (before
        + more).skip(shown));
}

} // verus!
