//! Turning a cumulative buffer into an incremental stream.

use vstd::prelude::*;

verus! {

/// How much of a cumulative buffer has already been handed out. One per buffer.
#[derive(Debug, Clone, Copy, PartialEq, Eq, Structural)]
pub struct Cursor {
    pub consumed: usize,
}

impl Default for Cursor {
    fn default() -> (r: Self)
        ensures
            r.consumed == 0,
    {
        Cursor { consumed: 0 }
    }
}

/// The bytes a drain of `buf` hands out, `consumed` having been handed out before.
pub open spec fn drained(buf: Seq<u8>, consumed: int) -> Seq<u8> {
    if consumed <= buf.len() {
        buf.skip(consumed)
    } else {
        Seq::empty()
    }
}

impl Cursor {
    /// A cursor that has seen nothing yet.
    #[must_use]
    pub fn new() -> (r: Self)
        ensures
            r.consumed == 0,
    {
        Cursor { consumed: 0 }
    }

    /// The bytes appended to `buf` since the last call. A `buf` shorter than what has
    /// already been consumed was replaced rather than appended to: the cursor re-syncs to
    /// it and reports nothing new.
    pub fn drain<'a>(&mut self, buf: &'a [u8]) -> (r: &'a [u8])
        ensures
            r@ == drained(buf@, old(self).consumed as int),
            final(self).consumed == buf@.len(),
    {
        let start: usize = if self.consumed <= buf.len() {
            self.consumed
        } else {
            buf.len()
        };
        let r: &[u8] = vstd::slice::slice_subrange(buf, start, buf.len());
        proof {
            assert(r@ =~= buf@.skip(start as int));
            if self.consumed > buf@.len() {
                assert(r@ =~= Seq::<u8>::empty());
            }
        }
        self.consumed = buf.len();
        r
    }
}

/// Successive drains of a buffer that only grows hand out the buffer: what came before is
/// not repeated and nothing is skipped.
pub proof fn law_drains_add_up_to_the_buffer(before: Seq<u8>, more: Seq<u8>, consumed: int)
    requires
        0 <= consumed <= before.len(),
    ensures
        drained(before, consumed) + drained(before + more, before.len() as int) == drained(
            before + more,
            consumed,
        ),
        drained(before, 0) == before,
{
    assert(drained(before, consumed) + drained(before + more, before.len() as int) =~= drained(
        before + more,
        consumed,
    ));
    assert(drained(before, 0) =~= before);
}

/// A buffer that is shorter than what was handed out has nothing new.
pub proof fn law_a_shorter_buffer_has_nothing_new(buf: Seq<u8>, consumed: int)
    requires
        consumed > buf.len(),
    ensures
        drained(buf, consumed).len() == 0,
{
}

} // verus!
