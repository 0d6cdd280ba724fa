use vstd::prelude::*;

verus! {

/// The position of a writer in the log: the number of bytes written since it was opened,
/// counted from the position it was opened at.
pub struct WriterWithPos {
    pub pos: u64,
}

impl WriterWithPos {
    /// A writer that stands at `pos`, the position of the stream it wraps.
    pub fn new(pos: u64) -> (w: Self)
        ensures
            w.pos == pos,
    {
        WriterWithPos { pos }
    }

    /// Accounts for `count` bytes that a write of the stream took.
    pub fn record_write(&mut self, count: usize)
        requires
            old(self).pos + count <= u64::MAX,
        ensures
            final(self).pos == old(self).pos + count,
    {
        self.pos = self.pos + count as u64;
    }
}

} // verus!
