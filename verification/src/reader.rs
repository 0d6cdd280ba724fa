use vstd::prelude::*;

verus! {

/// The position of a reader in the log.
pub struct ReaderWithPos {
    pub pos: u64,
}

impl ReaderWithPos {
    /// A reader that stands at `pos`, the position of the stream it wraps.
    pub fn new(pos: u64) -> (r: Self)
        ensures
            r.pos == pos,
    {
        ReaderWithPos { pos }
    }

    /// Accounts for `count` bytes that a read of the stream gave.
    pub fn record_read(&mut self, count: usize)
        requires
            old(self).pos + count <= u64::MAX,
        ensures
            final(self).pos == old(self).pos + count,
    {
        self.pos = self.pos + count as u64;
    }

    /// Accounts for a seek of the stream, which left it at `new_pos`.
    pub fn record_seek(&mut self, new_pos: u64)
        ensures
            final(self).pos == new_pos,
    {
        self.pos = new_pos;
    }
}

} // verus!
