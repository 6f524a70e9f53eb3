//! The cursor pair: the next index to assign on ingest (`write_cursor`) and
//! the next index to deliver to a poller (`read_cursor`). The read cursor
//! never passes the write cursor.

use vstd::prelude::*;

verus! {

pub struct CursorPair {
    pub write_cursor: u64,
    pub read_cursor: u64,
}

impl CursorPair {
    /// The consumer never reads past what was written.
    pub open spec fn wf(&self) -> bool {
        self.read_cursor <= self.write_cursor
    }

    pub fn new() -> (r: CursorPair)
        ensures
            r.wf(),
            r.write_cursor == 0,
            r.read_cursor == 0,
    {
        CursorPair { write_cursor: 0, read_cursor: 0 }
    }

    /// Claims the next index to write: returns the current write position
    /// and advances it, so no two ingests share an index.
    pub fn next_write(&mut self) -> (r: u64)
        requires
            old(self).wf(),
            old(self).write_cursor < u64::MAX,
        ensures
            final(self).wf(),
            r == old(self).write_cursor,
            final(self).write_cursor == old(self).write_cursor + 1,
            final(self).read_cursor == old(self).read_cursor,
    {
        let r = self.write_cursor;
        self.write_cursor = self.write_cursor + 1;
        r
    }

    /// Claims the next index to read, or reports the consumer caught up:
    /// `None` exactly when the read cursor has reached the write cursor.
    pub fn next_read(&mut self) -> (r: Option<u64>)
        requires
            old(self).wf(),
        ensures
            final(self).wf(),
            final(self).write_cursor == old(self).write_cursor,
            r is Some <==> old(self).read_cursor < old(self).write_cursor,
            r matches Some(i) ==> i == old(self).read_cursor && final(self).read_cursor == old(
                self,
            ).read_cursor + 1,
            r is None ==> final(self).read_cursor == old(self).read_cursor,
    {
        if self.read_cursor < self.write_cursor {
            let r = self.read_cursor;
            self.read_cursor = self.read_cursor + 1;
            Some(r)
        } else {
            None
        }
    }

    /// Sets both cursors to one position (the start of a session).
    pub fn reset(&mut self, to: u64)
        ensures
            final(self).wf(),
            final(self).write_cursor == to,
            final(self).read_cursor == to,
    {
        self.write_cursor = to;
        self.read_cursor = to;
    }
}

} // verus!
