//! The session recorder: a two-state session controller (idle or recording)
//! over the packet store and the cursor pair, with the ingest normalizer
//! and the read side.
//!
//! Policy choices this module fixes: a packet is persisted with its own
//! header line retained, the master record takes its header from the first
//! packet ever stored (not per session), the store is never cleared between
//! sessions, so sequence indices stay dense from zero for the whole process
//! life, and a packet whose data rows are all rejected leaves every part of
//! the state unchanged.

use vstd::prelude::*;
use crate::cursor::CursorPair;
use crate::store::{
    Packet,
    PacketStore,
    assemble,
    lemma_assemble_extend,
    lemma_assemble_frame,
};
use crate::text::{lines_view, render, split_lines, split_lines_vec, valid_utf8, is_valid_utf8};
use crate::ts::row_ts;
use crate::ts::ts_of_line;

verus! {

/// A session-control call in the wrong state.
#[derive(Debug, Clone, Copy, PartialEq, Eq)]
pub enum SessionError {
    AlreadyRecording,
    NotRecording,
}

/// Why an ingest call was rejected. `BufferFull` is a capacity signal, not
/// an application error: nothing was read, the caller should back off.
#[derive(Debug, Clone, Copy, PartialEq, Eq)]
pub enum IngestError {
    NotRecording,
    InvalidEncoding,
    BufferFull,
}

/// What an accepted ingest call did: the sequence index assigned, if any
/// row survived the ordering policy, and whether the session has now
/// reached its sample cap.
#[derive(Debug, Clone, Copy, PartialEq, Eq)]
pub struct Acceptance {
    pub index: Option<u64>,
    pub at_capacity: bool,
}

/// The half-open index range `[start, end)` of one recorded session.
#[derive(Debug, Clone, Copy, PartialEq, Eq)]
pub struct SessionRange {
    pub start: u64,
    pub end: u64,
}

/// One packet's worth of polled text.
pub struct PollOutput {
    pub body: Vec<u8>,
    pub complete: bool,
}

/// The mathematical value of a stored ordering key.
pub open spec fn key_view(k: Option<i128>) -> Option<int> {
    match k {
        None => None,
        Some(v) => Some(v as int),
    }
}

/// Whether the ordering policy accepts a row: a row whose first field is a
/// timestamp not above the last accepted one is a duplicate or out-of-order
/// sample and is dropped; every other row is accepted.
pub open spec fn row_accepted(line: Seq<u8>, last: Option<int>) -> bool {
    match (row_ts(line), last) {
        (Some(t), Some(p)) => t > p,
        _ => true,
    }
}

/// The ordering key after one row: an accepted timestamp becomes the new
/// key; a dropped or timestamp-less row leaves it alone.
pub open spec fn key_after_row(line: Seq<u8>, last: Option<int>) -> Option<int> {
    if row_accepted(line, last) && row_ts(line) is Some {
        row_ts(line)
    } else {
        last
    }
}

/// The rows the ordering policy keeps, in order.
pub open spec fn accepted_rows(rows: Seq<Seq<u8>>, last: Option<int>) -> Seq<Seq<u8>>
    decreases rows.len(),
{
    if rows.len() == 0 {
        Seq::empty()
    } else if row_accepted(rows[0], last) {
        seq![rows[0]] + accepted_rows(rows.drop_first(), key_after_row(rows[0], last))
    } else {
        accepted_rows(rows.drop_first(), last)
    }
}

/// The ordering key after a whole sequence of rows.
pub open spec fn key_after_rows(rows: Seq<Seq<u8>>, last: Option<int>) -> Option<int>
    decreases rows.len(),
{
    if rows.len() == 0 {
        last
    } else {
        key_after_rows(rows.drop_first(), key_after_row(rows[0], last))
    }
}

/// The data rows of a packet: everything after the header candidate.
pub open spec fn data_rows(lines: Seq<Seq<u8>>) -> Seq<Seq<u8>> {
    if lines.len() == 0 {
        lines
    } else {
        lines.skip(1)
    }
}

/// Extending the row sequence by one row filters and keys it in one step.
pub proof fn lemma_accepted_snoc(rows: Seq<Seq<u8>>, last: Option<int>, x: Seq<u8>)
    ensures
        accepted_rows(rows.push(x), last) == accepted_rows(rows, last) + (if row_accepted(
            x,
            key_after_rows(rows, last),
        ) {
            seq![x]
        } else {
            Seq::<Seq<u8>>::empty()
        }),
        key_after_rows(rows.push(x), last) == key_after_row(x, key_after_rows(rows, last)),
    decreases rows.len(),
{
    if rows.len() == 0 {
        assert(rows.push(x)[0] == x);
        assert(rows.push(x).drop_first() =~= Seq::<Seq<u8>>::empty());
        assert(accepted_rows(Seq::<Seq<u8>>::empty(), key_after_row(x, last))
            =~= Seq::<Seq<u8>>::empty());
        if row_accepted(x, last) {
            assert(accepted_rows(rows.push(x), last) =~= accepted_rows(rows, last) + seq![x]);
        } else {
            assert(accepted_rows(rows.push(x), last) =~= accepted_rows(rows, last)
                + Seq::<Seq<u8>>::empty());
        }
        assert(key_after_rows(rows.push(x), last) == key_after_rows(
            Seq::<Seq<u8>>::empty(),
            key_after_row(x, last),
        ));
        assert(key_after_rows(rows.push(x), last) == key_after_row(x, last));
        assert(key_after_rows(rows, last) == last);
    } else {
        lemma_accepted_snoc(rows.drop_first(), key_after_row(rows[0], last), x);
        assert(rows.push(x).drop_first() =~= rows.drop_first().push(x));
        assert(rows.push(x)[0] == rows[0]);
        if row_accepted(rows[0], last) {
            assert(accepted_rows(rows.push(x), last) =~= accepted_rows(rows, last) + (
            if row_accepted(x, key_after_rows(rows, last)) {
                seq![x]
            } else {
                Seq::<Seq<u8>>::empty()
            }));
        } else {
            assert(accepted_rows(rows.push(x), last) =~= accepted_rows(rows, last) + (
            if row_accepted(x, key_after_rows(rows, last)) {
                seq![x]
            } else {
                Seq::<Seq<u8>>::empty()
            }));
        }
        assert(key_after_rows(rows.push(x), last) == key_after_rows(
            rows.drop_first().push(x),
            key_after_row(rows[0], last),
        ));
        assert(key_after_rows(rows, last) == key_after_rows(
            rows.drop_first(),
            key_after_row(rows[0], last),
        ));
    }
}

/// What an ingest that assigned index `i` did to the cursors and the store.
pub open spec fn accepted_step(pre: Recorder, post: Recorder, i: u64) -> bool {
    &&& i == pre.cursors.write_cursor
    &&& post.cursors.write_cursor == i + 1
    &&& post.store.packets@.len() == pre.store.packets@.len() + 1
    &&& pre.store.packets@.len() == i
}

/// The process-wide recorder state: store, cursors, session, ordering key
/// and sample counter. One instance exists per process; concurrent callers
/// share it behind mutual exclusion, so each operation below is one atomic
/// unit.
pub struct Recorder {
    pub store: PacketStore,
    pub cursors: CursorPair,
    pub active: bool,
    pub start_index: u64,
    pub last_key: Option<i128>,
    pub samples: u64,
    pub max_samples: u64,
}

impl Recorder {
    /// Well-formedness: the read cursor never passes the write cursor, the
    /// write cursor is the number of stored packets (indices are dense from
    /// zero with no gaps), the session window starts at or before both
    /// cursors, every stored packet is well formed, the master record is in
    /// sync, and the sample counter never exceeds the cap.
    pub open spec fn wf(&self) -> bool {
        &&& self.cursors.wf()
        &&& self.cursors.write_cursor as int == self.store.packets@.len()
        &&& self.start_index <= self.cursors.read_cursor
        &&& self.store.wf()
        &&& self.store.master_synced()
        &&& self.samples <= self.max_samples
    }

    /// A fresh, idle recorder with the given sample cap.
    pub fn new(max_samples: u64) -> (r: Recorder)
        ensures
            r.wf(),
            !r.active,
            r.cursors.write_cursor == 0,
            r.cursors.read_cursor == 0,
            r.start_index == 0,
            r.last_key is None,
            r.samples == 0,
            r.max_samples == max_samples,
            r.store.packets@.len() == 0,
    {
        Recorder {
            store: PacketStore::new(),
            cursors: CursorPair::new(),
            active: false,
            start_index: 0,
            last_key: None,
            samples: 0,
            max_samples,
        }
    }

    /// Begins a session: fails if one is already recording; otherwise the
    /// session window opens at the current write position, both cursors are
    /// set there, and the ordering key and sample counter are cleared, so
    /// nothing accepted before this session can suppress a row now.
    pub fn start(&mut self) -> (r: Result<(), SessionError>)
        requires
            old(self).wf(),
        ensures
            final(self).wf(),
            old(self).active ==> r == Err::<(), SessionError>(SessionError::AlreadyRecording)
                && *final(self) == *old(self),
            !old(self).active ==> {
                &&& r == Ok::<(), SessionError>(())
                &&& final(self).active
                &&& final(self).start_index == old(self).cursors.write_cursor
                &&& final(self).cursors.write_cursor == old(self).cursors.write_cursor
                &&& final(self).cursors.read_cursor == old(self).cursors.write_cursor
                &&& final(self).last_key is None
                &&& final(self).samples == 0
                &&& final(self).store == old(self).store
                &&& final(self).max_samples == old(self).max_samples
            },
    {
        if self.active {
            return Err(SessionError::AlreadyRecording);
        }
        let here = self.cursors.write_cursor;
        self.cursors.reset(here);
        self.start_index = here;
        self.last_key = None;
        self.samples = 0;
        self.active = true;
        Ok(())
    }

    /// Ends a session: fails if none is recording; otherwise the recorder
    /// goes idle and the session's index range is returned. An empty range
    /// is a session that collected nothing — a valid outcome, not an error.
    pub fn stop(&mut self) -> (r: Result<SessionRange, SessionError>)
        requires
            old(self).wf(),
        ensures
            final(self).wf(),
            !old(self).active ==> r == Err::<SessionRange, SessionError>(SessionError::NotRecording)
                && *final(self) == *old(self),
            old(self).active ==> {
                &&& r matches Ok(g) && g.start == old(self).start_index && g.end == old(
                    self,
                ).cursors.write_cursor
                &&& !final(self).active
                &&& final(self).cursors == old(self).cursors
                &&& final(self).store == old(self).store
                &&& final(self).start_index == old(self).start_index
                &&& final(self).last_key == old(self).last_key
                &&& final(self).samples == old(self).samples
                &&& final(self).max_samples == old(self).max_samples
            },
    {
        if !self.active {
            return Err(SessionError::NotRecording);
        }
        self.active = false;
        Ok(SessionRange { start: self.start_index, end: self.cursors.write_cursor })
    }

    /// Whether ingest may touch the cursors: only while recording.
    pub fn gate_ingest(&self) -> (r: bool)
        ensures
            r == self.active,
    {
        self.active
    }

    /// Whether polling may touch the cursors: only while recording.
    pub fn gate_poll(&self) -> (r: bool)
        ensures
            r == self.active,
    {
        self.active
    }

    /// Ingests one packet of delimited text.
    ///
    /// The packet is rejected whole — with nothing read and no state
    /// touched — when no session records, when the sample cap is already
    /// reached, or when the bytes are not valid text. Otherwise its first
    /// line is the header candidate and every later line runs through the
    /// ordering policy. If at least one data row survives, the packet (its
    /// header retained) takes the next sequence index, its rows go to the
    /// master record (header only from the first packet ever stored), and
    /// the sample counter advances; if none survives, the call reports no
    /// index and every part of the state is left unchanged.
    pub fn ingest(&mut self, data: &[u8]) -> (r: Result<Acceptance, IngestError>)
        requires
            old(self).wf(),
            old(self).cursors.write_cursor < u64::MAX,
        ensures
            final(self).wf(),
            !old(self).active ==> r == Err::<Acceptance, IngestError>(IngestError::NotRecording)
                && *final(self) == *old(self),
            old(self).active && old(self).samples >= old(self).max_samples ==> r == Err::<
                Acceptance,
                IngestError,
            >(IngestError::BufferFull) && *final(self) == *old(self),
            (old(self).active && old(self).samples < old(self).max_samples && !valid_utf8(data@))
                ==> (r == Err::<Acceptance, IngestError>(IngestError::InvalidEncoding)
                && *final(self) == *old(self)),
            old(self).active && old(self).samples < old(self).max_samples && valid_utf8(data@)
                ==> ({
                let lines = split_lines(data@);
                let acc = accepted_rows(data_rows(lines), key_view(old(self).last_key));
                &&& acc.len() == 0 ==> r == Ok::<Acceptance, IngestError>(
                    Acceptance { index: None, at_capacity: false },
                ) && *final(self) == *old(self)
                &&& acc.len() > 0 ==> {
                    &&& r == Ok::<Acceptance, IngestError>(
                        Acceptance {
                            index: Some(old(self).cursors.write_cursor),
                            at_capacity: old(self).samples + 1 == old(self).max_samples,
                        },
                    )
                    &&& accepted_step(*old(self), *final(self), old(self).cursors.write_cursor)
                    &&& final(self).store.plines() == old(self).store.plines().push(
                        seq![lines[0]] + acc,
                    )
                    &&& final(self).cursors.read_cursor == old(self).cursors.read_cursor
                    &&& final(self).active == old(self).active
                    &&& final(self).start_index == old(self).start_index
                    &&& final(self).samples == old(self).samples + 1
                    &&& final(self).max_samples == old(self).max_samples
                    &&& key_view(final(self).last_key) == key_after_rows(
                        data_rows(lines),
                        key_view(old(self).last_key),
                    )
                }
            }),
    {
        if !self.active {
            return Err(IngestError::NotRecording);
        }
        if self.samples >= self.max_samples {
            return Err(IngestError::BufferFull);
        }
        if !is_valid_utf8(data) {
            return Err(IngestError::InvalidEncoding);
        }
        let lines = split_lines_vec(data);
        let n = lines.len();
        if n == 0 {
            proof {
                assert(accepted_rows(data_rows(split_lines(data@)), key_view(self.last_key))
                    =~= Seq::<Seq<u8>>::empty());
            }
            return Ok(Acceptance { index: None, at_capacity: false });
        }
        let ghost rows = data_rows(split_lines(data@));
        let ghost last0 = key_view(self.last_key);
        let mut acc: Vec<Vec<u8>> = Vec::new();
        let mut cur: Option<i128> = self.last_key;
        let mut j: usize = 1;
        proof {
            assert(rows =~= split_lines(data@).skip(1));
            assert(rows.take(0) =~= Seq::<Seq<u8>>::empty());
            assert(lines_view(acc@) =~= accepted_rows(rows.take(0), last0));
        }
        while j < n
            invariant
                1 <= j as int <= n == lines@.len(),
                lines_view(lines@) == split_lines(data@),
                rows == data_rows(split_lines(data@)),
                rows =~= split_lines(data@).skip(1),
                rows.len() == n - 1,
                lines_view(acc@) == accepted_rows(rows.take(j as int - 1), last0),
                key_view(cur) == key_after_rows(rows.take(j as int - 1), last0),
            decreases n - j,
        {
            let ghost prefix = rows.take(j as int - 1);
            let ghost lastj = key_after_rows(prefix, last0);
            proof {
                assert(rows[j as int - 1] == lines_view(lines@)[j as int]);
                assert(rows.take(j as int) =~= prefix.push(rows[j as int - 1]));
                lemma_accepted_snoc(prefix, last0, rows[j as int - 1]);
            }
            let line_ts = ts_of_line(lines[j].as_slice());
            let keep: bool = match (line_ts, cur) {
                (Some(t), Some(p)) => t > p,
                _ => true,
            };
            proof {
                assert(keep == row_accepted(rows[j as int - 1], lastj));
            }
            if keep {
                let ghost acc_before = acc@;
                acc.push(vstd::slice::slice_to_vec(lines[j].as_slice()));
                proof {
                    assert(lines_view(acc@) =~= lines_view(acc_before) + seq![
                        rows[j as int - 1],
                    ]);
                }
                if let Some(t) = line_ts {
                    cur = Some(t);
                }
            } else {
                proof {
                    assert(lines_view(acc@) + Seq::<Seq<u8>>::empty() =~= lines_view(acc@));
                }
            }
            j = j + 1;
        }
        proof {
            assert(rows.take(n as int - 1) =~= rows);
        }
        if acc.len() == 0 {
            proof {
                assert(accepted_rows(rows, last0).len() == lines_view(acc@).len());
            }
            return Ok(Acceptance { index: None, at_capacity: false });
        }
        // the packet is accepted: header first, then the surviving rows
        let mut prows: Vec<Vec<u8>> = Vec::new();
        prows.push(vstd::slice::slice_to_vec(lines[0].as_slice()));
        let ghost accv = lines_view(acc@);
        prows.append(&mut acc);
        proof {
            assert(lines_view(prows@) =~= seq![split_lines(data@)[0]] + accv);
        }
        let first_ever = self.store.len() == 0;
        let ghost old_store = self.store;
        self.store.append_master(&prows, !first_ever);
        let index = self.cursors.next_write();
        self.store.put(index, Packet { rows: prows });
        self.samples = self.samples + 1;
        self.last_key = cur;
        let at_cap = self.samples >= self.max_samples;
        proof {
            let oldn = old_store.packets@.len() as int;
            assert(self.store.plines() =~= old_store.plines().push(
                seq![split_lines(data@)[0]] + accv,
            ));
            lemma_assemble_frame(old_store.plines(), self.store.plines(), 0, oldn);
            lemma_assemble_extend(self.store.plines(), 0, oldn);
            crate::text::lemma_render_concat(
                assemble(self.store.plines(), 0, oldn),
                if oldn == 0 {
                    self.store.plines()[oldn]
                } else {
                    self.store.plines()[oldn].skip(1)
                },
            );
            if !first_ever {
                assert(lines_view(prows@).skip(1) =~= self.store.plines()[oldn].skip(1));
            } else {
                assert(lines_view(prows@) =~= self.store.plines()[oldn]);
            }
        }
        Ok(Acceptance { index: Some(index), at_capacity: at_cap })
    }

    /// Delivers the next packet to the poller: `None` when no session
    /// records or the poller has caught up with the producer; otherwise one
    /// packet's reconstructed text — its header included only for the first
    /// packet of the session — and the capacity marker.
    pub fn poll(&mut self) -> (r: Option<PollOutput>)
        requires
            old(self).wf(),
        ensures
            final(self).wf(),
            final(self).store == old(self).store,
            final(self).cursors.write_cursor == old(self).cursors.write_cursor,
            final(self).active == old(self).active,
            final(self).start_index == old(self).start_index,
            final(self).last_key == old(self).last_key,
            final(self).samples == old(self).samples,
            final(self).max_samples == old(self).max_samples,
            !(old(self).active && old(self).cursors.read_cursor < old(self).cursors.write_cursor)
                ==> r is None && *final(self) == *old(self),
            old(self).active && old(self).cursors.read_cursor < old(self).cursors.write_cursor
                ==> ({
                let i = old(self).cursors.read_cursor as int;
                &&& r matches Some(o) && o.body@ == render(
                    if i == old(self).start_index as int {
                        old(self).store.plines()[i]
                    } else {
                        old(self).store.plines()[i].skip(1)
                    },
                ) && o.complete == (old(self).samples >= old(self).max_samples)
                &&& final(self).cursors.read_cursor == old(self).cursors.read_cursor + 1
            }),
    {
        if !self.active {
            return None;
        }
        let idx = match self.cursors.next_read() {
            None => {
                return None;
            },
            Some(i) => i,
        };
        let total = self.store.len();
        proof {
            assert(self.store.packets@.len() == total as int);
            assert((idx as int) < self.store.packets@.len());
        }
        let packet = match self.store.get(idx as usize) {
            Some(p) => p,
            None => {
                proof {
                    assert(false);
                }
                return None;
            },
        };
        let from: usize = if idx == self.start_index {
            0
        } else {
            1
        };
        let mut body: Vec<u8> = Vec::new();
        crate::text::append_rendered(&mut body, &packet.rows, from);
        proof {
            if from == 0 {
                assert(lines_view(packet.rows@).skip(0) =~= lines_view(packet.rows@));
            }
        }
        let complete = self.samples >= self.max_samples;
        Some(PollOutput { body, complete })
    }

    /// Assembles one session's recorded packets into a single payload with
    /// exactly one header line; `None` when the range holds no packet.
    pub fn payload(&self, range: SessionRange) -> (r: Option<Vec<u8>>)
        requires
            self.wf(),
        ensures
            ({
                let n = self.store.packets@.len() as int;
                let end = if range.end as int <= n {
                    range.end as int
                } else {
                    n
                };
                &&& (range.start < range.end && (range.start as int) < n) <==> r is Some
                &&& r matches Some(v) ==> v@ == render(
                    assemble(self.store.plines(), range.start as int, end),
                )
            }),
    {
        self.store.session_payload(range.start, range.end)
    }

    /// The master record so far: every accepted packet's rows, the header
    /// exactly once.
    pub fn master(&self) -> (r: &Vec<u8>)
        ensures
            r@ == self.store.master@,
    {
        &self.store.master
    }
}

} // verus!
