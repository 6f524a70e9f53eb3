//! The packet store: append-only, index-addressed storage of accepted
//! packets, plus the master record — one concatenation of every accepted
//! packet's rows with the header line present exactly once, taken from the
//! first packet ever stored.

use vstd::prelude::*;
use crate::text::{lines_view, render, lemma_render_concat, append_rendered};

verus! {

/// One accepted packet: its header line first, then its accepted data rows.
pub struct Packet {
    pub rows: Vec<Vec<u8>>,
}

impl Packet {
    /// The packet's lines: the header, then the data rows.
    pub open spec fn lines(&self) -> Seq<Seq<u8>> {
        lines_view(self.rows@)
    }

    /// A stored packet holds its header and at least one data row.
    pub open spec fn wf(&self) -> bool {
        self.rows@.len() >= 2
    }
}

/// The lines of each packet of `ps`.
pub open spec fn packet_lines(ps: Seq<Packet>) -> Seq<Seq<Seq<u8>>> {
    Seq::new(ps.len(), |i: int| ps[i].lines())
}

/// The data rows of the packets in `[lo, hi)`: each packet's lines with its
/// header (first line) dropped.
pub open spec fn tails(ps: Seq<Seq<Seq<u8>>>, lo: int, hi: int) -> Seq<Seq<u8>>
    decreases hi - lo,
{
    if lo >= hi {
        Seq::empty()
    } else {
        ps[lo].skip(1) + tails(ps, lo + 1, hi)
    }
}

/// The assembly of the packets in `[lo, hi)`: the first packet whole, every
/// later packet without its header line.
pub open spec fn assemble(ps: Seq<Seq<Seq<u8>>>, lo: int, hi: int) -> Seq<Seq<u8>> {
    if lo >= hi {
        Seq::empty()
    } else {
        ps[lo] + tails(ps, lo + 1, hi)
    }
}

pub proof fn lemma_tails_extend(ps: Seq<Seq<Seq<u8>>>, lo: int, hi: int)
    requires
        lo <= hi,
    ensures
        tails(ps, lo, hi + 1) == tails(ps, lo, hi) + ps[hi].skip(1),
    decreases hi - lo,
{
    if lo >= hi {
        assert(tails(ps, lo, hi) =~= Seq::<Seq<u8>>::empty());
        assert(tails(ps, lo + 1, lo + 1) =~= Seq::<Seq<u8>>::empty());
        assert(tails(ps, lo, lo + 1) =~= ps[lo].skip(1) + Seq::<Seq<u8>>::empty());
        assert(tails(ps, lo, hi + 1) =~= tails(ps, lo, hi) + ps[hi].skip(1));
    } else {
        lemma_tails_extend(ps, lo + 1, hi);
        assert(tails(ps, lo, hi + 1) =~= tails(ps, lo, hi) + ps[hi].skip(1));
    }
}

/// Appending a packet extends an assembly by that packet's data rows — or by
/// the whole packet when the assembly was empty.
pub proof fn lemma_assemble_extend(ps: Seq<Seq<Seq<u8>>>, lo: int, hi: int)
    requires
        lo <= hi,
    ensures
        assemble(ps, lo, hi + 1) == assemble(ps, lo, hi) + (if lo == hi {
            ps[hi]
        } else {
            ps[hi].skip(1)
        }),
{
    if lo == hi {
        assert(tails(ps, lo + 1, hi + 1) =~= Seq::<Seq<u8>>::empty());
        assert(assemble(ps, lo, hi + 1) =~= assemble(ps, lo, hi) + ps[hi]);
    } else {
        lemma_tails_extend(ps, lo + 1, hi);
        assert(assemble(ps, lo, hi + 1) =~= assemble(ps, lo, hi) + ps[hi].skip(1));
    }
}

/// An assembly reads only the packets inside its range.
pub proof fn lemma_assemble_frame(ps1: Seq<Seq<Seq<u8>>>, ps2: Seq<Seq<Seq<u8>>>, lo: int, hi: int)
    requires
        forall|i: int| lo <= i < hi ==> ps1[i] == ps2[i],
    ensures
        assemble(ps1, lo, hi) == assemble(ps2, lo, hi),
        tails(ps1, lo, hi) == tails(ps2, lo, hi),
    decreases hi - lo,
{
    if lo < hi {
        lemma_assemble_frame(ps1, ps2, lo + 1, hi);
    }
}

/// Append-only storage of accepted packets, and the master record.
pub struct PacketStore {
    pub packets: Vec<Packet>,
    pub master: Vec<u8>,
}

impl PacketStore {
    /// The lines of each stored packet.
    pub open spec fn plines(&self) -> Seq<Seq<Seq<u8>>> {
        packet_lines(self.packets@)
    }

    /// Every stored packet is well formed.
    pub open spec fn wf(&self) -> bool {
        forall|i: int| 0 <= i < self.packets@.len() ==> (#[trigger] self.packets@[i]).wf()
    }

    /// The master record is the rendering of every stored packet, with the
    /// header present exactly once.
    pub open spec fn master_synced(&self) -> bool {
        self.master@ == render(assemble(self.plines(), 0, self.packets@.len() as int))
    }

    pub fn new() -> (r: PacketStore)
        ensures
            r.wf(),
            r.master_synced(),
            r.packets@.len() == 0,
            r.master@ == Seq::<u8>::empty(),
    {
        let r = PacketStore { packets: Vec::new(), master: Vec::new() };
        proof {
            assert(assemble(r.plines(), 0, 0) =~= Seq::<Seq<u8>>::empty());
        }
        r
    }

    /// The number of stored packets: the next index to assign.
    pub fn len(&self) -> (r: usize)
        ensures
            r == self.packets@.len(),
    {
        self.packets.len()
    }

    /// Stores a packet under a fresh index. Assigned indices are dense, so
    /// the only fresh index is the current length, and no stored packet is
    /// ever overwritten.
    pub fn put(&mut self, index: u64, packet: Packet)
        requires
            index as int == old(self).packets@.len(),
            packet.wf(),
        ensures
            final(self).packets@ == old(self).packets@.push(packet),
            final(self).master == old(self).master,
    {
        self.packets.push(packet);
    }

    /// Retrieves a stored packet; `None` exactly on an index never assigned.
    pub fn get(&self, index: usize) -> (r: Option<&Packet>)
        ensures
            r is Some <==> index < self.packets@.len(),
            r matches Some(p) ==> *p == self.packets@[index as int],
    {
        if index < self.packets.len() {
            Some(&self.packets[index])
        } else {
            None
        }
    }

    /// Appends rows to the master record, optionally without their first
    /// line (the header); every row gets its line terminator.
    pub fn append_master(&mut self, rows: &Vec<Vec<u8>>, drop_header: bool)
        requires
            drop_header ==> rows@.len() >= 1,
        ensures
            final(self).packets == old(self).packets,
            final(self).master@ == old(self).master@ + render(
                if drop_header {
                    lines_view(rows@).skip(1)
                } else {
                    lines_view(rows@)
                },
            ),
    {
        let from: usize = if drop_header {
            1
        } else {
            0
        };
        append_rendered(&mut self.master, rows, from);
        proof {
            if !drop_header {
                assert(lines_view(rows@).skip(0) =~= lines_view(rows@));
            }
        }
    }

    /// Clears all packets and the master record.
    pub fn reset(&mut self)
        ensures
            final(self).wf(),
            final(self).master_synced(),
            final(self).packets@.len() == 0,
            final(self).master@ == Seq::<u8>::empty(),
    {
        self.packets.clear();
        self.master.clear();
        proof {
            assert(assemble(self.plines(), 0, 0) =~= Seq::<Seq<u8>>::empty());
        }
    }

    /// Assembles the packets of `[lo, hi)` into one payload: the first
    /// packet whole, each later one without its header line, every line
    /// terminated. Indices never assigned are skipped, so the range is in
    /// effect clamped to the stored packets; a range with nothing stored
    /// yields `None` — no data, not an error.
    pub fn session_payload(&self, lo: u64, hi: u64) -> (r: Option<Vec<u8>>)
        requires
            self.wf(),
        ensures
            ({
                let n = self.packets@.len() as int;
                let end = if hi as int <= n {
                    hi as int
                } else {
                    n
                };
                &&& (lo < hi && (lo as int) < n) <==> r is Some
                &&& r matches Some(v) ==> v@ == render(assemble(self.plines(), lo as int, end))
            }),
    {
        let n = self.packets.len();
        let end: u64 = if hi > n as u64 {
            n as u64
        } else {
            hi
        };
        if lo >= end {
            return None;
        }
        let mut out: Vec<u8> = Vec::new();
        let mut i: u64 = lo;
        proof {
            assert(assemble(self.plines(), lo as int, lo as int) =~= Seq::<Seq<u8>>::empty());
            assert(render(Seq::<Seq<u8>>::empty()) =~= Seq::<u8>::empty());
        }
        while i < end
            invariant
                self.wf(),
                lo <= i <= end,
                self.packets@.len() <= usize::MAX,
                end as int <= self.packets@.len() as int,
                (lo as int) < self.packets@.len() as int,
                lo < end,
                out@ == render(assemble(self.plines(), lo as int, i as int)),
            decreases end - i,
        {
            let ghost before = assemble(self.plines(), lo as int, i as int);
            let packet = match self.get(i as usize) {
                Some(p) => p,
                None => {
                    proof {
                        assert(false);
                    }
                    return None;
                },
            };
            let from: usize = if i == lo {
                0
            } else {
                1
            };
            append_rendered(&mut out, &packet.rows, from);
            proof {
                lemma_assemble_extend(self.plines(), lo as int, i as int);
                let piece = if lo as int == i as int {
                    self.plines()[i as int]
                } else {
                    self.plines()[i as int].skip(1)
                };
                assert(piece =~= lines_view(packet.rows@).skip(from as int)) by {
                    if i == lo {
                        assert(lines_view(packet.rows@).skip(0) =~= lines_view(packet.rows@));
                    }
                }
                lemma_render_concat(before, piece);
            }
            i = i + 1;
        }
        Some(out)
    }
}

} // verus!
