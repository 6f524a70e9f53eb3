//! The library's laws: properties that hold across operations, stated over
//! the same spec functions the operations' contracts use, and proved here
//! once and for all.

use vstd::prelude::*;
use crate::recorder::{
    Recorder,
    accepted_step,
    accepted_rows,
    key_after_rows,
    key_after_row,
    row_accepted,
};
use crate::store::{assemble, tails};

verus! {

/// Law: sequence indices assigned by accepted ingests are strictly
/// increasing with no gaps — two consecutive accepted ingests take
/// consecutive indices, and each packet is stored at its own index, so the
/// stored indices are dense.
pub proof fn lemma_indices_strictly_increasing(r0: Recorder, r1: Recorder, r2: Recorder, i1: u64, i2: u64)
    requires
        accepted_step(r0, r1, i1),
        accepted_step(r1, r2, i2),
    ensures
        i2 == i1 + 1,
        i1 < i2,
{
}

/// Law: a well-formed recorder never lets the read cursor pass the write
/// cursor; every operation requires and re-establishes well-formedness, so
/// this holds after every operation, under any interleaving serialized by
/// the owner of the recorder.
pub proof fn lemma_read_never_passes_write(r: Recorder)
    requires
        r.wf(),
    ensures
        r.cursors.read_cursor <= r.cursors.write_cursor,
{
}

/// Law: with the ordering key cleared (as starting a session leaves it),
/// every row is accepted — a row accepted in a previous session never
/// suppresses a row with the same timestamp in a new session.
pub proof fn lemma_fresh_session_accepts(line: Seq<u8>)
    ensures
        row_accepted(line, None),
{
}

/// Law: a packet whose data rows are all duplicates or out-of-order — every
/// row dropped by the ordering policy — keeps no row and moves no key; with
/// the contract of `Recorder::ingest`, such a packet consumes no sequence
/// index and does not advance the sample counter.
pub proof fn lemma_all_duplicates_rejected(rows: Seq<Seq<u8>>, last: Option<int>)
    requires
        forall|j: int| 0 <= j < rows.len() ==> !row_accepted(#[trigger] rows[j], last),
    ensures
        accepted_rows(rows, last).len() == 0,
        key_after_rows(rows, last) == last,
    decreases rows.len(),
{
    if rows.len() > 0 {
        assert(!row_accepted(rows[0], last));
        assert(key_after_row(rows[0], last) == last);
        assert(forall|j: int| 0 <= j < rows.drop_first().len() ==> rows.drop_first()[j] == rows[j
            + 1]);
        lemma_all_duplicates_rejected(rows.drop_first(), last);
    }
}

/// How often a line occurs in a sequence of lines.
pub open spec fn count_line(lines: Seq<Seq<u8>>, l: Seq<u8>) -> nat
    decreases lines.len(),
{
    if lines.len() == 0 {
        0
    } else {
        (if lines[0] == l {
            1nat
        } else {
            0nat
        }) + count_line(lines.drop_first(), l)
    }
}

pub proof fn lemma_count_concat(a: Seq<Seq<u8>>, b: Seq<Seq<u8>>, l: Seq<u8>)
    ensures
        count_line(a + b, l) == count_line(a, l) + count_line(b, l),
    decreases a.len(),
{
    if a.len() == 0 {
        assert(a + b =~= b);
    } else {
        assert((a + b).drop_first() =~= a.drop_first() + b);
        assert((a + b)[0] == a[0]);
        lemma_count_concat(a.drop_first(), b, l);
    }
}

pub proof fn lemma_count_zero(s: Seq<Seq<u8>>, l: Seq<u8>)
    requires
        forall|m: int| 0 <= m < s.len() ==> s[m] != l,
    ensures
        count_line(s, l) == 0,
    decreases s.len(),
{
    if s.len() > 0 {
        assert(forall|m: int| 0 <= m < s.drop_first().len() ==> s.drop_first()[m] == s[m + 1]);
        lemma_count_zero(s.drop_first(), l);
    }
}

proof fn lemma_tails_no_header(ps: Seq<Seq<Seq<u8>>>, lo: int, hi: int, hdr: Seq<u8>)
    requires
        forall|i: int| lo <= i < hi ==> (#[trigger] ps[i]).len() >= 1,
        forall|i: int, j: int|
            lo <= i < hi && 1 <= j < ps[i].len() ==> (#[trigger] ps[i][j]) != hdr,
    ensures
        count_line(tails(ps, lo, hi), hdr) == 0,
    decreases hi - lo,
{
    if lo >= hi {
    } else {
        let head = ps[lo].skip(1);
        assert(forall|m: int| 0 <= m < head.len() ==> head[m] == ps[lo][m + 1]);
        assert(forall|m: int| 0 <= m < head.len() ==> head[m] != hdr);
        lemma_count_zero(head, hdr);
        lemma_tails_no_header(ps, lo + 1, hi, hdr);
        lemma_count_concat(head, tails(ps, lo + 1, hi), hdr);
    }
}

/// Law: assembling the packets of a session — every packet's first line its
/// header, no data row equal to the header — yields the header exactly
/// once, however many packets the session ingested.
pub proof fn lemma_payload_single_header(ps: Seq<Seq<Seq<u8>>>, lo: int, hi: int, hdr: Seq<u8>)
    requires
        lo < hi,
        forall|i: int| lo <= i < hi ==> (#[trigger] ps[i]).len() >= 1 && ps[i][0] == hdr,
        forall|i: int, j: int|
            lo <= i < hi && 1 <= j < ps[i].len() ==> (#[trigger] ps[i][j]) != hdr,
    ensures
        count_line(assemble(ps, lo, hi), hdr) == 1,
{
    let first = ps[lo];
    assert(first[0] == hdr);
    let rest = first.drop_first();
    assert(forall|m: int| 0 <= m < rest.len() ==> rest[m] == first[m + 1]);
    assert(forall|m: int| 0 <= m < rest.len() ==> rest[m] != hdr);
    lemma_count_zero(rest, hdr);
    assert(count_line(first, hdr) == 1);
    lemma_tails_no_header(ps, lo + 1, hi, hdr);
    lemma_count_concat(first, tails(ps, lo + 1, hi), hdr);
}

} // verus!
