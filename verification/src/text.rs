//! Byte-level text handling: splitting a payload into lines, checking UTF-8
//! validity, and rendering lines back to bytes with one line terminator
//! after every line.

use vstd::prelude::*;
use crate::ts::{find_byte, lemma_find_byte_none, lemma_find_byte_witness};

verus! {

/// ASCII code of the line feed.
pub const NL: u8 = 10;

/// ASCII code of the carriage return.
pub const CR: u8 = 13;

/// The views of a vector of byte rows.
pub open spec fn lines_view(rows: Seq<Vec<u8>>) -> Seq<Seq<u8>> {
    Seq::new(rows.len(), |i: int| rows[i]@)
}

/// One line segment with a trailing carriage return removed.
pub open spec fn strip_cr(seg: Seq<u8>) -> Seq<u8> {
    if seg.len() > 0 && seg.last() == CR {
        seg.drop_last()
    } else {
        seg
    }
}

/// The lines of a byte text: the segments between line feeds, each with a
/// trailing carriage return removed. A final line feed terminates the last
/// line rather than opening an empty one.
pub open spec fn split_lines(s: Seq<u8>) -> Seq<Seq<u8>>
    decreases s.len(),
    via split_lines_decreases
{
    if s.len() == 0 {
        Seq::empty()
    } else {
        match find_byte(s, NL) {
            None => seq![strip_cr(s)],
            Some(k) => seq![strip_cr(s.take(k))] + split_lines(s.skip(k + 1)),
        }
    }
}

#[via_fn]
proof fn split_lines_decreases(s: Seq<u8>) {
    crate::ts::lemma_find_byte(s, NL);
}

/// Splits a payload into its lines.
pub fn split_lines_vec(data: &[u8]) -> (r: Vec<Vec<u8>>)
    ensures
        lines_view(r@) == split_lines(data@),
{
    let n = data.len();
    let mut out: Vec<Vec<u8>> = Vec::new();
    let mut pos: usize = 0;
    proof {
        assert(data@.skip(0) =~= data@);
        assert(lines_view(out@) =~= Seq::<Seq<u8>>::empty());
        assert(lines_view(out@) + split_lines(data@) =~= split_lines(data@));
    }
    loop
        invariant
            data@.len() == n,
            pos as int <= n,
            split_lines(data@) == lines_view(out@) + split_lines(data@.skip(pos as int)),
        ensures
            split_lines(data@) == lines_view(out@),
        decreases n - pos,
    {
        if pos >= n {
            proof {
                assert(data@.skip(pos as int) =~= Seq::<u8>::empty());
                assert(lines_view(out@) + split_lines(data@.skip(pos as int)) =~= lines_view(
                    out@,
                ));
            }
            break ;
        }
        // find the end of the current line
        let mut j: usize = pos;
        loop
            invariant
                data@.len() == n,
                pos as int <= j as int <= n,
                forall|p: int| pos as int <= p < j as int ==> data@[p] != NL,
            ensures
                pos as int <= j as int <= n,
                forall|p: int| pos as int <= p < j as int ==> data@[p] != NL,
                j as int == n || data@[j as int] == NL,
            decreases n - j,
        {
            if j >= n {
                break ;
            }
            if data[j] == NL {
                break ;
            }
            j = j + 1;
        }
        // drop a trailing carriage return from the segment
        let mut seg_end: usize = j;
        if seg_end > pos && data[seg_end - 1] == CR {
            seg_end = seg_end - 1;
        }
        let ghost rest = data@.skip(pos as int);
        proof {
            assert(forall|p: int| 0 <= p < j as int - pos as int ==> rest[p] == data@[p
                + pos as int]);
            if j as usize == n {
                lemma_find_byte_none(rest, NL);
                assert(strip_cr(rest) =~= data@.subrange(pos as int, seg_end as int)) by {
                    assert(rest =~= data@.subrange(pos as int, n as int));
                    if j > pos && data@[j as int - 1] == CR {
                        assert(rest.drop_last() =~= data@.subrange(pos as int, j as int - 1));
                    }
                }
                assert(split_lines(rest) =~= seq![data@.subrange(pos as int, seg_end as int)]);
            } else {
                lemma_find_byte_witness(rest, NL, j as int - pos as int);
                let seg = rest.take(j as int - pos as int);
                assert(seg =~= data@.subrange(pos as int, j as int));
                assert(strip_cr(seg) =~= data@.subrange(pos as int, seg_end as int)) by {
                    if j > pos && data@[j as int - 1] == CR {
                        assert(seg.drop_last() =~= data@.subrange(pos as int, j as int - 1));
                    }
                }
                assert(rest.skip(j as int - pos as int + 1) =~= data@.skip(j as int + 1));
                assert(split_lines(rest) =~= seq![data@.subrange(pos as int, seg_end as int)]
                    + split_lines(data@.skip(j as int + 1)));
            }
        }
        let seg: Vec<u8> = vstd::slice::slice_to_vec(&data[pos..seg_end]);
        let ghost old_out = out@;
        out.push(seg);
        proof {
            assert(lines_view(out@) =~= lines_view(old_out).push(data@.subrange(
                pos as int,
                seg_end as int,
            )));
            assert(lines_view(old_out).push(data@.subrange(pos as int, seg_end as int))
                =~= lines_view(old_out) + seq![data@.subrange(pos as int, seg_end as int)]);
        }
        if j >= n {
            pos = n;
            proof {
                assert(data@.skip(pos as int) =~= Seq::<u8>::empty());
                assert(lines_view(out@) + split_lines(data@.skip(pos as int)) =~= lines_view(
                    out@,
                ));
            }
        } else {
            pos = j + 1;
        }
    }
    out
}

/// Rendering a sequence of lines: every line, its own line terminator after
/// it, so that concatenations never merge two rows.
pub open spec fn render(lines: Seq<Seq<u8>>) -> Seq<u8>
    decreases lines.len(),
{
    if lines.len() == 0 {
        Seq::empty()
    } else {
        lines[0] + seq![NL] + render(lines.drop_first())
    }
}

pub proof fn lemma_render_concat(a: Seq<Seq<u8>>, b: Seq<Seq<u8>>)
    ensures
        render(a + b) == render(a) + render(b),
    decreases a.len(),
{
    if a.len() == 0 {
        assert(a + b =~= b);
        assert(render(a) + render(b) =~= render(b));
    } else {
        lemma_render_concat(a.drop_first(), b);
        assert((a + b).drop_first() =~= a.drop_first() + b);
        assert((a + b)[0] == a[0]);
        assert(render(a + b) =~= render(a) + render(b));
    }
}

/// Appends the rendering of `rows[from..]` to `out`.
pub fn append_rendered(out: &mut Vec<u8>, rows: &Vec<Vec<u8>>, from: usize)
    requires
        from as int <= rows@.len(),
    ensures
        final(out)@ == old(out)@ + render(lines_view(rows@).skip(from as int)),
{
    let n = rows.len();
    let mut i: usize = from;
    proof {
        assert(lines_view(rows@).subrange(from as int, from as int) =~= Seq::<Seq<u8>>::empty());
        assert(out@ + render(lines_view(rows@).subrange(from as int, from as int)) =~= out@);
    }
    while i < n
        invariant
            from as int <= i as int <= n == rows@.len(),
            out@ == old(out)@ + render(lines_view(rows@).subrange(from as int, i as int)),
        decreases n - i,
    {
        let ghost prefix = lines_view(rows@).subrange(from as int, i as int);
        let mut line: Vec<u8> = vstd::slice::slice_to_vec(rows[i].as_slice());
        out.append(&mut line);
        out.push(NL);
        proof {
            lemma_render_concat(prefix, seq![rows@[i as int]@]);
            assert(lines_view(rows@).subrange(from as int, i as int + 1) =~= prefix + seq![
                rows@[i as int]@,
            ]);
            assert(seq![rows@[i as int]@].drop_first() =~= Seq::<Seq<u8>>::empty());
            assert(render(Seq::<Seq<u8>>::empty()) =~= Seq::<u8>::empty());
            assert(render(seq![rows@[i as int]@]) =~= rows@[i as int]@ + seq![NL]);
            assert(out@ =~= old(out)@ + render(
                lines_view(rows@).subrange(from as int, i as int + 1),
            ));
        }
        i = i + 1;
    }
    proof {
        assert(lines_view(rows@).subrange(from as int, n as int) =~= lines_view(rows@).skip(
            from as int,
        ));
    }
}

/// A UTF-8 continuation byte.
pub open spec fn is_cont(b: u8) -> bool {
    128 <= b && b <= 191
}

/// Well-formed UTF-8 by the standard byte-range table: shortest forms only,
/// no surrogates, nothing above the last code point.
pub open spec fn valid_utf8(s: Seq<u8>) -> bool
    decreases s.len(),
{
    if s.len() == 0 {
        true
    } else {
        let b0 = s[0];
        if b0 <= 0x7f {
            valid_utf8(s.skip(1))
        } else if 0xc2 <= b0 && b0 <= 0xdf {
            s.len() >= 2 && is_cont(s[1]) && valid_utf8(s.skip(2))
        } else if b0 == 0xe0 {
            s.len() >= 3 && 0xa0 <= s[1] && s[1] <= 0xbf && is_cont(s[2]) && valid_utf8(s.skip(3))
        } else if 0xe1 <= b0 && b0 <= 0xec {
            s.len() >= 3 && is_cont(s[1]) && is_cont(s[2]) && valid_utf8(s.skip(3))
        } else if b0 == 0xed {
            s.len() >= 3 && 0x80 <= s[1] && s[1] <= 0x9f && is_cont(s[2]) && valid_utf8(s.skip(3))
        } else if 0xee <= b0 && b0 <= 0xef {
            s.len() >= 3 && is_cont(s[1]) && is_cont(s[2]) && valid_utf8(s.skip(3))
        } else if b0 == 0xf0 {
            s.len() >= 4 && 0x90 <= s[1] && s[1] <= 0xbf && is_cont(s[2]) && is_cont(s[3])
                && valid_utf8(s.skip(4))
        } else if 0xf1 <= b0 && b0 <= 0xf3 {
            s.len() >= 4 && is_cont(s[1]) && is_cont(s[2]) && is_cont(s[3]) && valid_utf8(
                s.skip(4),
            )
        } else if b0 == 0xf4 {
            s.len() >= 4 && 0x80 <= s[1] && s[1] <= 0x8f && is_cont(s[2]) && is_cont(s[3])
                && valid_utf8(s.skip(4))
        } else {
            false
        }
    }
}

/// Checks a payload for UTF-8 validity.
pub fn is_valid_utf8(data: &[u8]) -> (r: bool)
    ensures
        r == valid_utf8(data@),
{
    let n = data.len();
    let mut i: usize = 0;
    proof {
        assert(data@.skip(0) =~= data@);
    }
    loop
        invariant
            data@.len() == n,
            i as int <= n,
            valid_utf8(data@) == valid_utf8(data@.skip(i as int)),
        ensures
            i as int == n,
            valid_utf8(data@) == valid_utf8(data@.skip(i as int)),
        decreases n - i,
    {
        if i >= n {
            break ;
        }
        let ghost rest = data@.skip(i as int);
        proof {
            assert(forall|j: int| 0 <= j < rest.len() ==> #[trigger] rest[j] == data@[i as int
                + j]);
        }
        let b0 = data[i];
        if b0 <= 0x7f {
            proof {
                assert(rest.skip(1) =~= data@.skip(i as int + 1));
            }
            i = i + 1;
        } else if 0xc2 <= b0 && b0 <= 0xdf {
            if n - i < 2 {
                return false;
            }
            let b1 = data[i + 1];
            if !(128 <= b1 && b1 <= 191) {
                return false;
            }
            proof {
                assert(rest.skip(2) =~= data@.skip(i as int + 2));
            }
            i = i + 2;
        } else if 0xe0 <= b0 && b0 <= 0xef {
            if n - i < 3 {
                return false;
            }
            let b1 = data[i + 1];
            let b2 = data[i + 2];
            let lo1: u8 = if b0 == 0xe0 {
                0xa0
            } else {
                128
            };
            let hi1: u8 = if b0 == 0xed {
                0x9f
            } else {
                191
            };
            if !(lo1 <= b1 && b1 <= hi1) {
                return false;
            }
            if !(128 <= b2 && b2 <= 191) {
                return false;
            }
            proof {
                assert(rest.skip(3) =~= data@.skip(i as int + 3));
            }
            i = i + 3;
        } else if 0xf0 <= b0 && b0 <= 0xf4 {
            if n - i < 4 {
                return false;
            }
            let b1 = data[i + 1];
            let b2 = data[i + 2];
            let b3 = data[i + 3];
            let lo1: u8 = if b0 == 0xf0 {
                0x90
            } else {
                128
            };
            let hi1: u8 = if b0 == 0xf4 {
                0x8f
            } else {
                191
            };
            if !(lo1 <= b1 && b1 <= hi1) {
                return false;
            }
            if !(128 <= b2 && b2 <= 191) {
                return false;
            }
            if !(128 <= b3 && b3 <= 191) {
                return false;
            }
            proof {
                assert(rest.skip(4) =~= data@.skip(i as int + 4));
            }
            i = i + 4;
        } else {
            return false;
        }
    }
    proof {
        assert(data@.skip(n as int) =~= Seq::<u8>::empty());
    }
    true
}

} // verus!
