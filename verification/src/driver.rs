use vstd::prelude::*;
use vstd::slice::slice_subrange;
use std::collections::VecDeque;
use crate::buffer::TtyBuffer;
use crate::event::InternalEvent;
use crate::parse::{IncrementalParser, ParseOutcome};

verus! {

/// The hint handed to the parser for a candidate prefix of length `i` out of
/// `len` buffered bytes: more bytes can follow the prefix if the prefix is
/// not yet the whole buffered region, or if the terminal reported that more
/// input is already waiting (`more_available`).
pub open spec fn more_flag(i: int, len: int, more_available: bool) -> bool {
    i < len || more_available
}

/// The length of the shortest prefix of `s`, of length at least `i`, that the
/// parser resolves (parses or rejects), or `None` when every prefix from `i`
/// up to the whole of `s` is still incomplete.
pub open spec fn scan_from<P: IncrementalParser>(p: P, s: Seq<u8>, ma: bool, i: int) -> Option<int>
    decreases s.len() - i + 1,
{
    if i < 1 || i > s.len() {
        None
    } else if !(p.outcome(s.subrange(0, i), more_flag(i, s.len() as int, ma)) is Incomplete) {
        Some(i)
    } else {
        scan_from(p, s, ma, i + 1)
    }
}

/// What one driver pass over buffered bytes `s` produces: the sequence of
/// events decoded (in order), and the unresolved trailing bytes left
/// buffered. Each step resolves the shortest resolvable prefix: a parsed
/// prefix contributes its event, an invalid prefix is discarded, and the scan
/// restarts on the remainder; the pass stops when everything left is still
/// incomplete.
pub open spec fn drive<P: IncrementalParser>(p: P, s: Seq<u8>, ma: bool) -> (Seq<InternalEvent>, Seq<u8>)
    decreases s.len(),
{
    match scan_from(p, s, ma, 1) {
        None => (Seq::empty(), s),
        Some(i) => if 1 <= i <= s.len() {
            let rest = drive(p, s.subrange(i, s.len() as int), ma);
            match p.outcome(s.subrange(0, i), more_flag(i, s.len() as int, ma)) {
                ParseOutcome::Parsed(ev) => (seq![ev] + rest.0, rest.1),
                _ => rest,
            }
        } else {
            (Seq::empty(), s)
        },
    }
}

/// Finds the shortest prefix of the live region `[head, head + avail)` of
/// `buf` that the parser resolves, together with the parser's answer for it;
/// `None` when even the whole region is still incomplete.
fn scan_prefix<P: IncrementalParser>(
    buf: &Vec<u8>,
    head: usize,
    avail: usize,
    parser: &P,
    more_available: bool,
) -> (r: Option<(usize, ParseOutcome)>)
    requires
        head + avail <= buf.len(),
        avail < usize::MAX,
    ensures
        ({
            let s = buf@.subrange(head as int, head + avail);
            match r {
                None => scan_from(*parser, s, more_available, 1) is None,
                Some((i, out)) => {
                    &&& 1 <= i <= avail
                    &&& scan_from(*parser, s, more_available, 1) == Some(i as int)
                    &&& out == parser.outcome(
                        s.subrange(0, i as int),
                        more_flag(i as int, avail as int, more_available),
                    )
                    &&& !(out is Incomplete)
                },
            }
        }),
{
    let ghost s = buf@.subrange(head as int, head + avail);
    proof {
        assert(s.len() == avail);
    }
    let mut i: usize = 1;
    while i <= avail
        invariant
            head + avail <= buf.len(),
            avail < usize::MAX,
            1 <= i <= avail + 1,
            s == buf@.subrange(head as int, head + avail),
            s.len() == avail,
            scan_from(*parser, s, more_available, 1) == scan_from(
                *parser,
                s,
                more_available,
                i as int,
            ),
        decreases avail + 1 - i,
    {
        let more = i < avail || more_available;
        let piece = slice_subrange(buf.as_slice(), head, head + i);
        proof {
            assert(piece@ =~= s.subrange(0, i as int));
        }
        let r = parser.parse(piece, more);
        match r {
            ParseOutcome::Incomplete => {
                proof {
                    assert(scan_from(*parser, s, more_available, i as int) == scan_from(
                        *parser,
                        s,
                        more_available,
                        i + 1,
                    ));
                }
                i += 1;
            },
            _ => {
                return Some((i, r));
            },
        }
    }
    proof {
        assert(scan_from(*parser, s, more_available, avail + 1 as int) is None);
    }
    None
}

impl TtyBuffer {
    /// One driver pass: starting from the unresolved bytes, repeatedly
    /// resolve the shortest resolvable prefix — appending each decoded event
    /// to `out`, silently discarding each invalid prefix — until everything
    /// left is incomplete. Exactly the events and leftover that `drive`
    /// ascribes to the buffered bytes are produced; the bytes themselves are
    /// not moved, only the cursors advance.
    pub fn run_pass<P: IncrementalParser>(
        &mut self,
        parser: &P,
        more_available: bool,
        out: &mut VecDeque<InternalEvent>,
    )
        requires
            old(self).wf(),
        ensures
            final(self).wf(),
            final(self).buf@ == old(self).buf@,
            final(self).head >= old(self).head,
            final(self).head + final(self).pending == old(self).head + old(self).pending,
            final(out)@ == old(out)@ + drive(
                *parser,
                old(self).pending_bytes(),
                more_available,
            ).0,
            final(self).pending_bytes() == drive(
                *parser,
                old(self).pending_bytes(),
                more_available,
            ).1,
    {
        let ghost s0 = old(self).pending_bytes();
        let ghost d0 = drive(*parser, s0, more_available);
        let ghost mut produced: Seq<InternalEvent> = Seq::empty();
        proof {
            assert(old(out)@ + produced =~= old(out)@);
        }
        loop
            invariant
                self.wf(),
                self.buf@ == old(self).buf@,
                self.head >= old(self).head,
                self.head + self.pending == old(self).head + old(self).pending,
                out@ == old(out)@ + produced,
                d0 == drive(*parser, s0, more_available),
                d0.0 == produced + drive(*parser, self.pending_bytes(), more_available).0,
                d0.1 == drive(*parser, self.pending_bytes(), more_available).1,
            ensures
                self.wf(),
                self.buf@ == old(self).buf@,
                self.head >= old(self).head,
                self.head + self.pending == old(self).head + old(self).pending,
                out@ == old(out)@ + d0.0,
                self.pending_bytes() == d0.1,
            decreases self.pending,
        {
            let ghost cur = self.pending_bytes();
            if self.pending == 0 {
                proof {
                    assert(cur.len() == 0);
                    assert(scan_from(*parser, cur, more_available, 1) is None);
                    assert(drive(*parser, cur, more_available) == (
                        Seq::<InternalEvent>::empty(),
                        cur,
                    ));
                    assert(produced + Seq::<InternalEvent>::empty() =~= produced);
                }
                break;
            }
            match scan_prefix(&self.buf, self.head, self.pending, parser, more_available) {
                None => {
                    proof {
                        assert(drive(*parser, cur, more_available) == (
                            Seq::<InternalEvent>::empty(),
                            cur,
                        ));
                        assert(produced + Seq::<InternalEvent>::empty() =~= produced);
                    }
                    break;
                },
                Some((i, outcome)) => {
                    let ghost tail = cur.subrange(i as int, cur.len() as int);
                    let ghost dtail = drive(*parser, tail, more_available);
                    match outcome {
                        ParseOutcome::Parsed(ev) => {
                            out.push_back(ev);
                            proof {
                                assert(drive(*parser, cur, more_available) == (
                                    seq![ev] + dtail.0,
                                    dtail.1,
                                ));
                                produced = produced + seq![ev];
                                assert(old(out)@ + (produced) =~= (old(out)@
                                    + produced.drop_last()) + seq![ev]);
                                assert((produced.drop_last()) + (seq![ev] + dtail.0) =~= produced
                                    + dtail.0);
                            }
                        },
                        _ => {
                            proof {
                                assert(drive(*parser, cur, more_available) == dtail);
                            }
                        },
                    }
                    self.head = self.head + i;
                    self.pending = self.pending - i;
                    proof {
                        assert(self.pending_bytes() =~= tail);
                    }
                },
            }
        }
    }
}

} // verus!
