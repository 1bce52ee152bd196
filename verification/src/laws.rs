use vstd::prelude::*;
use crate::driver::{drive, more_flag, scan_from};
use crate::event::InternalEvent;
use crate::parse::{IncrementalParser, ParseOutcome};

verus! {

/// `w` is a complete, well-formed input sequence for parser `p` decoding to
/// `ev`: the parser decodes the whole of `w` to `ev` whatever the more-bytes
/// hint says, and holds every proper prefix incomplete as long as more bytes
/// may still come. (A proper prefix may well decode differently once no more
/// bytes can arrive — a lone escape is the escape key then — which is
/// exactly why the driver threads the hint through.)
pub open spec fn complete_sequence<P: IncrementalParser>(
    p: P,
    w: Seq<u8>,
    ev: InternalEvent,
) -> bool {
    &&& w.len() >= 1
    &&& forall|m: bool| p.outcome(w, m) == ParseOutcome::Parsed(ev)
    &&& forall|j: int| 1 <= j < w.len() ==> #[trigger] p.outcome(w.subrange(0, j), true) is Incomplete
}

/// Bytes a pass run with hint `ma` leaves untouched: every proper prefix is
/// incomplete while more bytes may come, and the whole of `r` is incomplete
/// under the pass's own hint.
pub open spec fn all_incomplete_under<P: IncrementalParser>(p: P, r: Seq<u8>, ma: bool) -> bool {
    &&& forall|j: int| 1 <= j < r.len() ==> #[trigger] p.outcome(r.subrange(0, j), true) is Incomplete
    &&& r.len() >= 1 ==> p.outcome(r, ma) is Incomplete
}

/// The concatenation of a list of byte sequences, in order.
pub open spec fn concat_all(ws: Seq<Seq<u8>>) -> Seq<u8>
    decreases ws.len(),
{
    if ws.len() == 0 {
        Seq::empty()
    } else {
        ws.first() + concat_all(ws.drop_first())
    }
}

/// `ws` is a stream of complete sequences decoding, in order, to `evs`.
pub open spec fn complete_stream<P: IncrementalParser>(
    p: P,
    ws: Seq<Seq<u8>>,
    evs: Seq<InternalEvent>,
) -> bool {
    &&& ws.len() == evs.len()
    &&& forall|a: int| 0 <= a < ws.len() ==> complete_sequence(p, #[trigger] ws[a], evs[a])
}

/// What a whole sequence of reads delivers: each chunk in turn is appended to
/// the leftover of the passes before it and run through one pass. Every pass
/// but the last sees the hint that more input is already waiting — it is, the
/// next chunk — and the last sees `ma_last`.
pub open spec fn drive_chunks<P: IncrementalParser>(
    p: P,
    chunks: Seq<Seq<u8>>,
    carry: Seq<u8>,
    ma_last: bool,
) -> (Seq<InternalEvent>, Seq<u8>)
    decreases chunks.len(),
{
    if chunks.len() == 0 {
        (Seq::empty(), carry)
    } else {
        let ma = if chunks.len() == 1 {
            ma_last
        } else {
            true
        };
        let step = drive(p, carry + chunks.first(), ma);
        let rest = drive_chunks(p, chunks.drop_first(), step.1, ma_last);
        (step.0 + rest.0, rest.1)
    }
}

/// A scan over bytes whose every prefix is incomplete under the hints the
/// scan uses finds nothing.
proof fn lemma_scan_none<P: IncrementalParser>(p: P, s: Seq<u8>, ma: bool, i: int)
    requires
        1 <= i,
        forall|j: int|
            i <= j <= s.len() ==> #[trigger] p.outcome(
                s.subrange(0, j),
                more_flag(j, s.len() as int, ma),
            ) is Incomplete,
    ensures
        scan_from(p, s, ma, i) is None,
    decreases s.len() - i + 1,
{
    if i > s.len() {
    } else {
        lemma_scan_none(p, s, ma, i + 1);
    }
}

/// A scan started at `i` lands exactly on `t` when every prefix strictly
/// between is incomplete and the prefix of length `t` resolves.
proof fn lemma_scan_finds<P: IncrementalParser>(p: P, s: Seq<u8>, ma: bool, i: int, t: int)
    requires
        1 <= i <= t <= s.len(),
        forall|j: int|
            i <= j < t ==> #[trigger] p.outcome(
                s.subrange(0, j),
                more_flag(j, s.len() as int, ma),
            ) is Incomplete,
        !(p.outcome(s.subrange(0, t), more_flag(t, s.len() as int, ma)) is Incomplete),
    ensures
        scan_from(p, s, ma, i) == Some(t),
    decreases t - i,
{
    if i == t {
    } else {
        lemma_scan_finds(p, s, ma, i + 1, t);
    }
}

/// One pass over a stream of complete sequences followed by a tail the pass
/// must leave alone delivers exactly the stream's events, in order, and
/// leaves exactly the tail buffered.
pub proof fn lemma_drive_stream<P: IncrementalParser>(
    p: P,
    ws: Seq<Seq<u8>>,
    evs: Seq<InternalEvent>,
    r: Seq<u8>,
    ma: bool,
)
    requires
        complete_stream(p, ws, evs),
        all_incomplete_under(p, r, ma),
    ensures
        drive(p, concat_all(ws) + r, ma) == (evs, r),
    decreases ws.len(),
{
    let s = concat_all(ws) + r;
    if ws.len() == 0 {
        assert(s =~= r);
        assert forall|j: int| 1 <= j <= s.len() implies #[trigger] p.outcome(
            s.subrange(0, j),
            more_flag(j, s.len() as int, ma),
        ) is Incomplete by {
            if j < s.len() {
                assert(s.subrange(0, j) == r.subrange(0, j));
            } else {
                assert(s.subrange(0, j) =~= r);
            }
        }
        lemma_scan_none(p, s, ma, 1);
        assert(evs =~= Seq::<InternalEvent>::empty());
    } else {
        let w0 = ws.first();
        let ev0 = evs.first();
        assert(complete_sequence(p, w0, ev0));
        let t = w0.len() as int;
        let tail = concat_all(ws.drop_first()) + r;
        assert(s =~= w0 + tail);
        assert forall|j: int| 1 <= j < t implies #[trigger] p.outcome(
            s.subrange(0, j),
            more_flag(j, s.len() as int, ma),
        ) is Incomplete by {
            assert(s.subrange(0, j) =~= w0.subrange(0, j));
            assert(more_flag(j, s.len() as int, ma) == true);
        }
        assert(s.subrange(0, t) =~= w0);
        assert(p.outcome(s.subrange(0, t), more_flag(t, s.len() as int, ma))
            == ParseOutcome::Parsed(ev0));
        lemma_scan_finds(p, s, ma, 1, t);
        assert forall|a: int| 0 <= a < ws.drop_first().len() implies complete_sequence(
            p,
            #[trigger] ws.drop_first()[a],
            evs.drop_first()[a],
        ) by {
            assert(ws.drop_first()[a] == ws[a + 1]);
            assert(evs.drop_first()[a] == evs[a + 1]);
        }
        lemma_drive_stream(p, ws.drop_first(), evs.drop_first(), r, ma);
        assert(s.subrange(t, s.len() as int) =~= tail);
        assert(seq![ev0] + evs.drop_first() =~= evs);
    }
}

/// Round trip in one read: a stream of complete, well-formed sequences,
/// concatenated and handed to one pass, decodes to exactly its events, in
/// order, with nothing left buffered — whatever the more-bytes hint says.
pub proof fn lemma_round_trip<P: IncrementalParser>(
    p: P,
    ws: Seq<Seq<u8>>,
    evs: Seq<InternalEvent>,
    ma: bool,
)
    requires
        complete_stream(p, ws, evs),
    ensures
        drive(p, concat_all(ws), ma) == (evs, Seq::<u8>::empty()),
{
    let r = Seq::<u8>::empty();
    lemma_drive_stream(p, ws, evs, r, ma);
    assert(concat_all(ws) + r =~= concat_all(ws));
}

/// An invalid byte in front of a well-formed stream is discarded exactly,
/// and the stream still decodes to exactly its events.
pub proof fn lemma_invalid_prefix_skipped<P: IncrementalParser>(
    p: P,
    b: u8,
    ws: Seq<Seq<u8>>,
    evs: Seq<InternalEvent>,
    ma: bool,
)
    requires
        forall|m: bool| p.outcome(seq![b], m) is Invalid,
        complete_stream(p, ws, evs),
    ensures
        drive(p, seq![b] + concat_all(ws), ma) == (evs, Seq::<u8>::empty()),
{
    let s = seq![b] + concat_all(ws);
    assert(s.subrange(0, 1) =~= seq![b]);
    lemma_scan_finds(p, s, ma, 1, 1);
    lemma_round_trip(p, ws, evs, ma);
    assert(s.subrange(1, s.len() as int) =~= concat_all(ws));
}

/// One pass over any prefix `s` of a stream of complete sequences — provided
/// more input is known to be coming whenever bytes of the stream remain —
/// delivers the events of the sequences that fit entirely inside `s`, in
/// order, and leaves buffered exactly the started-but-unfinished bytes, which
/// line up with the rest of the stream.
proof fn lemma_drive_prefix<P: IncrementalParser>(
    p: P,
    ws: Seq<Seq<u8>>,
    evs: Seq<InternalEvent>,
    s: Seq<u8>,
    rest: Seq<u8>,
    ma: bool,
)
    requires
        complete_stream(p, ws, evs),
        s + rest == concat_all(ws),
        rest.len() > 0 ==> ma == true,
    ensures
        exists|a: int|
            {
                &&& 0 <= a <= ws.len()
                &&& #[trigger] drive(p, s, ma).0 == evs.subrange(0, a)
                &&& drive(p, s, ma).1 + rest == concat_all(ws.subrange(a, ws.len() as int))
                &&& rest.len() == 0 ==> a == ws.len() && drive(p, s, ma).1.len() == 0
            },
    decreases ws.len(),
{
    if ws.len() == 0 {
        assert(s.len() == 0 && rest.len() == 0);
        assert(scan_from(p, s, ma, 1) is None);
        let a: int = 0;
        assert(s =~= Seq::<u8>::empty());
        assert(ws.subrange(0, ws.len() as int) =~= ws);
        assert(drive(p, s, ma).0 =~= evs.subrange(0, a));
        assert(drive(p, s, ma).1 + rest =~= concat_all(ws.subrange(a, ws.len() as int)));
    } else {
        let w0 = ws.first();
        let ev0 = evs.first();
        assert(complete_sequence(p, w0, ev0));
        let cat_tail = concat_all(ws.drop_first());
        assert(concat_all(ws) == w0 + cat_tail);
        if s.len() < w0.len() {
            // The pass ends inside the first sequence: everything stays
            // buffered.
            assert(rest.len() > 0);
            assert(s =~= w0.subrange(0, s.len() as int)) by {
                assert forall|i: int| 0 <= i < s.len() implies s[i] == w0[i] by {
                    assert((s + rest)[i] == (w0 + cat_tail)[i]);
                }
            }
            assert forall|j: int| 1 <= j <= s.len() implies #[trigger] p.outcome(
                s.subrange(0, j),
                more_flag(j, s.len() as int, ma),
            ) is Incomplete by {
                assert(s.subrange(0, j) =~= w0.subrange(0, j));
                assert(more_flag(j, s.len() as int, ma) == true);
            }
            lemma_scan_none(p, s, ma, 1);
            let a: int = 0;
            assert(drive(p, s, ma).0 =~= evs.subrange(0, a));
            assert(ws.subrange(0, ws.len() as int) =~= ws);
            assert(drive(p, s, ma).1 + rest == concat_all(ws.subrange(a, ws.len() as int)));
        } else {
            // The first sequence fits entirely: it resolves, and the rest of
            // the pass is a pass over the remaining stream.
            let t = w0.len() as int;
            let s2 = s.subrange(t, s.len() as int);
            assert(s.subrange(0, t) =~= w0) by {
                assert forall|i: int| 0 <= i < t implies s.subrange(0, t)[i] == w0[i] by {
                    assert((s + rest)[i] == (w0 + cat_tail)[i]);
                }
            }
            assert forall|j: int| 1 <= j < t implies #[trigger] p.outcome(
                s.subrange(0, j),
                more_flag(j, s.len() as int, ma),
            ) is Incomplete by {
                assert(s.subrange(0, j) =~= w0.subrange(0, j));
                assert(more_flag(j, s.len() as int, ma) == true);
            }
            assert(p.outcome(s.subrange(0, t), more_flag(t, s.len() as int, ma))
                == ParseOutcome::Parsed(ev0));
            lemma_scan_finds(p, s, ma, 1, t);
            assert forall|a: int| 0 <= a < ws.drop_first().len() implies complete_sequence(
                p,
                #[trigger] ws.drop_first()[a],
                evs.drop_first()[a],
            ) by {
                assert(ws.drop_first()[a] == ws[a + 1]);
                assert(evs.drop_first()[a] == evs[a + 1]);
            }
            assert(s2 + rest =~= cat_tail) by {
                assert((s2 + rest).len() == cat_tail.len());
                assert forall|i: int| 0 <= i < cat_tail.len() implies (s2 + rest)[i]
                    == cat_tail[i] by {
                    assert((s + rest)[t + i] == (w0 + cat_tail)[t + i]);
                }
            }
            lemma_drive_prefix(p, ws.drop_first(), evs.drop_first(), s2, rest, ma);
            let a2 = choose|a2: int|
                {
                    &&& 0 <= a2 <= ws.drop_first().len()
                    &&& #[trigger] drive(p, s2, ma).0 == evs.drop_first().subrange(0, a2)
                    &&& drive(p, s2, ma).1 + rest == concat_all(
                        ws.drop_first().subrange(0 + a2, ws.drop_first().len() as int),
                    )
                    &&& rest.len() == 0 ==> a2 == ws.drop_first().len() && drive(
                        p,
                        s2,
                        ma,
                    ).1.len() == 0
                };
            let a = a2 + 1;
            assert(drive(p, s, ma).0 == seq![ev0] + drive(p, s2, ma).0);
            assert(drive(p, s, ma).1 == drive(p, s2, ma).1);
            assert(seq![ev0] + evs.drop_first().subrange(0, a2) =~= evs.subrange(0, a));
            assert(ws.drop_first().subrange(a2, ws.drop_first().len() as int) =~= ws.subrange(
                a,
                ws.len() as int,
            ));
        }
    }
}

/// Round trip under any read-chunking pattern: however a stream of complete,
/// well-formed sequences is cut into successive reads, feeding the chunks
/// through one pass each — carrying unresolved bytes from read to read, with
/// the more-bytes hint true while chunks remain — delivers exactly the
/// stream's events, in order, with nothing left buffered at the end.
pub proof fn lemma_round_trip_chunked<P: IncrementalParser>(
    p: P,
    ws: Seq<Seq<u8>>,
    evs: Seq<InternalEvent>,
    chunks: Seq<Seq<u8>>,
    carry: Seq<u8>,
    ma_last: bool,
)
    requires
        complete_stream(p, ws, evs),
        carry + concat_all(chunks) == concat_all(ws),
        chunks.len() == 0 ==> carry.len() == 0,
    ensures
        drive_chunks(p, chunks, carry, ma_last) == (evs, Seq::<u8>::empty()),
    decreases chunks.len(),
{
    if chunks.len() == 0 {
        assert(concat_all(ws) =~= Seq::<u8>::empty());
        if ws.len() > 0 {
            assert(concat_all(ws).len() >= ws.first().len()) by {
                assert(concat_all(ws) == ws.first() + concat_all(ws.drop_first()));
            }
            assert(false);
        }
        assert(evs =~= Seq::<InternalEvent>::empty());
        assert(drive_chunks(p, chunks, carry, ma_last) == (evs, Seq::<u8>::empty()));
    } else {
        let ma = if chunks.len() == 1 {
            ma_last
        } else {
            true
        };
        let s = carry + chunks.first();
        let rest = concat_all(chunks.drop_first());
        assert(s + rest =~= carry + concat_all(chunks)) by {
            assert(concat_all(chunks) == chunks.first() + rest);
        }
        lemma_drive_prefix(p, ws, evs, s, rest, ma);
        let a = choose|a: int|
            {
                &&& 0 <= a <= ws.len()
                &&& #[trigger] drive(p, s, ma).0 == evs.subrange(0, a)
                &&& drive(p, s, ma).1 + rest == concat_all(ws.subrange(a, ws.len() as int))
                &&& rest.len() == 0 ==> a == ws.len() && drive(p, s, ma).1.len() == 0
            };
        let carry2 = drive(p, s, ma).1;
        let ws2 = ws.subrange(a, ws.len() as int);
        let evs2 = evs.subrange(a, evs.len() as int);
        assert forall|b: int| 0 <= b < ws2.len() implies complete_sequence(
            p,
            #[trigger] ws2[b],
            evs2[b],
        ) by {
            assert(ws2[b] == ws[a + b]);
            assert(evs2[b] == evs[a + b]);
        }
        if chunks.drop_first().len() == 0 {
            assert(rest =~= Seq::<u8>::empty());
            assert(carry2.len() == 0);
        }
        lemma_round_trip_chunked(p, ws2, evs2, chunks.drop_first(), carry2, ma_last);
        assert(evs.subrange(0, a) + evs2 =~= evs);
    }
}

} // verus!
