use vstd::prelude::*;
use crate::event::{Event, InternalEvent};
use crate::laws::complete_sequence;
use crate::parse::{IncrementalParser, ParseOutcome};

verus! {

/// A parameter byte of a control sequence: digits, `;` and their neighbours.
pub open spec fn is_param_byte(b: u8) -> bool {
    0x30 <= b <= 0x3f
}

/// A final byte of a control sequence: the letter-range byte that terminates
/// it and names its meaning.
pub open spec fn is_final_byte(b: u8) -> bool {
    0x40 <= b <= 0x7e
}

/// The value of a run of decimal digits, accumulated left to right modulo
/// 65536 (the width of the fields it is reported in); bytes that are not
/// digits contribute nothing.
pub open spec fn dec_val(s: Seq<u8>) -> int
    decreases s.len(),
{
    if s.len() == 0 {
        0
    } else {
        let d: int = if 0x30 <= s.last() <= 0x39 {
            s.last() - 0x30
        } else {
            0
        };
        (dec_val(s.drop_last()) * 10 + d) % 65536
    }
}

/// The index of the first `;` in `s` at or after `k`, or `s.len()` when
/// there is none.
pub open spec fn first_semi(s: Seq<u8>, k: int) -> int
    decreases s.len() - k,
{
    if k < 0 || k >= s.len() {
        s.len() as int
    } else if s[k] == 0x3b {
        k
    } else {
        first_semi(s, k + 1)
    }
}

/// The event a complete control sequence decodes to, from its parameter
/// bytes and its final byte: a cursor-position report `<first>;<second>R`
/// becomes `CursorPosition`, any other final byte is forwarded as the key it
/// names.
pub open spec fn csi_event(params: Seq<u8>, fin: u8) -> InternalEvent {
    if fin == 0x52 {
        let m = first_semi(params, 0);
        let rest_start: int = if m < params.len() {
            m + 1
        } else {
            m
        };
        InternalEvent::CursorPosition(
            dec_val(params.subrange(0, m)) as u16,
            dec_val(params.subrange(rest_start, params.len() as int)) as u16,
        )
    } else {
        InternalEvent::Event(Event::Key(fin))
    }
}

/// Scans the bytes of a control sequence from index `k` (the first byte
/// after `ESC [`): parameter bytes extend the sequence, a final byte
/// completes it, anything else rejects it, and running out of bytes means it
/// is not finished yet.
pub open spec fn csi_scan(s: Seq<u8>, k: int) -> ParseOutcome
    decreases s.len() - k,
{
    if k < 0 || k >= s.len() {
        ParseOutcome::Incomplete
    } else if is_param_byte(s[k]) {
        csi_scan(s, k + 1)
    } else if is_final_byte(s[k]) {
        ParseOutcome::Parsed(csi_event(s.subrange(2, k), s[k]))
    } else {
        ParseOutcome::Invalid
    }
}

/// The whole grammar: a plain byte below 0x80 is a key press by itself; a
/// lone escape is a sequence opener while more bytes may still come, and the
/// escape key once no more can; `ESC [` opens a control sequence, scanned by
/// `csi_scan`; everything else is invalid.
pub open spec fn spec_parse(s: Seq<u8>, more: bool) -> ParseOutcome {
    if s.len() == 0 {
        ParseOutcome::Incomplete
    } else if s[0] != 0x1b {
        if s[0] < 0x80 {
            ParseOutcome::Parsed(InternalEvent::Event(Event::Key(s[0])))
        } else {
            ParseOutcome::Invalid
        }
    } else if s.len() == 1 {
        if more {
            ParseOutcome::Incomplete
        } else {
            ParseOutcome::Parsed(InternalEvent::Event(Event::Key(0x1b)))
        }
    } else if s[1] != 0x5b {
        ParseOutcome::Invalid
    } else {
        csi_scan(s, 2)
    }
}

/// The decimal accumulator stays in the field it is reported in.
pub proof fn lemma_dec_val_range(s: Seq<u8>)
    ensures
        0 <= dec_val(s) < 65536,
    decreases s.len(),
{
    if s.len() == 0 {
    } else {
        lemma_dec_val_range(s.drop_last());
    }
}

/// Reads the decimal number in `bytes[start..end]`, exactly as `dec_val`
/// values it.
fn dec_val_exec(bytes: &[u8], start: usize, end: usize) -> (r: u16)
    requires
        start <= end <= bytes@.len(),
    ensures
        r as int == dec_val(bytes@.subrange(start as int, end as int)),
{
    let mut acc: u32 = 0;
    let mut k: usize = start;
    while k < end
        invariant
            start <= k <= end <= bytes@.len(),
            acc < 65536,
            acc as int == dec_val(bytes@.subrange(start as int, k as int)),
        decreases end - k,
    {
        let b = bytes[k];
        let d: u32 = if 0x30 <= b && b <= 0x39 {
            (b - 0x30) as u32
        } else {
            0
        };
        proof {
            let pre = bytes@.subrange(start as int, k as int);
            let post = bytes@.subrange(start as int, k + 1 as int);
            assert(post.drop_last() =~= pre);
            assert(post.last() == bytes@[k as int]);
        }
        acc = (acc * 10 + d) % 65536;
        k += 1;
    }
    proof {
        if start == end {
            assert(bytes@.subrange(start as int, end as int).len() == 0);
        }
    }
    acc as u16
}

/// The terminal grammar used by this source, as an incremental parser. A
/// drop-in replacement only needs to implement the same trait.
pub struct AnsiParser;

impl IncrementalParser for AnsiParser {
    open spec fn outcome(&self, bytes: Seq<u8>, more: bool) -> ParseOutcome {
        spec_parse(bytes, more)
    }

    fn parse(&self, bytes: &[u8], more: bool) -> (r: ParseOutcome) {
        let n = bytes.len();
        if n == 0 {
            return ParseOutcome::Incomplete;
        }
        let b0 = bytes[0];
        if b0 != 0x1b {
            if b0 < 0x80 {
                return ParseOutcome::Parsed(InternalEvent::Event(Event::Key(b0)));
            }
            return ParseOutcome::Invalid;
        }
        if n == 1 {
            if more {
                return ParseOutcome::Incomplete;
            }
            return ParseOutcome::Parsed(InternalEvent::Event(Event::Key(0x1b)));
        }
        if bytes[1] != 0x5b {
            return ParseOutcome::Invalid;
        }
        let mut k: usize = 2;
        while k < n
            invariant
                2 <= k <= n,
                n == bytes@.len(),
                bytes@[0] == 0x1b,
                bytes@[1] == 0x5b,
                csi_scan(bytes@, 2) == csi_scan(bytes@, k as int),
            decreases n - k,
        {
            let b = bytes[k];
            if 0x30 <= b && b <= 0x3f {
                proof {
                    assert(csi_scan(bytes@, k as int) == csi_scan(bytes@, k + 1 as int));
                }
                k += 1;
            } else if 0x40 <= b && b <= 0x7e {
                let ev = csi_event_exec(bytes, k, b);
                return ParseOutcome::Parsed(ev);
            } else {
                return ParseOutcome::Invalid;
            }
        }
        ParseOutcome::Incomplete
    }
}

/// Decodes the complete control sequence whose parameter bytes are
/// `bytes[2..end]` and whose final byte is `fin`, exactly as `csi_event`
/// describes it.
fn csi_event_exec(bytes: &[u8], end: usize, fin: u8) -> (ev: InternalEvent)
    requires
        2 <= end <= bytes@.len(),
    ensures
        ev == csi_event(bytes@.subrange(2, end as int), fin),
{
    let ghost params = bytes@.subrange(2, end as int);
    if fin == 0x52 {
        let mut m: usize = 2;
        while m < end && bytes[m] != 0x3b
            invariant
                2 <= m <= end <= bytes@.len(),
                params == bytes@.subrange(2, end as int),
                first_semi(params, 0) == first_semi(params, m - 2),
            decreases end - m,
        {
            proof {
                assert(params[m - 2] == bytes@[m as int]);
                assert(first_semi(params, m - 2) == first_semi(params, m - 1));
            }
            m += 1;
        }
        proof {
            if m == end {
                assert(first_semi(params, m - 2) == params.len());
            } else {
                assert(params[m - 2] == bytes@[m as int]);
                assert(first_semi(params, m - 2) == m - 2);
            }
            lemma_dec_val_range(params.subrange(0, first_semi(params, 0)));
        }
        let x = dec_val_exec(bytes, 2, m);
        let y = if m < end {
            dec_val_exec(bytes, m + 1, end)
        } else {
            dec_val_exec(bytes, end, end)
        };
        proof {
            let fs = first_semi(params, 0);
            assert(params.subrange(0, fs) =~= bytes@.subrange(2, m as int));
            let rest_start: int = if fs < params.len() {
                fs + 1
            } else {
                fs
            };
            if m < end {
                assert(params.subrange(rest_start, params.len() as int) =~= bytes@.subrange(
                    m + 1 as int,
                    end as int,
                ));
            } else {
                assert(params.subrange(rest_start, params.len() as int) =~= bytes@.subrange(
                    end as int,
                    end as int,
                ));
            }
            lemma_dec_val_range(params.subrange(rest_start, params.len() as int));
        }
        InternalEvent::CursorPosition(x, y)
    } else {
        InternalEvent::Event(Event::Key(fin))
    }
}

/// A control-sequence scan over parameter bytes only never finishes.
proof fn lemma_csi_scan_incomplete(s: Seq<u8>, k: int)
    requires
        2 <= k <= s.len(),
        forall|idx: int| k <= idx < s.len() ==> is_param_byte(#[trigger] s[idx]),
    ensures
        csi_scan(s, k) is Incomplete,
    decreases s.len() - k,
{
    if k >= s.len() {
    } else {
        lemma_csi_scan_incomplete(s, k + 1);
    }
}

/// A control-sequence scan over parameter bytes closed by a final byte
/// resolves to the sequence's event.
proof fn lemma_csi_scan_parses(s: Seq<u8>, k: int)
    requires
        2 <= k <= s.len() - 1,
        forall|idx: int| k <= idx < s.len() - 1 ==> is_param_byte(#[trigger] s[idx]),
        is_final_byte(s.last()),
    ensures
        csi_scan(s, k) == ParseOutcome::Parsed(
            csi_event(s.subrange(2, s.len() - 1), s.last()),
        ),
    decreases s.len() - k,
{
    if k == s.len() - 1 {
        assert(!is_param_byte(s[k]) || is_final_byte(s[k]));
        if is_param_byte(s[k]) {
            lemma_csi_scan_incomplete(s, k);
            assert(false) by {
                assert(csi_scan(s, k) is Incomplete);
                assert(k < s.len() && is_param_byte(s[k]));
                assert(csi_scan(s, k) == csi_scan(s, k + 1));
                assert(csi_scan(s, k + 1) == ParseOutcome::Parsed(
                    csi_event(s.subrange(2, k + 1 - 1), s[k + 1 - 1]),
                ));
            }
        }
    } else {
        lemma_csi_scan_parses(s, k + 1);
    }
}

/// A plain byte — below 0x80 and not the escape — is a complete sequence of
/// the grammar by itself, decoding to the key it names.
pub proof fn lemma_plain_byte_complete(b: u8)
    requires
        b != 0x1b,
        b < 0x80,
    ensures
        complete_sequence(AnsiParser, seq![b], InternalEvent::Event(Event::Key(b))),
{
    let w = seq![b];
    assert forall|m: bool| AnsiParser.outcome(w, m) == ParseOutcome::Parsed(
        InternalEvent::Event(Event::Key(b)),
    ) by {
        assert(w[0] == b);
    }
}

/// A byte at or above 0x80 is rejected outright, whatever the hint says.
pub proof fn lemma_high_byte_invalid(b: u8)
    requires
        b >= 0x80,
    ensures
        forall|m: bool| AnsiParser.outcome(seq![b], m) is Invalid,
{
    assert forall|m: bool| AnsiParser.outcome(seq![b], m) is Invalid by {
        assert(seq![b][0] == b);
    }
}

/// A whole control sequence — escape, `[`, parameter bytes, one final byte —
/// is a complete sequence of the grammar: it decodes to its event whatever
/// the hint says, and every proper prefix stays incomplete while more bytes
/// may come.
pub proof fn lemma_control_sequence_complete(w: Seq<u8>)
    requires
        w.len() >= 3,
        w[0] == 0x1b,
        w[1] == 0x5b,
        forall|k: int| 2 <= k < w.len() - 1 ==> is_param_byte(#[trigger] w[k]),
        is_final_byte(w.last()),
    ensures
        complete_sequence(AnsiParser, w, csi_event(w.subrange(2, w.len() - 1), w.last())),
{
    let ev = csi_event(w.subrange(2, w.len() - 1), w.last());
    assert forall|m: bool| AnsiParser.outcome(w, m) == ParseOutcome::Parsed(ev) by {
        lemma_csi_scan_parses(w, 2);
    }
    assert forall|j: int| 1 <= j < w.len() implies #[trigger] AnsiParser.outcome(
        w.subrange(0, j),
        true,
    ) is Incomplete by {
        let pj = w.subrange(0, j);
        if j == 1 {
            assert(pj[0] == 0x1b);
        } else {
            assert(pj[0] == 0x1b && pj[1] == 0x5b);
            assert forall|idx: int| 2 <= idx < pj.len() implies is_param_byte(
                #[trigger] pj[idx],
            ) by {
                assert(pj[idx] == w[idx]);
            }
            lemma_csi_scan_incomplete(pj, 2);
        }
    }
}

} // verus!
