use vstd::prelude::*;
use crate::event::InternalEvent;

verus! {

/// The three-way answer of an incremental parser asked about a byte prefix.
#[derive(Clone, Copy, Debug, PartialEq, Eq, Structural)]
pub enum ParseOutcome {
    /// The bytes seen so far do not yet form a complete sequence.
    Incomplete,
    /// The bytes decode to exactly this event.
    Parsed(InternalEvent),
    /// The bytes are not a valid sequence and must be discarded.
    Invalid,
}

/// An incremental parser: classifies a byte prefix as incomplete, a decoded
/// event, or invalid, given a hint (`more`) about whether further bytes could
/// still arrive. The driver treats the grammar itself as a black box; it only
/// relies on the answer being a function of the bytes and the hint, which is
/// what `outcome` captures.
pub trait IncrementalParser: Sized {
    /// The parser's decision on `bytes` under hint `more`.
    spec fn outcome(&self, bytes: Seq<u8>, more: bool) -> ParseOutcome;

    /// Classifies `bytes` under hint `more`.
    fn parse(&self, bytes: &[u8], more: bool) -> (r: ParseOutcome)
        ensures
            r == self.outcome(bytes@, more),
    ;
}

} // verus!
