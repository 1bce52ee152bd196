use vstd::prelude::*;

verus! {

/// A decoded user-facing terminal event.
#[derive(Clone, Copy, Debug, PartialEq, Eq, Structural)]
pub enum Event {
    /// A single decoded key press, carrying the byte that names the key.
    Key(u8),
    /// The terminal was resized to (columns, rows).
    Resize(u16, u16),
}

/// The unit delivered by the event source: either a user-facing event, or a
/// parser-internal reply that this layer forwards unchanged.
#[derive(Clone, Copy, Debug, PartialEq, Eq, Structural)]
pub enum InternalEvent {
    /// A fully decoded user-facing event.
    Event(Event),
    /// A cursor-position report decoded from a control-sequence reply,
    /// carrying the report's two numeric fields in the order they appeared;
    /// delivered as-is for the layer above to interpret.
    CursorPosition(u16, u16),
}

} // verus!
