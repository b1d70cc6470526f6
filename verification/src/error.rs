//! The typed errors that extraction and board operations report.

use vstd::prelude::*;

verus! {

/// Everything that can go wrong while extracting a board from markup or
/// while operating on a board.
#[derive(Debug)]
pub enum Error {
    /// An expected structural element (board container, tile style
    /// attribute, ...) is absent; `context` names what was missing.
    MissingElement { context: String },
    /// A style attribute is present but does not contain a
    /// `background-color: rgb(r, g, b)` declaration.
    MalformedColor { raw_text: String },
    /// A colour channel substring is not a valid integer in `[0, 255]`.
    InvalidChannelValue { raw_text: String },
    /// A board operation referenced a coordinate the board does not hold.
    OutOfBounds,
}

} // verus!
