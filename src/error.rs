use vstd::prelude::*;

verus! {

/// The one way a parse can fail: the text is not a well-formed table.
#[derive(Debug, PartialEq, Eq, Structural)]
pub enum Error {
    /// A record has a different number of fields than the first record,
    /// or two values stand next to each other with no delimiter between them.
    Parse,
}

/// Result type of the parsing functions.
pub type Result<T> = core::result::Result<T, Error>;

} // verus!
