//! Failures of the playlist parser.

use vstd::prelude::*;

verus! {

/// The grammar rule at which parsing stopped.
#[derive(Clone, Copy, PartialEq, Eq, Structural, Debug)]
pub enum GrammarRule {
    /// The `#EXTM3U` header line.
    Header,
    /// A tag prefix such as `#EXT-X-STREAM-INF:`.
    Tag,
    /// A line terminator.
    LineEnding,
    /// A line's content; a bare carriage return is refused here.
    Line,
    /// An attribute key.
    Key,
    /// The `=` between a key and its value.
    KeyValue,
    /// A double-quoted attribute value.
    QuotedValue,
    /// An unquoted attribute value.
    UnquotedValue,
    /// The URI line of a stream variant.
    Uri,
}

/// Why a playlist failed to parse.
#[derive(Debug)]
pub enum PlaylistError {
    /// The input did not match the grammar: the unconsumed input from the
    /// point of failure, and the rule that failed there.
    ParseError { remaining: Vec<u8>, rule: GrammarRule },
    /// The input ended before the named construct was complete.
    Incomplete { expected: GrammarRule },
}

/// An internal parse fault: where it happened, what failed, and whether the
/// input simply ran out there.
pub(crate) struct Fault {
    pub at: usize,
    pub rule: GrammarRule,
    pub incomplete: bool,
}

} // verus!
