//! The kinds of span that events delimit.

use vstd::prelude::*;

verus! {

/// What a span of the input is.
#[derive(Clone, Copy, Debug, PartialEq, Eq, Hash, Structural)]
pub enum Token {
    /// Bytes without a meaning of their own.
    Data,
    /// A whole label, brackets included: `[a]`.
    Label,
    /// One bracket of a label: `[` or `]`.
    LabelMarker,
    /// What stands between the brackets of a label: `a`.
    LabelText,
    /// The label of a definition: `[a]` in `[a]: b`.
    DefinitionLabel,
    /// One bracket of a definition's label.
    DefinitionLabelMarker,
    /// What stands between the brackets of a definition's label.
    DefinitionLabelString,
    /// The second, explicit label of a full reference: `[b]` in `[a][b]`.
    Reference,
    /// One bracket of a reference.
    ReferenceMarker,
    /// What stands between the brackets of a reference.
    ReferenceString,
    /// A character escape: `\]`.
    CharacterEscape,
    /// The backslash of a character escape.
    CharacterEscapeMarker,
    /// The escaped byte of a character escape.
    CharacterEscapeValue,
    /// A line ending.
    LineEnding,
    /// A run of spaces and tabs.
    SpaceOrTab,
}

} // verus!
