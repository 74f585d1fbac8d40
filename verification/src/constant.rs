//! Limits that the grammar sets, and the bytes that it names.

use vstd::prelude::*;

verus! {

/// The most bytes that may stand between the brackets of a label.
///
/// A line ending inside a label, and the indent of the line after it, are
/// not counted.
pub const LINK_REFERENCE_SIZE_MAX: usize = 999;

/// A horizontal tab.
pub const TAB: u8 = 9;

/// A line feed, the line ending.
pub const LINE_FEED: u8 = 10;

/// A space.
pub const SPACE: u8 = 32;

/// `[`.
pub const LEFT_SQUARE_BRACKET: u8 = 91;

/// `\`.
pub const BACKSLASH: u8 = 92;

/// `]`.
pub const RIGHT_SQUARE_BRACKET: u8 = 93;

} // verus!
