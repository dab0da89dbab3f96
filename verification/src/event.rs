//! The event language the layout engine consumes.
//!
//! A tokenizer turns markup source into an ordered, finite sequence of these
//! structural events; the engine never sees the source text itself.

use vstd::prelude::*;
use crate::style::Style;

verus! {

/// A break between pieces of content.
#[derive(Clone, Copy, Debug, PartialEq, Eq, Structural)]
pub enum Break {
    /// A soft break between words: becomes a single space unless a line
    /// starts here.
    Word,
    /// A hard line break: ends the current line.
    Line,
    /// A paragraph boundary: ends the line and leaves a vertical gap.
    Paragraph,
    /// An explicit page break.
    Page,
    /// A thematic break, drawn as a horizontal rule.
    HorizontalRule,
}

/// The kind of a block-level scope.
#[derive(Clone, Copy, Debug, PartialEq, Eq, Structural)]
pub enum BlockTag {
    /// A list container; its items follow as `ListItem` blocks.
    List,
    /// One item of a list, laid out indented with a leading marker.
    ListItem,
    /// A block quote, laid out indented with a leading bar.
    BlockQuote,
    /// A code block; its text keeps its own line breaks.
    CodeBlock,
}

/// One unit of measurable content.
#[derive(Debug)]
pub enum Atom {
    /// A run of text under a set of typographic attributes.
    Text { text: String, style: Style },
    /// A reference to an image by its path.
    Image { uri: String },
}

/// One structural event of the tokenized document.
#[derive(Debug)]
pub enum Event {
    StartBlock(BlockTag),
    EndBlock(BlockTag),
    Break(Break),
    Atom(Atom),
}

} // verus!
