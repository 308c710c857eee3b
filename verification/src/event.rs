//! The events of a walk through a markdown document, as far as the
//! conversion reads them.

use vstd::prelude::*;

verus! {

/// How a document gives the destination of a link or the source of an
/// image.
#[derive(Debug, Clone, Copy, PartialEq, Eq)]
pub enum LinkKind {
    /// On the spot, as in `[text](url)`.
    Inline,
    /// By a label that the document defines elsewhere, as in
    /// `[text][label]`.
    Reference,
    /// By a label, as in `[text][label]`, that the document does not
    /// define.
    ReferenceUnknown,
    /// By its own text as a label, as in `[text][]`.
    Collapsed,
    /// By its own text as a label, as in `[text][]`, that the document does
    /// not define.
    CollapsedUnknown,
    /// By its own text as a label, as in `[text]`.
    Shortcut,
    /// By its own text as a label, as in `[text]`, that the document does
    /// not define.
    ShortcutUnknown,
    /// As an address between angle brackets, as in `<http://example.org>`.
    Autolink,
    /// As an e-mail address between angle brackets.
    Email,
}

impl LinkKind {
    /// Tells whether the destination is given on the spot.
    pub fn is_inline(&self) -> (inline: bool)
        ensures
            inline == (*self == LinkKind::Inline),
    {
        match self {
            LinkKind::Inline => true,
            _ => false,
        }
    }
}

/// An element that can contain other elements.
#[derive(Debug, Clone, PartialEq, Eq)]
pub enum Element {
    /// A paragraph of text and other inline elements.
    Paragraph,
    /// A heading of the given level, 1 for the outermost.
    Heading(u32),
    /// A block quote.
    BlockQuote,
    /// A block of code.
    CodeBlock,
    /// A list. For an ordered list the field holds the number of its first
    /// item.
    List(Option<u64>),
    /// An item of a list.
    Item,
    /// The definition of a footnote.
    FootnoteDefinition,
    /// A table.
    Table,
    /// The head of a table.
    TableHead,
    /// A row of a table.
    TableRow,
    /// A cell of a table.
    TableCell,
    /// Emphasized text.
    Emphasis,
    /// Strongly emphasized text.
    Strong,
    /// Text that is struck through.
    Strikethrough,
    /// A link to `url`.
    Link { kind: LinkKind, url: String },
    /// An image whose source is `url`.
    Image { kind: LinkKind, url: String },
}

/// One step of a walk through a markdown document.
#[derive(Debug, Clone, PartialEq, Eq)]
pub enum Token {
    /// An element begins. What follows up to the matching `End` lies inside
    /// it.
    Start(Element),
    /// An element ends.
    End(Element),
    /// A piece of text.
    Text(String),
    /// An inline code span.
    Code(String),
    /// A piece of HTML.
    Html(String),
    /// A reference to a footnote.
    FootnoteReference,
    /// A line break that the document does not insist on.
    SoftBreak,
    /// A line break that the document insists on.
    HardBreak,
    /// A horizontal rule.
    Rule,
    /// The checkbox of a task list item, which is ticked or not.
    TaskListMarker(bool),
}

/// An event together with the bytes of the document that it covers: those
/// from offset `start` up to, but not including, offset `end`.
#[derive(Debug, Clone, PartialEq, Eq)]
pub struct Spanned {
    pub event: Token,
    pub start: usize,
    pub end: usize,
}

} // verus!
