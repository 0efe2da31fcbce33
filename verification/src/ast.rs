//! The document model shared by the parser and the renderer.
//!
//! A `Document` is an ordered sequence of `Block`s. The set of block variants
//! is a closed contract between the two stages: the parser only ever produces
//! blocks that the renderer supports, which `block_supported` makes precise.

use vstd::prelude::*;

verus! {

/// A single structural unit of a document.
///
/// - `Paragraph(text)`: one line of plain text.
/// - `Heading(level, text)`: a heading; the renderer supports levels 1
///   through 6, which is also the only range the parser produces.
/// - `Code(text)`: the contents of a fenced code block, inner lines joined
///   by `'\n'`.
#[derive(Clone, Debug, PartialEq)]
pub enum Block {
    Paragraph(String),
    Heading(u8, String),
    Code(String),
}

/// The mathematical model of a `Block`: its text as a sequence of
/// characters, and a heading level as an unbounded integer.
pub enum BlockView {
    Paragraph { text: Seq<char> },
    Heading { level: int, text: Seq<char> },
    Code { text: Seq<char> },
}

impl View for Block {
    type V = BlockView;

    open spec fn view(&self) -> BlockView {
        match self {
            Block::Paragraph(t) => BlockView::Paragraph { text: t@ },
            Block::Heading(l, t) => BlockView::Heading { level: *l as int, text: t@ },
            Block::Code(t) => BlockView::Code { text: t@ },
        }
    }
}

/// The root of a parsed document: an ordered sequence of blocks.
#[derive(Clone, Debug, PartialEq)]
pub struct Document {
    pub blocks: Vec<Block>,
}

impl View for Document {
    type V = Seq<BlockView>;

    open spec fn view(&self) -> Seq<BlockView> {
        self.blocks@.map_values(|b: Block| b@)
    }
}

/// Whether the renderer's fixed output mapping is defined for this block.
/// Only headings can fall outside of it: their level must lie in 1..=6.
pub open spec fn block_supported(b: BlockView) -> bool {
    match b {
        BlockView::Heading { level, .. } => 1 <= level <= 6,
        _ => true,
    }
}

/// Whether every block of the sequence is supported by the renderer.
pub open spec fn doc_supported(bs: Seq<BlockView>) -> bool {
    forall|j: int| 0 <= j < bs.len() ==> block_supported(#[trigger] bs[j])
}

} // verus!
