//! The renderer: a `Document` in, plain text (or a structured `RenderError`) out.
//!
//! The output mapping is fixed and documented per block variant:
//! - `Paragraph(text)` renders as `text` itself;
//! - `Heading(level, text)` renders as `level` `'#'`s, one space, and `text`,
//!   and is supported only for levels 1 through 6;
//! - `Code(text)` renders as `text` itself.
//!
//! A document renders as the concatenation of its blocks' renderings, in
//! document order, with nothing in between: each block's rendering stands
//! immediately before the next one's. A document holding a heading with a
//! level outside 1..=6 fails with `UnsupportedBlockKind` at the first such
//! block; the parser never produces one (see `parser::lemma_parse_supported`).

use crate::ast::Block;
use crate::ast::BlockView;
use crate::ast::Document;
use crate::ast::block_supported;
use crate::ast::doc_supported;
use crate::parser::ParseError;
use crate::parser::parse_text;
use crate::parser::spec_parse;
use vstd::prelude::*;

verus! {

/// What went wrong during a render.
#[derive(Clone, Copy, Debug, PartialEq, Eq, Structural)]
pub enum RenderErrorKind {
    /// The document holds a block the output mapping is not defined for.
    UnsupportedBlockKind,
}

/// A render failure: its kind and the offending block.
#[derive(Debug, PartialEq)]
pub struct RenderError {
    pub kind: RenderErrorKind,
    pub block: Block,
}

/// The mathematical model of a `RenderError`.
pub struct RenderErrorView {
    pub kind: RenderErrorKind,
    pub block: BlockView,
}

impl View for RenderError {
    type V = RenderErrorView;

    open spec fn view(&self) -> RenderErrorView {
        RenderErrorView { kind: self.kind, block: self.block@ }
    }
}

/// A run of `n` `'#'` characters.
pub open spec fn hash_run(n: int) -> Seq<char>
    decreases n,
{
    if n <= 0 {
        Seq::empty()
    } else {
        hash_run(n - 1).push('#')
    }
}

/// The fixed rendering of one block.
pub open spec fn render_block(b: BlockView) -> Seq<char> {
    match b {
        BlockView::Paragraph { text } => text,
        BlockView::Heading { level, text } => hash_run(level) + seq![' '] + text,
        BlockView::Code { text } => text,
    }
}

/// The rendering of a block sequence: each block's rendering, in order,
/// concatenated with nothing in between.
pub open spec fn render_doc(bs: Seq<BlockView>) -> Seq<char>
    decreases bs.len(),
{
    if bs.len() == 0 {
        Seq::empty()
    } else {
        render_block(bs[0]) + render_doc(bs.drop_first())
    }
}

/// The index of the first unsupported block at or after `from`, or `-1`.
pub open spec fn first_unsupported(bs: Seq<BlockView>, from: int) -> int
    decreases bs.len() - from,
{
    if from < 0 || from >= bs.len() {
        -1
    } else if !block_supported(bs[from]) {
        from
    } else {
        first_unsupported(bs, from + 1)
    }
}

proof fn lemma_first_unsupported_at(bs: Seq<BlockView>, from: int, p: int)
    requires
        0 <= from <= p < bs.len(),
        !block_supported(bs[p]),
        forall|j: int| from <= j < p ==> block_supported(#[trigger] bs[j]),
    ensures
        first_unsupported(bs, from) == p,
    decreases p - from,
{
    if from < p {
        lemma_first_unsupported_at(bs, from + 1, p);
    }
}

proof fn lemma_render_doc_push(bs: Seq<BlockView>, b: BlockView)
    ensures
        render_doc(bs.push(b)) == render_doc(bs) + render_block(b),
    decreases bs.len(),
{
    let p = bs.push(b);
    if bs.len() == 0 {
        assert(p.len() == 1);
        assert(p[0] == b);
        assert(p.drop_first() =~= Seq::<BlockView>::empty());
        assert(render_doc(p) == render_block(b) + render_doc(Seq::<BlockView>::empty()));
        assert(render_doc(Seq::<BlockView>::empty()) == Seq::<char>::empty());
        assert(render_block(b) + Seq::<char>::empty() =~= render_block(b));
        assert(render_doc(bs) == Seq::<char>::empty());
        assert(Seq::<char>::empty() + render_block(b) =~= render_block(b));
    } else {
        assert(p.len() == bs.len() + 1);
        assert(p[0] == bs[0]);
        assert(p.drop_first() =~= bs.drop_first().push(b));
        lemma_render_doc_push(bs.drop_first(), b);
        assert(render_doc(p) == render_block(bs[0]) + render_doc(p.drop_first()));
        assert(render_doc(p.drop_first()) == render_doc(bs.drop_first()) + render_block(b));
        assert(render_doc(bs) == render_block(bs[0]) + render_doc(bs.drop_first()));
        assert(render_block(bs[0]) + (render_doc(bs.drop_first()) + render_block(b)) =~= (
        render_block(bs[0]) + render_doc(bs.drop_first())) + render_block(b));
    }
}

/// Block order is preserved: a two-block document renders as the first
/// block's rendering immediately followed by the second's.
pub proof fn lemma_render_order(a: BlockView, b: BlockView)
    ensures
        render_doc(seq![a, b]) == render_block(a) + render_block(b),
{
    let p = seq![a, b];
    assert(p.len() == 2);
    assert(p[0] == a);
    assert(p.drop_first() =~= seq![b]);
    assert(render_doc(p) == render_block(a) + render_doc(seq![b]));
    assert(seq![b].drop_first() =~= Seq::<BlockView>::empty());
    assert(render_doc(seq![b]) == render_block(b) + render_doc(Seq::<BlockView>::empty()));
    assert(render_doc(Seq::<BlockView>::empty()) == Seq::<char>::empty());
    assert(render_block(b) + Seq::<char>::empty() =~= render_block(b));
    assert(render_doc(p) == render_block(a) + render_block(b));
}

/// The rendering stage. It holds no state: every render is a pure function
/// of the document it is given.
pub struct Renderer {}

impl Renderer {
    /// Makes a renderer.
    pub fn new() -> (r: Renderer) {
        Renderer {  }
    }

    /// Renders a document. A document all of whose blocks are supported
    /// renders to exactly `render_doc(doc@)`; otherwise the result is an
    /// `UnsupportedBlockKind` error carrying the first unsupported block.
    pub fn render(&self, doc: &Document) -> (r: Result<String, RenderError>)
        ensures
            doc_supported(doc@) ==> (r matches Ok(out) && out@ == render_doc(doc@)),
            !doc_supported(doc@) ==> (r matches Err(e) && e@.kind
                == RenderErrorKind::UnsupportedBlockKind && e@.block == doc@[first_unsupported(
                doc@,
                0,
            )]),
    {
        let ghost dv = doc@;
        let n = doc.blocks.len();
        let mut out = String::new();
        let mut i: usize = 0;
        proof {
            assert(dv.subrange(0, 0) =~= Seq::<BlockView>::empty());
            reveal_strlit("#");
            reveal_strlit(" ");
            assert("#"@ =~= seq!['#']);
            assert(" "@ =~= seq![' ']);
        }
        while i < n
            invariant
                i <= n,
                n == doc.blocks@.len(),
                dv == doc@,
                dv.len() == n,
                "#"@ == seq!['#'],
                " "@ == seq![' '],
                out@ == render_doc(dv.subrange(0, i as int)),
                forall|j: int| 0 <= j < i ==> block_supported(#[trigger] dv[j]),
            decreases n - i,
        {
            proof {
                assert(dv[i as int] == doc.blocks@[i as int]@);
                assert(dv.subrange(0, i + 1) =~= dv.subrange(0, i as int).push(dv[i as int]));
                lemma_render_doc_push(dv.subrange(0, i as int), dv[i as int]);
            }
            match &doc.blocks[i] {
                Block::Paragraph(t) => {
                    out.append(t.as_str());
                },
                Block::Heading(level, t) => {
                    let lv = *level;
                    if lv < 1 || lv > 6 {
                        proof {
                            lemma_first_unsupported_at(dv, 0, i as int);
                        }
                        return Err(
                            RenderError {
                                kind: RenderErrorKind::UnsupportedBlockKind,
                                block: Block::Heading(lv, t.clone()),
                            },
                        );
                    }
                    let mut m: u8 = 0;
                    while m < lv
                        invariant
                            m <= lv,
                            "#"@ == seq!['#'],
                            out@ == render_doc(dv.subrange(0, i as int)) + hash_run(m as int),
                        decreases lv - m,
                    {
                        out.append("#");
                        m += 1;
                    }
                    out.append(" ");
                    out.append(t.as_str());
                    proof {
                        assert(out@ =~= render_doc(dv.subrange(0, i as int)) + render_block(
                            dv[i as int],
                        ));
                    }
                },
                Block::Code(t) => {
                    out.append(t.as_str());
                },
            }
            i += 1;
        }
        proof {
            assert(dv.subrange(0, n as int) =~= dv);
        }
        Ok(out)
    }
}

/// Parses raw text and renders the resulting document in one step. The only
/// error that can come out is the parser's: a successfully parsed document
/// always renders (see `parser::lemma_parse_supported`).
pub fn render_content(input: &str) -> (r: Result<String, ParseError>)
    ensures
        match spec_parse(input@) {
            Ok(bs) => r matches Ok(out) && out@ == render_doc(bs),
            Err(ev) => r matches Err(e) && e@ == ev,
        },
{
    match parse_text(input) {
        Err(e) => Err(e),
        Ok(doc) => {
            proof {
                crate::parser::lemma_parse_supported(input@);
            }
            let renderer = Renderer::new();
            match renderer.render(&doc) {
                Ok(out) => Ok(out),
                Err(_) => {
                    // unreachable: the parsed document is fully supported
                    assert(false);
                    Err(
                        ParseError {
                            kind: crate::parser::ParseErrorKind::InvalidSyntax,
                            line: 1,
                            col: 1,
                        },
                    )
                },
            }
        },
    }
}

/// Sums two numbers; the sum must fit in a `u64`.
pub fn add(left: u64, right: u64) -> (r: u64)
    requires
        left + right <= u64::MAX,
    ensures
        r == left + right,
{
    left + right
}

} // verus!
