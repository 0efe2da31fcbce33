//! The parser: raw text in, a `Document` (or a structured `ParseError`) out.
//!
//! The grammar is line based. The input is split into lines on `'\n'`; then,
//! in order:
//! - a blank line (no characters) produces nothing;
//! - a line equal to ``` ``` ``` opens a fenced code block, whose contents
//!   are the following lines up to (not including) the next such line; the
//!   inner lines, joined by `'\n'`, become one `Block::Code`. An unterminated
//!   fence fails with `UnexpectedEof` at the opening fence's position;
//! - a line starting with `'#'` must be one to six `'#'`s, then one space,
//!   then at least one character of heading text, and becomes a
//!   `Block::Heading`; anything else starting with `'#'` fails with
//!   `InvalidSyntax` at the first offending column;
//! - any other line becomes one `Block::Paragraph` holding the line.
//!
//! Lines and columns in error positions are 1-based and count characters.

use crate::ast::Block;
use crate::ast::BlockView;
use crate::ast::Document;
use vstd::prelude::*;

verus! {

/// What went wrong during a parse.
#[derive(Clone, Copy, Debug, PartialEq, Eq, Structural)]
pub enum ParseErrorKind {
    /// The input ended inside an unterminated construct (an open code fence).
    UnexpectedEof,
    /// A line violates the grammar (a malformed heading marker).
    InvalidSyntax,
}

/// A parse failure: its kind and the 1-based (line, column) position of the
/// first offending character.
#[derive(Clone, Copy, Debug, PartialEq, Eq, Structural)]
pub struct ParseError {
    pub kind: ParseErrorKind,
    pub line: usize,
    pub col: usize,
}

/// The mathematical model of a `ParseError`, with unbounded positions.
pub struct ParseErrorView {
    pub kind: ParseErrorKind,
    pub line: int,
    pub col: int,
}

impl View for ParseError {
    type V = ParseErrorView;

    open spec fn view(&self) -> ParseErrorView {
        ParseErrorView { kind: self.kind, line: self.line as int, col: self.col as int }
    }
}

/// The index of the first occurrence of `c` in `s` at or after `from`, or
/// `-1` if there is none.
pub open spec fn find_char(s: Seq<char>, c: char, from: int) -> int
    decreases s.len() - from,
{
    if from < 0 || from >= s.len() {
        -1
    } else if s[from] == c {
        from
    } else {
        find_char(s, c, from + 1)
    }
}

/// The lines of `s`: the maximal `'\n'`-free runs, in order. A text with `k`
/// newline characters has exactly `k + 1` lines; in particular the empty
/// text has the single empty line.
pub open spec fn split_lines(s: Seq<char>) -> Seq<Seq<char>>
    decreases s.len(),
{
    let p = find_char(s, '\n', 0);
    if 0 <= p && p < s.len() {
        seq![s.subrange(0, p)] + split_lines(s.subrange(p + 1, s.len() as int))
    } else {
        seq![s]
    }
}

/// The index of the first character at or after `from` that is not `'#'`,
/// or `line.len()` if the rest of the line is all `'#'`.
pub open spec fn hash_end(line: Seq<char>, from: int) -> int
    decreases line.len() - from,
{
    if 0 <= from && from < line.len() && line[from] == '#' {
        hash_end(line, from + 1)
    } else {
        from
    }
}

/// The heading rule, applied to a line whose first character is `'#'`:
/// either the heading's (level, text), or the 1-based column of the first
/// offending character. One to six `'#'`s must be followed by one `' '` and
/// then at least one character of text.
pub open spec fn spec_heading(line: Seq<char>) -> Result<(int, Seq<char>), int> {
    let k = hash_end(line, 0);
    if k > 6 {
        // a seventh '#' where ' ' was expected
        Err(7)
    } else if k >= line.len() || line[k] != ' ' {
        // the markers must be followed by a space
        Err(k + 1)
    } else if k + 1 >= line.len() {
        // the space must be followed by heading text
        Err(k + 2)
    } else {
        Ok((k, line.subrange(k + 1, line.len() as int)))
    }
}

/// The line that opens and closes a fenced code block: three backticks.
pub open spec fn fence() -> Seq<char> {
    seq!['`', '`', '`']
}

/// The index of the first fence line at or after `from`, or `-1` if none.
pub open spec fn find_fence(lines: Seq<Seq<char>>, from: int) -> int
    decreases lines.len() - from,
{
    if from < 0 || from >= lines.len() {
        -1
    } else if lines[from] == fence() {
        from
    } else {
        find_fence(lines, from + 1)
    }
}

/// The inner lines of a code block joined back into one text with `'\n'`
/// between consecutive lines.
pub open spec fn join_lines(lines: Seq<Seq<char>>) -> Seq<char>
    decreases lines.len(),
{
    if lines.len() == 0 {
        Seq::empty()
    } else if lines.len() == 1 {
        lines[0]
    } else {
        lines[0] + seq!['\n'] + join_lines(lines.drop_first())
    }
}

/// The parse of `lines` from line index `i` on: the blocks of the remaining
/// lines, or the first error. Line `i` has 1-based line number `i + 1`.
pub open spec fn parse_from(lines: Seq<Seq<char>>, i: int) -> Result<
    Seq<BlockView>,
    ParseErrorView,
>
    decreases lines.len() - i,
{
    if i < 0 || i >= lines.len() {
        Ok(seq![])
    } else if lines[i].len() == 0 {
        parse_from(lines, i + 1)
    } else if lines[i] == fence() {
        let k = find_fence(lines, i + 1);
        if i + 1 <= k && k < lines.len() {
            match parse_from(lines, k + 1) {
                Ok(bs) => Ok(
                    seq![BlockView::Code { text: join_lines(lines.subrange(i + 1, k)) }] + bs,
                ),
                Err(e) => Err(e),
            }
        } else {
            Err(ParseErrorView { kind: ParseErrorKind::UnexpectedEof, line: i + 1, col: 1 })
        }
    } else if lines[i][0] == '#' {
        match spec_heading(lines[i]) {
            Ok((level, text)) => match parse_from(lines, i + 1) {
                Ok(bs) => Ok(seq![BlockView::Heading { level, text }] + bs),
                Err(e) => Err(e),
            },
            Err(col) => Err(
                ParseErrorView { kind: ParseErrorKind::InvalidSyntax, line: i + 1, col },
            ),
        }
    } else {
        match parse_from(lines, i + 1) {
            Ok(bs) => Ok(seq![BlockView::Paragraph { text: lines[i] }] + bs),
            Err(e) => Err(e),
        }
    }
}

/// The parse of a whole text: its lines, parsed from the first line on.
pub open spec fn spec_parse(s: Seq<char>) -> Result<Seq<BlockView>, ParseErrorView> {
    parse_from(split_lines(s), 0)
}

/// How an executable parse result is pinned to the model: `Ok` documents
/// agree block for block, `Err` errors agree in kind and position.
pub open spec fn parse_result_matches(
    r: Result<Document, ParseError>,
    m: Result<Seq<BlockView>, ParseErrorView>,
) -> bool {
    match (r, m) {
        (Ok(d), Ok(bs)) => d@ == bs,
        (Err(e), Err(ev)) => e@ == ev,
        _ => false,
    }
}

proof fn lemma_find_char_at(s: Seq<char>, c: char, from: int, p: int)
    requires
        0 <= from <= p < s.len(),
        s[p] == c,
        forall|k: int| from <= k < p ==> s[k] != c,
    ensures
        find_char(s, c, from) == p,
    decreases p - from,
{
    if from < p {
        lemma_find_char_at(s, c, from + 1, p);
    }
}

proof fn lemma_find_char_missing(s: Seq<char>, c: char, from: int)
    requires
        0 <= from <= s.len(),
        forall|k: int| from <= k < s.len() ==> s[k] != c,
    ensures
        find_char(s, c, from) == -1,
    decreases s.len() - from,
{
    if from < s.len() {
        lemma_find_char_missing(s, c, from + 1);
    }
}

proof fn lemma_find_fence_at(lines: Seq<Seq<char>>, from: int, p: int)
    requires
        0 <= from <= p < lines.len(),
        lines[p] == fence(),
        forall|k: int| from <= k < p ==> lines[k] != fence(),
    ensures
        find_fence(lines, from) == p,
    decreases p - from,
{
    if from < p {
        lemma_find_fence_at(lines, from + 1, p);
    }
}

proof fn lemma_find_fence_missing(lines: Seq<Seq<char>>, from: int)
    requires
        0 <= from <= lines.len(),
        forall|k: int| from <= k < lines.len() ==> lines[k] != fence(),
    ensures
        find_fence(lines, from) == -1,
    decreases lines.len() - from,
{
    if from < lines.len() {
        lemma_find_fence_missing(lines, from + 1);
    }
}

/// The view of a vector of owned lines, as a sequence of character sequences.
pub open spec fn lines_view(lines: Seq<String>) -> Seq<Seq<char>> {
    lines.map_values(|l: String| l@)
}

/// Splits the input into its lines, cutting at every `'\n'`.
fn split_lines_exec(input: &str) -> (lines: Vec<String>)
    ensures
        lines_view(lines@) == split_lines(input@),
{
    let ghost s = input@;
    let n = input.unicode_len();
    let mut lines: Vec<String> = Vec::new();
    let mut start: usize = 0;
    let mut i: usize = 0;
    proof {
        assert(s.subrange(0, n as int) =~= s);
        assert(lines_view(lines@) + split_lines(s) =~= split_lines(s));
    }
    while i < n
        invariant
            start <= i <= n,
            n == s.len(),
            input@ == s,
            split_lines(s) == lines_view(lines@) + split_lines(
                s.subrange(start as int, n as int),
            ),
            forall|k: int| start <= k < i ==> s[k] != '\n',
        decreases n - i,
    {
        if input.get_char(i) == '\n' {
            let line = input.substring_char(start, i).to_owned();
            proof {
                let s2 = s.subrange(start as int, n as int);
                lemma_find_char_at(s2, '\n', 0, i - start);
                assert(split_lines(s2) == seq![s2.subrange(0, i - start)] + split_lines(
                    s2.subrange(i - start + 1, s2.len() as int),
                ));
                assert(s2.subrange(0, i - start) =~= line@);
                assert(s2.subrange(i - start + 1, s2.len() as int) =~= s.subrange(
                    i + 1,
                    n as int,
                ));
                assert(lines_view(lines@.push(line)) =~= lines_view(lines@) + seq![line@]);
                assert(lines_view(lines@) + seq![line@] + split_lines(
                    s.subrange(i + 1, n as int),
                ) =~= lines_view(lines@) + split_lines(s2));
            }
            lines.push(line);
            start = i + 1;
        }
        i += 1;
    }
    let line = input.substring_char(start, n).to_owned();
    proof {
        let s2 = s.subrange(start as int, n as int);
        lemma_find_char_missing(s2, '\n', 0);
        assert(split_lines(s2) == seq![s2]);
        assert(lines_view(lines@.push(line)) =~= lines_view(lines@) + seq![line@]);
        assert(line@ == s2);
    }
    lines.push(line);
    lines
}

proof fn lemma_hash_end_at(line: Seq<char>, p: int)
    requires
        0 <= p <= line.len(),
        forall|j: int| 0 <= j < p ==> line[j] == '#',
        p < line.len() ==> line[p] != '#',
    ensures
        hash_end(line, 0) == p,
{
    lemma_hash_end_at_from(line, 0, p);
}

proof fn lemma_hash_end_at_from(line: Seq<char>, from: int, p: int)
    requires
        0 <= from <= p <= line.len(),
        forall|j: int| from <= j < p ==> line[j] == '#',
        p < line.len() ==> line[p] != '#',
    ensures
        hash_end(line, from) == p,
    decreases p - from,
{
    if from < p {
        lemma_hash_end_at_from(line, from + 1, p);
    }
}

/// Applies the heading rule to a line that starts with `'#'`, returning the
/// heading block or the 1-based column of the first offending character.
fn parse_heading_line(line: &str) -> (r: Result<Block, usize>)
    requires
        line@.len() > 0,
        line@[0] == '#',
    ensures
        match (r, spec_heading(line@)) {
            (Ok(b), Ok(h)) => b@ == (BlockView::Heading { level: h.0, text: h.1 }),
            (Err(col), Err(colv)) => col as int == colv,
            _ => false,
        },
{
    let n = line.unicode_len();
    let mut k: usize = 0;
    while k < n && line.get_char(k) == '#'
        invariant
            k <= n,
            n == line@.len(),
            forall|j: int| 0 <= j < k ==> line@[j] == '#',
        decreases n - k,
    {
        k += 1;
    }
    proof {
        lemma_hash_end_at(line@, k as int);
    }
    if k > 6 {
        return Err(7);
    }
    if k >= n {
        return Err(k + 1);
    }
    if line.get_char(k) != ' ' {
        return Err(k + 1);
    }
    if k + 1 >= n {
        return Err(k + 2);
    }
    let text = line.substring_char(k + 1, n).to_owned();
    Ok(Block::Heading(k as u8, text))
}

/// Whether this line is exactly the three-backtick fence.
fn is_fence(line: &str) -> (b: bool)
    ensures
        b == (line@ == fence()),
{
    let n = line.unicode_len();
    if n != 3 {
        return false;
    }
    let b = line.get_char(0) == '`' && line.get_char(1) == '`' && line.get_char(2) == '`';
    proof {
        if b {
            assert(line@ =~= fence());
        }
    }
    b
}

proof fn lemma_join_push(s: Seq<Seq<char>>, x: Seq<char>)
    ensures
        join_lines(s.push(x)) == if s.len() == 0 {
            x
        } else {
            join_lines(s) + seq!['\n'] + x
        },
    decreases s.len(),
{
    if s.len() == 0 {
        assert(s.push(x)[0] == x);
    } else {
        assert(s.push(x).drop_first() =~= s.drop_first().push(x));
        lemma_join_push(s.drop_first(), x);
        if s.len() == 1 {
            assert(s.drop_first().len() == 0);
        }
    }
}

/// The view of a vector of blocks, block by block.
pub open spec fn blocks_view(bs: Seq<Block>) -> Seq<BlockView> {
    bs.map_values(|b: Block| b@)
}

/// The loop invariant of the parser: the blocks gathered so far, together
/// with whatever the remaining lines yield, give the parse of all lines.
spec fn parse_continues(lv: Seq<Seq<char>>, i: int, acc: Seq<BlockView>) -> bool {
    match parse_from(lv, i) {
        Ok(bs) => parse_from(lv, 0) == Ok::<Seq<BlockView>, ParseErrorView>(acc + bs),
        Err(e) => parse_from(lv, 0) == Err::<Seq<BlockView>, ParseErrorView>(e),
    }
}

proof fn lemma_continues_step(lv: Seq<Seq<char>>, i: int, next: int, acc: Seq<BlockView>, b: BlockView)
    requires
        parse_continues(lv, i, acc),
        parse_from(lv, i) == match parse_from(lv, next) {
            Ok(bs) => Ok::<Seq<BlockView>, ParseErrorView>(seq![b] + bs),
            Err(e) => Err::<Seq<BlockView>, ParseErrorView>(e),
        },
    ensures
        parse_continues(lv, next, acc.push(b)),
{
    match parse_from(lv, next) {
        Ok(bs) => {
            assert(acc + (seq![b] + bs) =~= acc.push(b) + bs);
        },
        Err(_) => {},
    }
}

/// Parses the already split lines, from the first on.
fn parse_lines(lines: &Vec<String>) -> (r: Result<Document, ParseError>)
    ensures
        parse_result_matches(r, parse_from(lines_view(lines@), 0)),
{
    let ghost lv = lines_view(lines@);
    let n = lines.len();
    let mut blocks: Vec<Block> = Vec::new();
    let mut i: usize = 0;
    proof {
        match parse_from(lv, 0) {
            Ok(bs) => {
                assert(blocks_view(blocks@) + bs =~= bs);
            },
            Err(_) => {},
        }
    }
    while i < n
        invariant
            i <= n,
            n == lines@.len(),
            lv == lines_view(lines@),
            parse_continues(lv, i as int, blocks_view(blocks@)),
        decreases n - i,
    {
        let line = &lines[i];
        let ghost acc = blocks_view(blocks@);
        proof {
            assert(lv[i as int] == lines@[i as int]@);
        }
        if line.as_str().unicode_len() == 0 {
            i += 1;
        } else if is_fence(line.as_str()) {
            let mut k = i + 1;
            while k < n && !is_fence(lines[k].as_str())
                invariant
                    i + 1 <= k <= n,
                    n == lines@.len(),
                    lv == lines_view(lines@),
                    forall|j: int| i + 1 <= j < k ==> lv[j] != fence(),
                decreases n - k,
            {
                proof {
                    assert(lv[k as int] == lines@[k as int]@);
                }
                k += 1;
            }
            if k < n {
                proof {
                    assert(lv[k as int] == lines@[k as int]@);
                    lemma_find_fence_at(lv, i + 1, k as int);
                }
                let mut text = String::new();
                let mut j = i + 1;
                proof {
                    assert(lv.subrange(i + 1, i + 1) =~= Seq::<Seq<char>>::empty());
                    reveal_strlit("\n");
                    assert("\n"@ =~= seq!['\n']);
                }
                while j < k
                    invariant
                        i + 1 <= j <= k <= n,
                        n == lines@.len(),
                        lv == lines_view(lines@),
                        "\n"@ == seq!['\n'],
                        text@ == join_lines(lv.subrange(i + 1, j as int)),
                    decreases k - j,
                {
                    proof {
                        assert(lv[j as int] == lines@[j as int]@);
                        assert(lv.subrange(i + 1, j + 1) =~= lv.subrange(i + 1, j as int).push(
                            lv[j as int],
                        ));
                        lemma_join_push(lv.subrange(i + 1, j as int), lv[j as int]);
                    }
                    if j > i + 1 {
                        text.append("\n");
                    }
                    text.append(lines[j].as_str());
                    j += 1;
                }
                let ghost b = BlockView::Code { text: join_lines(lv.subrange(i + 1, k as int)) };
                proof {
                    lemma_continues_step(lv, i as int, k + 1, acc, b);
                    assert(blocks_view(blocks@.push(Block::Code(text))) =~= acc.push(b));
                }
                blocks.push(Block::Code(text));
                i = k + 1;
            } else {
                proof {
                    lemma_find_fence_missing(lv, i + 1);
                }
                return Err(
                    ParseError { kind: ParseErrorKind::UnexpectedEof, line: i + 1, col: 1 },
                );
            }
        } else if line.as_str().get_char(0) == '#' {
            match parse_heading_line(line.as_str()) {
                Ok(b) => {
                    proof {
                        let h = spec_heading(lv[i as int]);
                        lemma_continues_step(
                            lv,
                            i as int,
                            i + 1,
                            acc,
                            BlockView::Heading { level: h->Ok_0.0, text: h->Ok_0.1 },
                        );
                        assert(blocks_view(blocks@.push(b)) =~= acc.push(b@));
                    }
                    blocks.push(b);
                    i += 1;
                },
                Err(col) => {
                    return Err(
                        ParseError { kind: ParseErrorKind::InvalidSyntax, line: i + 1, col },
                    );
                },
            }
        } else {
            let b = Block::Paragraph(line.clone());
            proof {
                lemma_continues_step(
                    lv,
                    i as int,
                    i + 1,
                    acc,
                    BlockView::Paragraph { text: lv[i as int] },
                );
                assert(blocks_view(blocks@.push(b)) =~= acc.push(b@));
            }
            blocks.push(b);
            i += 1;
        }
    }
    proof {
        match parse_from(lv, 0) {
            Ok(bs) => {
                assert(blocks_view(blocks@) + Seq::<BlockView>::empty() =~= blocks_view(blocks@));
            },
            Err(_) => {},
        }
        assert(parse_from(lv, 0) == Ok::<Seq<BlockView>, ParseErrorView>(blocks_view(blocks@)));
    }
    Ok(Document { blocks })
}

/// The parsing stage. It holds no state: every parse is a pure function of
/// its input, so two parses of the same text give the same result.
pub struct Parser {}

impl Parser {
    /// Makes a parser.
    pub fn new() -> (p: Parser) {
        Parser {  }
    }

    /// Parses raw text into a `Document` whose view is exactly
    /// `spec_parse(input@)`, or into the first error, with its kind and
    /// 1-based position, as `spec_parse` gives it.
    pub fn parse(&self, input: &str) -> (r: Result<Document, ParseError>)
        ensures
            parse_result_matches(r, spec_parse(input@)),
    {
        let lines = split_lines_exec(input);
        parse_lines(&lines)
    }
}

/// Parses raw text with a fresh parser; see `Parser::parse`.
pub fn parse_text(input: &str) -> (r: Result<Document, ParseError>)
    ensures
        parse_result_matches(r, spec_parse(input@)),
{
    let parser = Parser::new();
    parser.parse(input)
}

proof fn lemma_hash_end_ge(line: Seq<char>, from: int)
    requires
        0 <= from,
    ensures
        hash_end(line, from) >= from,
    decreases line.len() - from,
{
    if from < line.len() && line[from] == '#' {
        lemma_hash_end_ge(line, from + 1);
    }
}

proof fn lemma_supported_cons(b: BlockView, bs: Seq<BlockView>)
    requires
        crate::ast::block_supported(b),
        crate::ast::doc_supported(bs),
    ensures
        crate::ast::doc_supported(seq![b] + bs),
{
    let c = seq![b] + bs;
    assert forall|j: int| 0 <= j < c.len() implies crate::ast::block_supported(
        #[trigger] c[j],
    ) by {
        if j > 0 {
            assert(c[j] == bs[j - 1]);
        }
    }
}

proof fn lemma_parse_from_supported(lines: Seq<Seq<char>>, i: int)
    ensures
        parse_from(lines, i) matches Ok(bs) ==> crate::ast::doc_supported(bs),
    decreases lines.len() - i,
{
    if i < 0 || i >= lines.len() {
        assert(crate::ast::doc_supported(Seq::<BlockView>::empty()));
    } else if lines[i].len() == 0 {
        lemma_parse_from_supported(lines, i + 1);
    } else if lines[i] == fence() {
        let k = find_fence(lines, i + 1);
        if i + 1 <= k && k < lines.len() {
            lemma_parse_from_supported(lines, k + 1);
            match parse_from(lines, k + 1) {
                Ok(bs) => {
                    lemma_supported_cons(
                        BlockView::Code { text: join_lines(lines.subrange(i + 1, k)) },
                        bs,
                    );
                },
                Err(_) => {},
            }
        }
    } else if lines[i][0] == '#' {
        match spec_heading(lines[i]) {
            Ok(h) => {
                lemma_parse_from_supported(lines, i + 1);
                lemma_hash_end_ge(lines[i], 1);
                assert(hash_end(lines[i], 0) == hash_end(lines[i], 1));
                assert(1 <= h.0 <= 6);
                match parse_from(lines, i + 1) {
                    Ok(bs) => {
                        lemma_supported_cons(BlockView::Heading { level: h.0, text: h.1 }, bs);
                    },
                    Err(_) => {},
                }
            },
            Err(_) => {},
        }
    } else {
        lemma_parse_from_supported(lines, i + 1);
        match parse_from(lines, i + 1) {
            Ok(bs) => {
                lemma_supported_cons(BlockView::Paragraph { text: lines[i] }, bs);
            },
            Err(_) => {},
        }
    }
}

/// The closed-variant contract between the two stages: a document produced
/// by a successful parse holds only blocks the renderer supports, so
/// rendering it cannot fail.
pub proof fn lemma_parse_supported(s: Seq<char>)
    ensures
        spec_parse(s) matches Ok(bs) ==> crate::ast::doc_supported(bs),
{
    lemma_parse_from_supported(split_lines(s), 0);
}

/// Parsing is deterministic: two parse results for the same text are
/// structurally equal — equal documents on success, equal errors on failure.
pub proof fn lemma_parse_deterministic(
    r1: Result<Document, ParseError>,
    r2: Result<Document, ParseError>,
    s: Seq<char>,
)
    requires
        parse_result_matches(r1, spec_parse(s)),
        parse_result_matches(r2, spec_parse(s)),
    ensures
        r1 matches Ok(d1) ==> (r2 matches Ok(d2) && d1@ == d2@),
        r1 matches Err(e1) ==> (r2 matches Err(e2) && e1 == e2),
{
}

/// Sums two numbers; the sum must fit in a `u64`.
pub fn add(left: u64, right: u64) -> (r: u64)
    requires
        left + right <= u64::MAX,
    ensures
        r == left + right,
{
    left + right
}

} // verus!
