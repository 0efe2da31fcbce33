use pygmalion::ast::Block;
use pygmalion::parser::parse_text;
use pygmalion::parser::ParseErrorKind;
use pygmalion::parser::Parser;

#[test]
fn empty_input_gives_empty_document() {
    let doc = parse_text("").unwrap();
    assert_eq!(doc.blocks.len(), 0);
}

#[test]
fn blank_lines_give_empty_document() {
    let doc = parse_text("\n\n\n").unwrap();
    assert_eq!(doc.blocks.len(), 0);
}

#[test]
fn single_word_is_a_paragraph() {
    let doc = parse_text("Hello").unwrap();
    assert_eq!(doc.blocks, vec![Block::Paragraph("Hello".to_string())]);
}

#[test]
fn each_nonblank_line_is_its_own_paragraph() {
    let doc = parse_text("one\n\ntwo\nthree\n").unwrap();
    assert_eq!(
        doc.blocks,
        vec![
            Block::Paragraph("one".to_string()),
            Block::Paragraph("two".to_string()),
            Block::Paragraph("three".to_string()),
        ]
    );
}

#[test]
fn headings_carry_level_and_text() {
    let doc = parse_text("# Title\n### Sub section").unwrap();
    assert_eq!(
        doc.blocks,
        vec![
            Block::Heading(1, "Title".to_string()),
            Block::Heading(3, "Sub section".to_string()),
        ]
    );
}

#[test]
fn six_hashes_is_the_deepest_heading() {
    let doc = parse_text("###### deep").unwrap();
    assert_eq!(doc.blocks, vec![Block::Heading(6, "deep".to_string())]);
}

#[test]
fn seven_hashes_is_invalid_at_column_seven() {
    let err = parse_text("####### too deep").unwrap_err();
    assert_eq!(err.kind, ParseErrorKind::InvalidSyntax);
    assert_eq!(err.line, 1);
    assert_eq!(err.col, 7);
}

#[test]
fn hash_without_space_is_invalid_after_the_hashes() {
    let err = parse_text("ok\n##x").unwrap_err();
    assert_eq!(err.kind, ParseErrorKind::InvalidSyntax);
    assert_eq!(err.line, 2);
    assert_eq!(err.col, 3);
}

#[test]
fn lone_hash_is_invalid_at_column_two() {
    let err = parse_text("#").unwrap_err();
    assert_eq!(err.kind, ParseErrorKind::InvalidSyntax);
    assert_eq!(err.line, 1);
    assert_eq!(err.col, 2);
}

#[test]
fn heading_without_text_is_invalid_past_the_space() {
    let err = parse_text("## ").unwrap_err();
    assert_eq!(err.kind, ParseErrorKind::InvalidSyntax);
    assert_eq!(err.line, 1);
    assert_eq!(err.col, 4);
}

#[test]
fn fenced_block_keeps_its_lines() {
    let doc = parse_text("```\nlet x = 1;\nx\n```").unwrap();
    assert_eq!(doc.blocks, vec![Block::Code("let x = 1;\nx".to_string())]);
}

#[test]
fn empty_fenced_block_is_empty_code() {
    let doc = parse_text("```\n```").unwrap();
    assert_eq!(doc.blocks, vec![Block::Code(String::new())]);
}

#[test]
fn unterminated_fence_is_eof_at_the_opening_fence() {
    let err = parse_text("intro\n```\nstill open").unwrap_err();
    assert_eq!(err.kind, ParseErrorKind::UnexpectedEof);
    assert_eq!(err.line, 2);
    assert_eq!(err.col, 1);
}

#[test]
fn parse_is_deterministic_on_success() {
    let input = "# Title\n\nbody\n```\ncode\n```";
    assert_eq!(parse_text(input), parse_text(input));
}

#[test]
fn parse_is_deterministic_on_failure() {
    let input = "fine\n####### nope";
    assert_eq!(parse_text(input), parse_text(input));
}

#[test]
fn parser_method_agrees_with_the_free_function() {
    let parser = Parser::new();
    let input = "# A\nb";
    assert_eq!(parser.parse(input), parse_text(input));
}

#[test]
fn mixed_document_keeps_block_order() {
    let doc = parse_text("# Head\n\npara\n```\ncode\n```\ntail").unwrap();
    assert_eq!(
        doc.blocks,
        vec![
            Block::Heading(1, "Head".to_string()),
            Block::Paragraph("para".to_string()),
            Block::Code("code".to_string()),
            Block::Paragraph("tail".to_string()),
        ]
    );
}
