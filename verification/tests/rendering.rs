use pygmalion::ast::Block;
use pygmalion::ast::Document;
use pygmalion::parser::parse_text;
use pygmalion::parser::ParseErrorKind;
use pygmalion::render::render_content;
use pygmalion::render::RenderErrorKind;
use pygmalion::render::Renderer;

#[test]
fn empty_document_renders_empty_output() {
    let renderer = Renderer::new();
    let doc = Document { blocks: vec![] };
    assert_eq!(renderer.render(&doc).unwrap(), "");
}

#[test]
fn paragraph_renders_as_its_text() {
    let renderer = Renderer::new();
    let doc = Document {
        blocks: vec![Block::Paragraph("Hello".to_string())],
    };
    assert_eq!(renderer.render(&doc).unwrap(), "Hello");
}

#[test]
fn two_blocks_render_adjacent_in_order() {
    let renderer = Renderer::new();
    let doc = Document {
        blocks: vec![
            Block::Paragraph("first".to_string()),
            Block::Paragraph("second".to_string()),
        ],
    };
    assert_eq!(renderer.render(&doc).unwrap(), "firstsecond");
}

#[test]
fn heading_renders_its_markers_back() {
    let renderer = Renderer::new();
    let doc = Document {
        blocks: vec![Block::Heading(2, "Title".to_string())],
    };
    assert_eq!(renderer.render(&doc).unwrap(), "## Title");
}

#[test]
fn code_renders_as_its_text() {
    let renderer = Renderer::new();
    let doc = Document {
        blocks: vec![Block::Code("a\nb".to_string())],
    };
    assert_eq!(renderer.render(&doc).unwrap(), "a\nb");
}

#[test]
fn heading_level_zero_is_unsupported() {
    let renderer = Renderer::new();
    let doc = Document {
        blocks: vec![Block::Heading(0, "broken".to_string())],
    };
    let err = renderer.render(&doc).unwrap_err();
    assert_eq!(err.kind, RenderErrorKind::UnsupportedBlockKind);
    assert_eq!(err.block, Block::Heading(0, "broken".to_string()));
}

#[test]
fn first_unsupported_heading_is_reported() {
    let renderer = Renderer::new();
    let doc = Document {
        blocks: vec![
            Block::Paragraph("fine".to_string()),
            Block::Heading(7, "deep".to_string()),
            Block::Heading(9, "deeper".to_string()),
        ],
    };
    let err = renderer.render(&doc).unwrap_err();
    assert_eq!(err.kind, RenderErrorKind::UnsupportedBlockKind);
    assert_eq!(err.block, Block::Heading(7, "deep".to_string()));
}

#[test]
fn parsed_documents_always_render() {
    let renderer = Renderer::new();
    let doc = parse_text("###### deep\npara\n```\ncode\n```").unwrap();
    assert!(renderer.render(&doc).is_ok());
}

#[test]
fn pipeline_renders_hello() {
    assert_eq!(render_content("Hello").unwrap(), "Hello");
}

#[test]
fn pipeline_renders_mixed_text() {
    assert_eq!(
        render_content("# Head\n\npara\n```\ncode\n```").unwrap(),
        "# Headparacode"
    );
}

#[test]
fn pipeline_passes_the_parse_error_through() {
    let err = render_content("```\nunclosed").unwrap_err();
    assert_eq!(err.kind, ParseErrorKind::UnexpectedEof);
    assert_eq!(err.line, 1);
    assert_eq!(err.col, 1);
}

#[test]
fn pipeline_renders_empty_input_to_empty_output() {
    assert_eq!(render_content("").unwrap(), "");
}
