use markdown_preview::elements::{Alignment, Document, ElementKind, Span};
use markdown_preview::parser::parse;

fn span(start: usize, end: usize) -> Span {
    Span { start, end }
}

fn check_invariant(doc: &Document) {
    for i in 0..doc.len() {
        let e = doc.element(i);
        assert!(e.span.start <= e.span.end && e.span.end <= doc.source_len());
        if let Some(p) = e.parent {
            assert!(p < i);
            let ps = doc.element(p).span;
            assert!(ps.start <= e.span.start && e.span.end <= ps.end);
        }
        for j in (i + 1)..doc.len() {
            if doc.element(j).parent == e.parent {
                assert!(e.span.end <= doc.element(j).span.start);
            }
        }
    }
}

#[test]
fn heading_then_paragraph() {
    let text = b"# Title\n\nSome text";
    let doc = parse(text);
    assert_eq!(doc.children(None), vec![0, 2]);
    assert_eq!(doc.element(0).kind, ElementKind::Heading { level: 1 });
    assert_eq!(doc.element(0).span, span(0, 7));
    assert_eq!(doc.element(2).kind, ElementKind::Paragraph);
    assert_eq!(doc.element(2).span, span(9, 18));
    assert_eq!(doc.children(Some(2)), vec![3]);
    let t = doc.element(3);
    assert_eq!(t.kind, ElementKind::Text);
    assert_eq!(&text[t.span.start..t.span.end], b"Some text");
    check_invariant(&doc);
}

#[test]
fn nested_unordered_list() {
    let text = b"- a\n- b\n  - c";
    let doc = parse(text);
    assert_eq!(doc.children(None), vec![0]);
    assert_eq!(doc.element(0).kind, ElementKind::List { ordered: false, depth: 1 });
    let items = doc.children(Some(0));
    assert_eq!(items.len(), 2);
    let second = items[1];
    let inner: Vec<usize> = doc
        .children(Some(second))
        .into_iter()
        .filter(|&k| matches!(doc.element(k).kind, ElementKind::List { .. }))
        .collect();
    assert_eq!(inner.len(), 1);
    assert_eq!(doc.element(inner[0]).kind, ElementKind::List { ordered: false, depth: 2 });
    let nested_items = doc.children(Some(inner[0]));
    assert_eq!(nested_items.len(), 1);
    let c = doc.children(Some(nested_items[0]));
    let s = doc.element(c[0]).span;
    assert_eq!(&text[s.start..s.end], b"c");
    check_invariant(&doc);
}

#[test]
fn whitespace_only_has_no_blocks() {
    let doc = parse(b"   \n\n  ");
    assert_eq!(doc.len(), 0);
    assert_eq!(doc.source_len(), 7);
}

#[test]
fn empty_text_has_no_blocks() {
    let doc = parse(b"");
    assert_eq!(doc.len(), 0);
}

#[test]
fn unmatched_strong_is_literal() {
    let doc = parse(b"**bold");
    assert_eq!(doc.len(), 2);
    assert_eq!(doc.element(0).kind, ElementKind::Paragraph);
    assert_eq!(doc.element(1).kind, ElementKind::Text);
    assert_eq!(doc.element(1).span, span(0, 6));
}

#[test]
fn emphasis_and_strong() {
    let doc = parse(b"*a* **b**");
    let kids = doc.children(Some(0));
    assert_eq!(kids.len(), 3);
    assert_eq!(doc.element(kids[0]).kind, ElementKind::Emphasis);
    assert_eq!(doc.element(kids[0]).span, span(0, 3));
    assert_eq!(doc.element(kids[1]).kind, ElementKind::Text);
    assert_eq!(doc.element(kids[2]).kind, ElementKind::Strong);
    assert_eq!(doc.element(kids[2]).span, span(4, 9));
    let inner = doc.children(Some(kids[2]));
    assert_eq!(doc.element(inner[0]).span, span(6, 7));
    check_invariant(&doc);
}

#[test]
fn code_span_is_not_scanned() {
    let doc = parse(b"`*x*`");
    assert_eq!(doc.len(), 2);
    assert_eq!(doc.element(1).kind, ElementKind::Code { code: span(1, 4) });
    assert_eq!(doc.element(1).span, span(0, 5));
}

#[test]
fn link_and_image() {
    let doc = parse(b"[t](u) ![a](b)");
    let kids = doc.children(Some(0));
    assert_eq!(doc.element(kids[0]).kind, ElementKind::Link { text: span(1, 2), destination: span(4, 5) });
    assert_eq!(doc.element(kids[0]).span, span(0, 6));
    assert_eq!(doc.element(kids[2]).kind, ElementKind::Image { alt: span(9, 10), destination: span(12, 13) });
    assert_eq!(doc.element(kids[2]).span, span(7, 14));
}

#[test]
fn hard_line_break() {
    let doc = parse(b"a  \nb");
    let kids = doc.children(Some(0));
    assert_eq!(kids.len(), 3);
    assert_eq!(doc.element(kids[0]).span, span(0, 1));
    assert_eq!(doc.element(kids[1]).kind, ElementKind::LineBreak);
    assert_eq!(doc.element(kids[1]).span, span(1, 4));
    assert_eq!(doc.element(kids[2]).span, span(4, 5));
}

#[test]
fn seven_hashes_is_a_paragraph() {
    let doc = parse(b"####### x");
    assert_eq!(doc.element(0).kind, ElementKind::Paragraph);
}

#[test]
fn block_quote() {
    let doc = parse(b"> q\n> r");
    assert_eq!(doc.element(0).kind, ElementKind::BlockQuote);
    assert_eq!(doc.element(0).span, span(0, 7));
    assert_eq!(doc.element(1).kind, ElementKind::Paragraph);
    let kids = doc.children(Some(1));
    assert_eq!(kids.len(), 2);
    assert_eq!(doc.element(kids[0]).span, span(2, 3));
    assert_eq!(doc.element(kids[1]).span, span(6, 7));
}

#[test]
fn thematic_break() {
    let doc = parse(b"a\n\n---\n\nb");
    assert_eq!(doc.element(2).kind, ElementKind::ThematicBreak);
    assert_eq!(doc.element(2).span, span(3, 6));
}

#[test]
fn table_with_alignments() {
    let doc = parse(b"a|b\n-|:-:\nc|d");
    assert_eq!(
        doc.element(0).kind,
        ElementKind::Table { alignments: vec![Alignment::Unspecified, Alignment::Center] }
    );
    assert_eq!(doc.element(0).span, span(0, 13));
    let rows = doc.children(Some(0));
    assert_eq!(rows.len(), 2);
    assert_eq!(doc.element(rows[0]).kind, ElementKind::TableRow { header: true });
    assert_eq!(doc.element(rows[1]).kind, ElementKind::TableRow { header: false });
    let cells = doc.children(Some(rows[1]));
    assert_eq!(doc.element(cells[0]).span, span(10, 11));
    assert_eq!(doc.element(cells[1]).span, span(12, 13));
    check_invariant(&doc);
}

#[test]
fn ordered_list_and_task_item() {
    let doc = parse(b"1. x\n2. [x] done");
    assert_eq!(doc.element(0).kind, ElementKind::List { ordered: true, depth: 1 });
    let items = doc.children(Some(0));
    assert_eq!(doc.element(items[0]).kind, ElementKind::ListItem { checked: None });
    assert_eq!(doc.element(items[1]).kind, ElementKind::ListItem { checked: Some(true) });
    let t = doc.children(Some(items[1]));
    assert_eq!(doc.element(t[0]).span, span(12, 16));
}

#[test]
fn fenced_code_block() {
    let doc = parse(b"```rust\nlet x;\n```\nafter");
    assert_eq!(
        doc.element(0).kind,
        ElementKind::CodeBlock { language: span(3, 7), code: span(8, 14) }
    );
    assert_eq!(doc.element(0).span, span(0, 18));
    assert_eq!(doc.element(1).kind, ElementKind::Paragraph);
}

#[test]
fn unclosed_fence_runs_to_end() {
    let doc = parse(b"~~~\ncode");
    assert_eq!(doc.len(), 1);
    assert_eq!(doc.element(0).kind, ElementKind::CodeBlock { language: span(3, 3), code: span(4, 8) });
    assert_eq!(doc.element(0).span, span(0, 8));
}

#[test]
fn spans_nest_and_order_in_a_mixed_document() {
    let doc = parse(b"# *T*\n\n> a **b**\n\n- x\n  - y `z`\n    - w\n- v\n\n| h | i |\n|---|--:|\n| 1 | [l](d) |\n\n```\nc\n```\n***\ntail  \nend");
    assert!(doc.len() > 20);
    check_invariant(&doc);
}

