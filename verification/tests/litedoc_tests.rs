//! Scenario tests: exact outputs for fixed inputs, span invariants checked
//! over whole trees, determinism, line-ending behaviour, escapes, and the
//! error model.

use litedoc::ast::{AttrValue, ListKind};
use litedoc::{Block, Inline, ParseError, ParseErrorKind, Parser, Profile, Span};

fn inline_span_of(i: &Inline) -> Span {
    match i {
        Inline::Text(t) => t.span,
        Inline::Emphasis(e) => e.span,
        Inline::Strong(s) => s.span,
        Inline::CodeSpan(c) => c.span,
        Inline::Link(l) => l.span,
        Inline::AutoLink(a) => a.span,
        Inline::Strikethrough(s) => s.span,
        Inline::FootnoteRef(f) => f.span,
        Inline::HardBreak(s) => *s,
        Inline::SoftBreak(s) => *s,
    }
}

fn block_span_of(b: &Block) -> Span {
    match b {
        Block::Heading(h) => h.span,
        Block::Paragraph(p) => p.span,
        Block::List(l) => l.span,
        Block::CodeBlock(c) => c.span,
        Block::Callout(c) => c.span,
        Block::Quote(q) => q.span,
        Block::Figure(f) => f.span,
        Block::Table(t) => t.span,
        Block::Footnotes(f) => f.span,
        Block::Math(m) => m.span,
        Block::ThematicBreak(s) => *s,
        Block::Html(h) => h.span,
        Block::Raw(r) => r.span,
    }
}

fn check_inlines(inlines: &[Inline], outer: Span) {
    let mut prev_end = None;
    for i in inlines {
        let sp = inline_span_of(i);
        assert!(sp.start <= sp.end);
        assert!(outer.start <= sp.start && sp.end <= outer.end);
        if let Some(pe) = prev_end {
            assert!(pe <= sp.start);
        }
        prev_end = Some(sp.end);
        match i {
            Inline::Emphasis(e) => check_inlines(&e.content, e.span),
            Inline::Strong(s) => check_inlines(&s.content, s.span),
            Inline::Strikethrough(s) => check_inlines(&s.content, s.span),
            Inline::Link(l) => check_inlines(&l.label, l.span),
            _ => {}
        }
    }
}

fn check_blocks(blocks: &[Block], outer: Span) {
    let mut prev_end = None;
    for b in blocks {
        let sp = block_span_of(b);
        assert!(sp.start <= sp.end);
        assert!(outer.start <= sp.start && sp.end <= outer.end);
        if let Some(pe) = prev_end {
            assert!(pe <= sp.start);
        }
        prev_end = Some(sp.end);
        match b {
            Block::Heading(h) => {
                assert!(1 <= h.level && h.level <= 6);
                check_inlines(&h.content, h.span);
            }
            Block::Paragraph(p) => check_inlines(&p.content, p.span),
            Block::List(l) => {
                for it in &l.items {
                    let isp = it.span;
                    assert!(l.span.start <= isp.start && isp.end <= l.span.end);
                    check_blocks(&it.blocks, isp);
                }
            }
            Block::Callout(c) => check_blocks(&c.blocks, c.span),
            Block::Quote(q) => check_blocks(&q.blocks, q.span),
            Block::Table(t) => {
                for (k, row) in t.rows.iter().enumerate() {
                    assert!(t.span.start <= row.span.start && row.span.end <= t.span.end);
                    if k > 0 {
                        assert!(!row.header);
                    }
                    for cell in &row.cells {
                        assert!(row.span.start <= cell.span.start && cell.span.end <= row.span.end);
                        check_inlines(&cell.content, cell.span);
                    }
                }
            }
            Block::Footnotes(f) => {
                for d in &f.defs {
                    assert!(f.span.start <= d.span.start && d.span.end <= f.span.end);
                    check_blocks(&d.blocks, d.span);
                }
            }
            _ => {}
        }
    }
}

fn complex_input() -> Vec<u8> {
    b"@profile litedoc
@modules tables, footnotes, html

--- meta
title: Spans
n: -7
---

# Top *heading*

A paragraph with `code`, [[L|u]], <https://a.b> and ~~gone~~ text.

::list ordered start=3
- One **bold**
- Two
| continued
::

::table
| A | B |
|---|---|
| 1 | 2 |
::

::footnotes
[^x]: A note with *emphasis*.
::

::callout type=\"warning\" title=\"T\"
Body one.

Body two.
::

::html
<p>raw</p>
::

---

Last words."
        .to_vec()
}

#[test]
fn spans_are_well_formed_over_a_complex_document() {
    let input = complex_input();
    let mut parser = Parser::new(Profile::Litedoc);
    let doc = parser.parse(&input).unwrap();
    assert_eq!(doc.span.start, 0);
    assert_eq!(doc.span.end, input.len() as u32);
    check_blocks(&doc.blocks, doc.span);
}

#[test]
fn parsing_twice_gives_equal_documents() {
    let input = complex_input();
    let mut parser1 = Parser::new(Profile::Litedoc);
    let mut parser2 = Parser::new(Profile::Litedoc);
    let doc1 = parser1.parse(&input).unwrap();
    let doc2 = parser2.parse(&input).unwrap();
    assert_eq!(doc1, doc2);
    let mut parser3 = Parser::new(Profile::Litedoc);
    let doc3 = parser3.parse(&input).unwrap();
    assert_eq!(doc1, doc3);
}

#[test]
fn crlf_input_gives_the_same_structure() {
    let lf: &[u8] = b"# Hello\n\nSome *text* here.\n\n::quote\nWords.\n::\n";
    let crlf: Vec<u8> = {
        let mut v = Vec::new();
        for &b in lf {
            if b == b'\n' {
                v.push(b'\r');
            }
            v.push(b);
        }
        v
    };
    let mut p1 = Parser::new(Profile::Litedoc);
    let mut p2 = Parser::new(Profile::Litedoc);
    let d1 = p1.parse(lf).unwrap();
    let d2 = p2.parse(&crlf).unwrap();
    assert_eq!(d1.blocks.len(), d2.blocks.len());
    for (a, b) in d1.blocks.iter().zip(d2.blocks.iter()) {
        assert_eq!(std::mem::discriminant(a), std::mem::discriminant(b));
    }
    if let (Block::Heading(h1), Block::Heading(h2)) = (&d1.blocks[0], &d2.blocks[0]) {
        assert_eq!(h1.level, h2.level);
        // The CRLF heading line starts at the same offset; only ends shift.
        assert_eq!(h1.span.start, h2.span.start);
    } else {
        panic!("Expected headings");
    }
}

#[test]
fn escaped_delimiter_stays_plain_text() {
    let input = b"\\*not emphasis*";
    let mut parser = Parser::new(Profile::Litedoc);
    let doc = parser.parse(input).unwrap();
    if let Block::Paragraph(p) = &doc.blocks[0] {
        assert_eq!(p.content.len(), 1);
        match &p.content[0] {
            Inline::Text(t) => assert_eq!(t.content, b"\\*not emphasis*".to_vec()),
            other => panic!("Expected plain text, got {:?}", other),
        }
    } else {
        panic!("Expected paragraph");
    }
}

#[test]
fn heading_scenario_exact() {
    let input = b"# Hello";
    let mut parser = Parser::new(Profile::Litedoc);
    let doc = parser.parse(input).unwrap();
    assert_eq!(doc.span, Span::new(0, 7));
    assert_eq!(doc.blocks.len(), 1);
    if let Block::Heading(h) = &doc.blocks[0] {
        assert_eq!(h.level, 1);
        assert_eq!(h.content.len(), 1);
        match &h.content[0] {
            Inline::Text(t) => assert_eq!(t.content, b"Hello".to_vec()),
            other => panic!("Expected text, got {:?}", other),
        }
    } else {
        panic!("Expected heading");
    }
}

#[test]
fn code_block_scenario_exact() {
    let input = b"```rust\nfn f(){}\n```";
    let mut parser = Parser::new(Profile::Litedoc);
    let doc = parser.parse(input).unwrap();
    assert_eq!(doc.blocks.len(), 1);
    if let Block::CodeBlock(c) = &doc.blocks[0] {
        assert_eq!(c.lang, b"rust".to_vec());
        assert_eq!(c.content, b"fn f(){}\n".to_vec());
    } else {
        panic!("Expected code block");
    }
}

#[test]
fn ordered_list_scenario_exact() {
    let input = b"::list ordered start=5\n- A\n- B\n::";
    let mut parser = Parser::new(Profile::Litedoc);
    let doc = parser.parse(input).unwrap();
    if let Block::List(l) = &doc.blocks[0] {
        assert_eq!(l.kind, ListKind::Ordered);
        assert_eq!(l.start, Some(5));
        assert_eq!(l.items.len(), 2);
        let texts: Vec<Vec<u8>> = l
            .items
            .iter()
            .map(|it| match &it.blocks[0] {
                Block::Paragraph(p) => match &p.content[0] {
                    Inline::Text(t) => t.content.clone(),
                    other => panic!("Expected text, got {:?}", other),
                },
                other => panic!("Expected paragraph, got {:?}", other),
            })
            .collect();
        assert_eq!(texts, vec![b"A".to_vec(), b"B".to_vec()]);
    } else {
        panic!("Expected list block");
    }
}

#[test]
fn callout_scenario_exact() {
    let input = b"::callout type=\"warning\" title=\"Hi\"\nBody.\n::";
    let mut parser = Parser::new(Profile::Litedoc);
    let doc = parser.parse(input).unwrap();
    if let Block::Callout(c) = &doc.blocks[0] {
        assert_eq!(c.kind, b"warning".to_vec());
        assert_eq!(c.title, Some(b"Hi".to_vec()));
        assert_eq!(c.blocks.len(), 1);
        match &c.blocks[0] {
            Block::Paragraph(p) => match &p.content[0] {
                Inline::Text(t) => assert_eq!(t.content, b"Body.".to_vec()),
                other => panic!("Expected text, got {:?}", other),
            },
            other => panic!("Expected paragraph, got {:?}", other),
        }
    } else {
        panic!("Expected callout block");
    }
}

#[test]
fn metadata_scenario_exact() {
    let input = b"--- meta\ntitle: \"T\"\nn: 42\nok: true\nxs: [1, 2]\n---\n\n# H";
    let mut parser = Parser::new(Profile::Litedoc);
    let doc = parser.parse(input).unwrap();
    let meta = doc.metadata.unwrap();
    assert_eq!(meta.entries.len(), 4);
    assert_eq!(meta.entries[0].0, b"title".to_vec());
    assert_eq!(meta.entries[0].1, AttrValue::Str(b"T".to_vec()));
    assert_eq!(meta.entries[1].0, b"n".to_vec());
    assert_eq!(meta.entries[1].1, AttrValue::Int(42));
    assert_eq!(meta.entries[2].0, b"ok".to_vec());
    assert_eq!(meta.entries[2].1, AttrValue::Bool(true));
    assert_eq!(meta.entries[3].0, b"xs".to_vec());
    assert_eq!(
        meta.entries[3].1,
        AttrValue::List(vec![AttrValue::Int(1), AttrValue::Int(2)])
    );
    assert_eq!(doc.blocks.len(), 1);
    if let Block::Heading(h) = &doc.blocks[0] {
        assert_eq!(h.level, 1);
    } else {
        panic!("Expected heading");
    }
}

#[test]
fn unknown_directive_scenario_exact() {
    let input = b"::unknown\nhi\n::";
    let mut parser = Parser::new(Profile::Litedoc);
    let result = parser.parse_with_recovery(input);
    assert_eq!(result.document.blocks.len(), 1);
    if let Block::Raw(r) = &result.document.blocks[0] {
        assert_eq!(r.content, b"hi\n".to_vec());
    } else {
        panic!("Expected raw block");
    }
    assert_eq!(result.errors.len(), 1);
    let e = result.errors.get(0);
    assert_eq!(e.kind, ParseErrorKind::UnknownDirective);
    assert!(e.message.windows(7).any(|w| w == b"unknown"));
    assert!(e.recoverable);
}

#[test]
fn mixed_inline_scenario_exact() {
    let input = b"Use `x` and [[L|u]] and <https://a>";
    let mut parser = Parser::new(Profile::Litedoc);
    let doc = parser.parse(input).unwrap();
    if let Block::Paragraph(p) = &doc.blocks[0] {
        assert_eq!(p.content.len(), 6);
        assert!(matches!(&p.content[0], Inline::Text(_)));
        match &p.content[1] {
            Inline::CodeSpan(c) => assert_eq!(c.content, b"x".to_vec()),
            other => panic!("Expected code span, got {:?}", other),
        }
        assert!(matches!(&p.content[2], Inline::Text(_)));
        match &p.content[3] {
            Inline::Link(l) => {
                assert_eq!(l.url, b"u".to_vec());
                assert_eq!(l.title, None);
                assert_eq!(l.label.len(), 1);
                match &l.label[0] {
                    Inline::Text(t) => assert_eq!(t.content, b"L".to_vec()),
                    other => panic!("Expected text label, got {:?}", other),
                }
            }
            other => panic!("Expected link, got {:?}", other),
        }
        assert!(matches!(&p.content[4], Inline::Text(_)));
        match &p.content[5] {
            Inline::AutoLink(a) => assert_eq!(a.url, b"https://a".to_vec()),
            other => panic!("Expected autolink, got {:?}", other),
        }
    } else {
        panic!("Expected paragraph");
    }
}

#[test]
fn whitespace_only_input_has_no_structure() {
    let input = b" \t \n\n\t\n";
    let mut parser = Parser::new(Profile::Md);
    let doc = parser.parse(input).unwrap();
    assert_eq!(doc.blocks.len(), 0);
    assert!(doc.metadata.is_none());
    assert!(doc.modules.is_empty());
    assert_eq!(doc.profile, Profile::Md);

    let crlf_input = b" \r\n\t\r\n\r\n";
    let mut parser2 = Parser::new(Profile::Litedoc);
    let doc2 = parser2.parse(crlf_input).unwrap();
    assert_eq!(doc2.blocks.len(), 0);
    assert!(doc2.metadata.is_none());
}

#[test]
fn unclosed_list_records_unclosed_delimiter() {
    let input = b"::list\n- A\n# heading";
    let mut parser = Parser::new(Profile::Litedoc);
    let result = parser.parse_with_recovery(input);
    assert_eq!(result.errors.len(), 1);
    let e = result.errors.get(0);
    assert_eq!(e.kind, ParseErrorKind::UnclosedDelimiter);
    assert_eq!(e.message, b"unclosed ::list".to_vec());
    assert!(!result.has_fatal_errors());
}

#[test]
fn stray_list_line_records_invalid_syntax() {
    let input = b"::list\n- A\nnot an item\n::";
    let mut parser = Parser::new(Profile::Litedoc);
    let result = parser.parse_with_recovery(input);
    assert_eq!(result.errors.len(), 1);
    let e = result.errors.get(0);
    assert_eq!(e.kind, ParseErrorKind::InvalidSyntax);
    assert_eq!(e.message, b"invalid syntax in list item".to_vec());
}

#[test]
fn non_table_line_records_unclosed_table() {
    let input = b"::table\n| A |\nwords\n::";
    let mut parser = Parser::new(Profile::Litedoc);
    let result = parser.parse_with_recovery(input);
    assert!(result
        .errors
        .iter()
        .iter()
        .any(|e| e.kind == ParseErrorKind::UnclosedDelimiter
            && e.message == b"unclosed ::table".to_vec()));
}

#[test]
fn unclosed_html_block_records_error() {
    let input = b"@modules html\n\n::html\n<p>hi</p>";
    let mut parser = Parser::new(Profile::Litedoc);
    let result = parser.parse_with_recovery(input);
    assert!(matches!(&result.document.blocks[0], Block::Html(_)));
    assert_eq!(result.errors.len(), 1);
    let e = result.errors.get(0);
    assert_eq!(e.kind, ParseErrorKind::UnclosedDelimiter);
    assert_eq!(e.message, b"unclosed HTML block".to_vec());
}

#[test]
fn html_without_module_falls_back_to_raw() {
    let input = b"::html\n<p>hi</p>\n::";
    let mut parser = Parser::new(Profile::Litedoc);
    let doc = parser.parse(input).unwrap();
    assert!(matches!(&doc.blocks[0], Block::Raw(_)));
}

#[test]
fn html_with_module_passes_through() {
    let input = b"@modules html\n\n::html\n<p>hi</p>\n::";
    let mut parser = Parser::new(Profile::Litedoc);
    let doc = parser.parse(input).unwrap();
    if let Block::Html(h) = &doc.blocks[0] {
        assert_eq!(h.content, b"<p>hi</p>\n".to_vec());
    } else {
        panic!("Expected html block");
    }
}

#[test]
fn list_start_out_of_range_is_dropped() {
    let input = b"::list ordered start=99999999999999999999\n- A\n::";
    let mut parser = Parser::new(Profile::Litedoc);
    let doc = parser.parse(input).unwrap();
    if let Block::List(l) = &doc.blocks[0] {
        assert_eq!(l.kind, ListKind::Ordered);
        assert_eq!(l.start, None);
    } else {
        panic!("Expected list block");
    }
}

#[test]
fn list_continuation_lines_extend_items() {
    let input = b"::list\n- first\n| more\n- second\n::";
    let mut parser = Parser::new(Profile::Litedoc);
    let doc = parser.parse(input).unwrap();
    if let Block::List(l) = &doc.blocks[0] {
        assert_eq!(l.items.len(), 2);
        // The first item's span extends over its continuation line.
        assert!(l.items[0].span.end > l.items[0].span.start);
        assert!(l.items[0].span.end <= l.items[1].span.start);
    } else {
        panic!("Expected list block");
    }
}

#[test]
fn metadata_integer_bounds() {
    let input =
        b"--- meta\nmin: -9223372036854775808\nmax: 9223372036854775807\nover: 9223372036854775808\n---";
    let mut parser = Parser::new(Profile::Litedoc);
    let doc = parser.parse(input).unwrap();
    let meta = doc.metadata.unwrap();
    assert_eq!(meta.entries[0].1, AttrValue::Int(i64::MIN));
    assert_eq!(meta.entries[1].1, AttrValue::Int(i64::MAX));
    assert_eq!(
        meta.entries[2].1,
        AttrValue::Str(b"9223372036854775808".to_vec())
    );
}

#[test]
fn metadata_float_forms() {
    let input = b"--- meta\na: 1.5e3\nb: 1.2.3\nc: -0.5\nd: 'q'\n---";
    let mut parser = Parser::new(Profile::Litedoc);
    let doc = parser.parse(input).unwrap();
    let meta = doc.metadata.unwrap();
    assert_eq!(meta.entries[0].1, AttrValue::Float(b"1.5e3".to_vec()));
    assert_eq!(meta.entries[1].1, AttrValue::Str(b"1.2.3".to_vec()));
    assert_eq!(meta.entries[2].1, AttrValue::Float(b"-0.5".to_vec()));
    assert_eq!(meta.entries[3].1, AttrValue::Str(b"q".to_vec()));
}

#[test]
fn emphasis_closes_at_first_valid_delimiter() {
    let input = b"*a*b*";
    let mut parser = Parser::new(Profile::Litedoc);
    let doc = parser.parse(input).unwrap();
    if let Block::Paragraph(p) = &doc.blocks[0] {
        match &p.content[0] {
            Inline::Emphasis(e) => {
                assert_eq!(e.span, Span::new(0, 3));
                match &e.content[0] {
                    Inline::Text(t) => assert_eq!(t.content, b"a".to_vec()),
                    other => panic!("Expected text, got {:?}", other),
                }
            }
            other => panic!("Expected emphasis, got {:?}", other),
        }
    } else {
        panic!("Expected paragraph");
    }
}

#[test]
fn emphasis_boundary_rules() {
    let cases: [(&[u8], bool); 3] = [
        (b"*foo*", true),
        (b"* foo*", false),
        (b"*foo *", false),
    ];
    for (input, expect_emphasis) in cases {
        let mut parser = Parser::new(Profile::Litedoc);
        let doc = parser.parse(input).unwrap();
        if let Block::Paragraph(p) = &doc.blocks[0] {
            let has = p.content.iter().any(|i| matches!(i, Inline::Emphasis(_)));
            assert_eq!(has, expect_emphasis, "case {:?}", String::from_utf8_lossy(input));
        } else {
            panic!("Expected paragraph");
        }
    }
}

#[test]
fn error_constructors_and_collector() {
    let e = ParseError::unexpected_eof(Some(Span::new(1, 2)));
    assert_eq!(e.kind, ParseErrorKind::UnexpectedEof);
    assert!(!e.recoverable);
    assert_eq!(e.message, b"unexpected end of input".to_vec());

    let e2 = ParseError::new(b"boom".to_vec(), None)
        .with_kind(ParseErrorKind::InvalidMetadata)
        .non_recoverable();
    assert_eq!(e2.kind, ParseErrorKind::InvalidMetadata);
    assert!(!e2.recoverable);

    let mut errors = litedoc::ParseErrors::new();
    assert!(errors.is_empty());
    assert!(!errors.has_fatal());
    errors.push(e);
    errors.push(e2);
    assert_eq!(errors.len(), 2);
    assert!(errors.has_fatal());
}

#[test]
fn span_operations() {
    let s = Span::new(2, 8);
    assert_eq!(s.len(), 6);
    assert!(!s.is_empty());
    assert!(s.contains(2));
    assert!(s.contains(7));
    assert!(!s.contains(8));
    assert!(!s.contains(1));
    let t = Span::new(5, 12);
    assert_eq!(s.merge(t), Span::new(2, 12));
    assert_eq!(t.merge(s), Span::new(2, 12));
    assert!(Span::new(3, 3).is_empty());
    assert_eq!(Span::new(7, 4).len(), 0);
}

#[test]
fn parse_fails_without_recovery_result() {
    let input = b"::mystery\nx\n::";
    let mut parser = Parser::new(Profile::Litedoc);
    let err = parser.parse(input).unwrap_err();
    assert_eq!(err.kind, ParseErrorKind::UnknownDirective);
    assert_eq!(err.message, b"unknown directive: mystery".to_vec());
}

#[test]
fn recovery_off_suppresses_unknown_directive_errors() {
    let input = b"::mystery\nx\n::";
    let mut parser = Parser::new(Profile::Litedoc).with_recovery(false);
    let doc = parser.parse(input).unwrap();
    assert!(matches!(&doc.blocks[0], Block::Raw(_)));
}

#[test]
fn quote_body_paragraphs_split_on_blank_lines() {
    let input = b"::quote\nOne.\n\nTwo.\n::";
    let mut parser = Parser::new(Profile::Litedoc);
    let doc = parser.parse(input).unwrap();
    if let Block::Quote(q) = &doc.blocks[0] {
        assert_eq!(q.blocks.len(), 2);
    } else {
        panic!("Expected quote block");
    }
}

#[test]
fn table_cells_have_trimmed_content() {
    let input = b"::table\n| Name | Age |\n::";
    let mut parser = Parser::new(Profile::Litedoc);
    let doc = parser.parse(input).unwrap();
    if let Block::Table(t) = &doc.blocks[0] {
        assert_eq!(t.rows.len(), 1);
        assert_eq!(t.rows[0].cells.len(), 2);
        match &t.rows[0].cells[0].content[0] {
            Inline::Text(x) => assert_eq!(x.content, b"Name".to_vec()),
            other => panic!("Expected text, got {:?}", other),
        }
        match &t.rows[0].cells[1].content[0] {
            Inline::Text(x) => assert_eq!(x.content, b"Age".to_vec()),
            other => panic!("Expected text, got {:?}", other),
        }
    } else {
        panic!("Expected table block");
    }
}

#[test]
fn footnote_definition_body_is_a_paragraph() {
    let input = b"::footnotes\n[^note]: Some *styled* body.\n::";
    let mut parser = Parser::new(Profile::Litedoc);
    let doc = parser.parse(input).unwrap();
    if let Block::Footnotes(f) = &doc.blocks[0] {
        assert_eq!(f.defs.len(), 1);
        assert_eq!(f.defs[0].label, b"note".to_vec());
        match &f.defs[0].blocks[0] {
            Block::Paragraph(p) => {
                assert!(p.content.iter().any(|i| matches!(i, Inline::Emphasis(_))));
            }
            other => panic!("Expected paragraph, got {:?}", other),
        }
    } else {
        panic!("Expected footnotes block");
    }
}

#[test]
fn unknown_profile_value_leaves_the_line_alone() {
    let input = b"@profile klingon\n\n# H";
    let mut parser = Parser::new(Profile::Litedoc);
    let doc = parser.parse(input).unwrap();
    assert_eq!(doc.profile, Profile::Litedoc);
    // The directive line is not consumed; it becomes a paragraph.
    assert_eq!(doc.blocks.len(), 2);
    assert!(matches!(&doc.blocks[0], Block::Paragraph(_)));
    assert!(matches!(&doc.blocks[1], Block::Heading(_)));
}

#[test]
fn unknown_module_names_are_dropped() {
    let input = b"@modules tables, gadgets, math\n\n# H";
    let mut parser = Parser::new(Profile::Litedoc);
    let doc = parser.parse(input).unwrap();
    assert_eq!(doc.modules.len(), 2);
}

#[test]
fn dashes_without_meta_are_not_metadata() {
    let input = b"---\n\nWords.";
    let mut parser = Parser::new(Profile::Litedoc);
    let doc = parser.parse(input).unwrap();
    assert!(doc.metadata.is_none());
    assert!(matches!(&doc.blocks[0], Block::ThematicBreak(_)));
}

#[test]
fn rows_after_separator_are_not_headers() {
    let input = b"::table\n|---|\n| A |\n::";
    let mut parser = Parser::new(Profile::Litedoc);
    let doc = parser.parse(input).unwrap();
    if let Block::Table(t) = &doc.blocks[0] {
        assert_eq!(t.rows.len(), 1);
        assert!(!t.rows[0].header);
    } else {
        panic!("Expected table block");
    }
}

#[test]
fn figure_without_closer_spans_its_opener() {
    let input = b"::figure src=\"a.png\"\nnext paragraph";
    let mut parser = Parser::new(Profile::Litedoc);
    let doc = parser.parse(input).unwrap();
    assert_eq!(doc.blocks.len(), 2);
    if let Block::Figure(f) = &doc.blocks[0] {
        assert_eq!(f.src, b"a.png".to_vec());
        assert_eq!(f.caption, None);
    } else {
        panic!("Expected figure block");
    }
}

#[test]
fn unclosed_inline_constructs_stay_text() {
    let cases: [&[u8]; 4] = [b"a `code", b"a [[label", b"a [^ref", b"a ~~gone"];
    for input in cases {
        let mut parser = Parser::new(Profile::Litedoc);
        let doc = parser.parse(input).unwrap();
        if let Block::Paragraph(p) = &doc.blocks[0] {
            for i in &p.content {
                assert!(
                    matches!(i, Inline::Text(_)),
                    "case {:?} gave {:?}",
                    String::from_utf8_lossy(input),
                    i
                );
            }
        } else {
            panic!("Expected paragraph");
        }
    }
}

#[test]
fn autolink_needs_a_scheme_and_no_spaces() {
    let cases: [(&[u8], bool); 3] = [
        (b"see <https://x> now", true),
        (b"see <not a url> now", false),
        (b"see <mailto:a@b> now", true),
    ];
    for (input, expect) in cases {
        let mut parser = Parser::new(Profile::Litedoc);
        let doc = parser.parse(input).unwrap();
        if let Block::Paragraph(p) = &doc.blocks[0] {
            let has = p.content.iter().any(|i| matches!(i, Inline::AutoLink(_)));
            assert_eq!(has, expect, "case {:?}", String::from_utf8_lossy(input));
        } else {
            panic!("Expected paragraph");
        }
    }
}

#[test]
fn empty_code_fence_has_empty_content() {
    let input = b"```\n```";
    let mut parser = Parser::new(Profile::Litedoc);
    let doc = parser.parse(input).unwrap();
    if let Block::CodeBlock(c) = &doc.blocks[0] {
        assert!(c.lang.is_empty());
        assert!(c.content.is_empty());
    } else {
        panic!("Expected code block");
    }
}

#[test]
fn link_without_pipe_uses_content_for_both() {
    let input = b"go [[https://x]] now";
    let mut parser = Parser::new(Profile::Litedoc);
    let doc = parser.parse(input).unwrap();
    if let Block::Paragraph(p) = &doc.blocks[0] {
        let found = p.content.iter().find_map(|i| match i {
            Inline::Link(l) => Some(l),
            _ => None,
        });
        let l = found.expect("Expected a link");
        assert_eq!(l.url, b"https://x".to_vec());
        match &l.label[0] {
            Inline::Text(t) => assert_eq!(t.content, b"https://x".to_vec()),
            other => panic!("Expected text label, got {:?}", other),
        }
    } else {
        panic!("Expected paragraph");
    }
}

#[test]
fn list_unclosed_at_end_of_input_keeps_no_pending_item() {
    let input = b"::list\n- A";
    let mut parser = Parser::new(Profile::Litedoc);
    let result = parser.parse_with_recovery(input);
    if let Block::List(l) = &result.document.blocks[0] {
        // The open item is discarded when input ends before the closer.
        assert_eq!(l.items.len(), 0);
    } else {
        panic!("Expected list block");
    }
}
