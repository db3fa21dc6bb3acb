//! End-to-end tests for the doc-comment markup parser and the HTML
//! fragment renderer.

use doc_markup::render;
use doc_markup::text::TextParser;
use doc_markup::{
    parse, Attribute, Block, BlockData, ListEl, Part, TableCol, TableRow, Text, TextAttr,
    TextBlock,
};

fn bytes(s: &str) -> Vec<u8> {
    s.as_bytes().to_vec()
}

fn raw_tb(s: &str) -> TextBlock {
    TextBlock { attribute: None, inner: Text::Raw(bytes(s)) }
}

fn text_bd(s: &str) -> BlockData {
    BlockData { attributes: vec![], inner: Block::Text(raw_tb(s)) }
}

fn parse_str(s: &str) -> Vec<Part> {
    parse(s.as_bytes()).parts
}

fn inline(s: &str) -> TextBlock {
    TextParser::parse(s.as_bytes())
}

// ---------------------------------------------------------------------------
// Document structure.
// ---------------------------------------------------------------------------

#[test]
fn section_header_depth_two() {
    let parts = parse_str("== Title\n");
    assert_eq!(parts, vec![Part::SectionHeader(2, raw_tb("Title"))]);
}

#[test]
fn section_header_depth_one() {
    let parts = parse_str("= Top\n");
    assert_eq!(parts, vec![Part::SectionHeader(1, raw_tb("Top"))]);
}

#[test]
fn equals_run_without_space_is_text() {
    let parts = parse_str("==x\n");
    assert_eq!(parts, vec![Part::Block(text_bd("==x"))]);
}

#[test]
fn variable_substitution_in_text() {
    let parts = parse_str(":name: World\n\nHello {name}\n");
    assert_eq!(parts, vec![Part::Block(text_bd("Hello World"))]);
}

#[test]
fn first_binding_wins() {
    let parts = parse_str(":a: 1\n:a: 2\n{a}\n");
    assert_eq!(parts, vec![Part::Block(text_bd("1"))]);
}

#[test]
fn transitive_substitution() {
    let parts = parse_str(":b: X\n:a: {b}\n{a}\n");
    assert_eq!(parts, vec![Part::Block(text_bd("X"))]);
}

#[test]
fn cyclic_definition_stops() {
    // a definition that refers to itself must not loop forever; the
    // bounded re-scan leaves the reference in place
    let parts = parse_str(":a: {a}\n{a}\n");
    assert_eq!(parts, vec![Part::Block(text_bd("{a}"))]);
}

#[test]
fn unknown_reference_is_kept() {
    let parts = parse_str("keep {missing} here\n");
    assert_eq!(parts, vec![Part::Block(text_bd("keep {missing} here"))]);
}

#[test]
fn empty_input_gives_no_parts() {
    assert_eq!(parse_str(""), vec![]);
    assert_eq!(parse_str("\n\n\n"), vec![]);
}

#[test]
fn line_continuation_joins_physical_lines() {
    let parts = parse_str("ab\\\ncd\n");
    assert_eq!(parts, vec![Part::Block(text_bd("abcd"))]);
}

#[test]
fn text_lines_join_with_single_spaces() {
    let parts = parse_str("one\ntwo\n\nthree\n");
    assert_eq!(parts, vec![Part::Block(text_bd("one two")), Part::Block(text_bd("three"))]);
}

#[test]
fn reparse_is_deterministic_and_ordered() {
    let input = "= A\n\nfirst\n\n== B\n\nsecond\n";
    let one = parse(input.as_bytes());
    let two = parse(input.as_bytes());
    assert_eq!(one, two);
    assert_eq!(
        one.parts,
        vec![
            Part::SectionHeader(1, raw_tb("A")),
            Part::Block(text_bd("first")),
            Part::SectionHeader(2, raw_tb("B")),
            Part::Block(text_bd("second")),
        ]
    );
}

// ---------------------------------------------------------------------------
// Blocks.
// ---------------------------------------------------------------------------

#[test]
fn grouped_two_blocks() {
    let parts = parse_str("{\nfoo\n\nbar\n\n}\n");
    assert_eq!(
        parts,
        vec![Part::Block(BlockData {
            attributes: vec![],
            inner: Block::Grouped(vec![text_bd("foo"), text_bd("bar")]),
        })]
    );
}

#[test]
fn grouped_close_needs_no_blank_line() {
    // the closing brace line ends the text block before it, so the
    // group closes even with no blank line in between
    let parts = parse_str("{\nfoo\n\nbar\n}\n");
    assert_eq!(
        parts,
        vec![Part::Block(BlockData {
            attributes: vec![],
            inner: Block::Grouped(vec![text_bd("foo"), text_bd("bar")]),
        })]
    );
}

#[test]
fn close_brace_opening_a_text_block_is_plain_text() {
    // a brace line ends a text block only once text has been collected;
    // at the start of a block it is ordinary text
    let parts = parse_str("bar\n}\n");
    assert_eq!(parts, vec![Part::Block(text_bd("bar")), Part::Block(text_bd("}"))]);
}

#[test]
fn unterminated_group_closes_at_end() {
    let parts = parse_str("{\nfoo\n");
    assert_eq!(
        parts,
        vec![Part::Block(BlockData {
            attributes: vec![],
            inner: Block::Grouped(vec![text_bd("foo")]),
        })]
    );
}

#[test]
fn code_block_captures_bytes() {
    let parts = parse_str("----\nlet x;\n\n  more\n----\nafter\n");
    assert_eq!(
        parts,
        vec![
            Part::Block(BlockData {
                attributes: vec![],
                inner: Block::Code(bytes("let x;\n\n  more")),
            }),
            Part::Block(text_bd("after")),
        ]
    );
}

#[test]
fn unterminated_code_closes_at_end() {
    // with no closing fence, reading on until the end of input captures
    // the empty line that the exhausted source yields, newline included
    let parts = parse_str("----\nabc\n");
    assert_eq!(
        parts,
        vec![Part::Block(BlockData { attributes: vec![], inner: Block::Code(bytes("abc\n")) })]
    );
}

#[test]
fn code_is_not_inline_parsed() {
    let parts = parse_str("----\n*hi* {x}\n----\n");
    assert_eq!(
        parts,
        vec![Part::Block(BlockData { attributes: vec![], inner: Block::Code(bytes("*hi* {x}")) })]
    );
}

#[test]
fn table_three_columns() {
    let parts = parse_str("|===\n|a|b|c\n|===\n");
    assert_eq!(
        parts,
        vec![Part::Block(BlockData {
            attributes: vec![],
            inner: Block::Table(vec![TableRow {
                cols: vec![
                    TableCol::Simple(raw_tb("a")),
                    TableCol::Simple(raw_tb("b")),
                    TableCol::Simple(raw_tb("c")),
                ],
            }]),
        })]
    );
}

#[test]
fn table_escaped_pipe_stays_in_cell() {
    let parts = parse_str("|===\n|a\\|b\n|===\n");
    assert_eq!(
        parts,
        vec![Part::Block(BlockData {
            attributes: vec![],
            inner: Block::Table(vec![TableRow { cols: vec![TableCol::Simple(raw_tb("a|b"))] }]),
        })]
    );
}

#[test]
fn table_complex_row_holds_a_block() {
    let parts = parse_str("|===\nplain\n\n|===\n");
    assert_eq!(
        parts,
        vec![Part::Block(BlockData {
            attributes: vec![],
            inner: Block::Table(vec![TableRow {
                cols: vec![TableCol::Complex(text_bd("plain"))],
            }]),
        })]
    );
}

#[test]
fn table_fence_closes_after_complex_row_text() {
    // the closing fence also ends the text block of a complex row, so
    // no blank line is needed before it
    let parts = parse_str("|===\nplain\n|===\n");
    assert_eq!(
        parts,
        vec![Part::Block(BlockData {
            attributes: vec![],
            inner: Block::Table(vec![TableRow {
                cols: vec![TableCol::Complex(text_bd("plain"))],
            }]),
        })]
    );
}

#[test]
fn table_two_rows_split_by_blank() {
    let parts = parse_str("|===\n|a\n\n|b\n|===\n");
    assert_eq!(
        parts,
        vec![Part::Block(BlockData {
            attributes: vec![],
            inner: Block::Table(vec![
                TableRow { cols: vec![TableCol::Simple(raw_tb("a"))] },
                TableRow { cols: vec![TableCol::Simple(raw_tb("b"))] },
            ]),
        })]
    );
}

#[test]
fn list_mixed_simple_and_complex() {
    let parts = parse_str("* one\n**\nblock text\n");
    assert_eq!(
        parts,
        vec![Part::Block(BlockData {
            attributes: vec![],
            inner: Block::List(vec![
                ListEl::Simple(raw_tb("one")),
                ListEl::Complex(text_bd("block text")),
            ]),
        })]
    );
}

#[test]
fn list_item_continuation_lines() {
    let parts = parse_str("* one\n  two\n* three\n");
    assert_eq!(
        parts,
        vec![Part::Block(BlockData {
            attributes: vec![],
            inner: Block::List(vec![
                ListEl::Simple(raw_tb("one two")),
                ListEl::Simple(raw_tb("three")),
            ]),
        })]
    );
}

#[test]
fn attribute_without_args() {
    let parts = parse_str("[hidden]\nsecret\n");
    assert_eq!(
        parts,
        vec![Part::Block(BlockData {
            attributes: vec![Attribute { name: bytes("hidden"), args: None }],
            inner: Block::Text(raw_tb("secret")),
        })]
    );
}

#[test]
fn attribute_splits_at_first_comma() {
    let parts = parse_str("[field, x,y]\nbody\n");
    assert_eq!(
        parts,
        vec![Part::Block(BlockData {
            attributes: vec![Attribute { name: bytes("field"), args: Some(bytes(" x,y")) }],
            inner: Block::Text(raw_tb("body")),
        })]
    );
}

#[test]
fn consecutive_attributes_attach_in_order() {
    let parts = parse_str("[a]\n[b]\nbody\n");
    assert_eq!(
        parts,
        vec![Part::Block(BlockData {
            attributes: vec![
                Attribute { name: bytes("a"), args: None },
                Attribute { name: bytes("b"), args: None },
            ],
            inner: Block::Text(raw_tb("body")),
        })]
    );
}

#[test]
fn deeply_nested_groups_terminate() {
    let mut input = String::new();
    for _ in 0..40 {
        input.push_str("{\n");
    }
    input.push_str("x\n");
    for _ in 0..40 {
        input.push_str("}\n");
    }
    let parts = parse_str(&input);
    assert_eq!(parts.len(), 1);
    let mut cur = match &parts[0] {
        Part::Block(bd) => bd,
        _ => panic!("expected a block"),
    };
    let mut depth = 0;
    loop {
        match &cur.inner {
            Block::Grouped(inner) => {
                assert_eq!(inner.len(), 1);
                depth += 1;
                cur = &inner[0];
            },
            Block::Text(tb) => {
                assert_eq!(*tb, raw_tb("x"));
                break;
            },
            _ => panic!("unexpected block kind"),
        }
    }
    assert_eq!(depth, 40);
}

// ---------------------------------------------------------------------------
// Inline text.
// ---------------------------------------------------------------------------

#[test]
fn bold_span() {
    assert_eq!(
        inline("*hi*"),
        TextBlock { attribute: Some(TextAttr::Bold), inner: Text::Raw(bytes("hi")) }
    );
}

#[test]
fn raw_span_keeps_asterisks() {
    assert_eq!(
        inline("`*hi*`"),
        TextBlock { attribute: Some(TextAttr::Raw), inner: Text::Raw(bytes("*hi*")) }
    );
}

#[test]
fn escaped_asterisks_stay_plain() {
    assert_eq!(inline("\\*x\\*"), raw_tb("*x*"));
}

#[test]
fn escaped_link_keyword_stays_plain() {
    assert_eq!(inline("\\link:x"), raw_tb("link:x"));
}

#[test]
fn unterminated_bold_is_captured() {
    assert_eq!(
        inline("*abc"),
        TextBlock { attribute: Some(TextAttr::Bold), inner: Text::Raw(bytes("abc")) }
    );
}

#[test]
fn empty_input_is_empty_raw() {
    assert_eq!(inline(""), raw_tb(""));
}

#[test]
fn bold_interior_is_parsed_recursively() {
    assert_eq!(
        inline("*a`c`*"),
        TextBlock {
            attribute: Some(TextAttr::Bold),
            inner: Text::Nested(vec![
                raw_tb("a"),
                TextBlock { attribute: Some(TextAttr::Raw), inner: Text::Raw(bytes("c")) },
            ]),
        }
    );
}

#[test]
fn link_with_text() {
    assert_eq!(
        inline("link:http://x.com[Example]"),
        TextBlock {
            attribute: None,
            inner: Text::Link(bytes("http://x.com"), Some(Box::new(raw_tb("Example")))),
        }
    );
}

#[test]
fn bare_link() {
    assert_eq!(
        inline("link:http://x.com"),
        TextBlock { attribute: None, inner: Text::Link(bytes("http://x.com"), None) }
    );
}

#[test]
fn link_target_ends_at_space() {
    assert_eq!(
        inline("link:x rest"),
        TextBlock {
            attribute: None,
            inner: Text::Nested(vec![
                TextBlock { attribute: None, inner: Text::Link(bytes("x"), None) },
                raw_tb(" rest"),
            ]),
        }
    );
}

#[test]
fn unterminated_link_text_is_reprocessed() {
    assert_eq!(
        inline("link:x[abc"),
        TextBlock {
            attribute: None,
            inner: Text::Nested(vec![
                TextBlock { attribute: None, inner: Text::Link(bytes("x"), None) },
                raw_tb("[abc"),
            ]),
        }
    );
}

#[test]
fn link_text_supports_escapes_and_formatting() {
    assert_eq!(
        inline("link:x[*b*]"),
        TextBlock {
            attribute: None,
            inner: Text::Link(
                bytes("x"),
                Some(Box::new(TextBlock {
                    attribute: Some(TextAttr::Bold),
                    inner: Text::Raw(bytes("b")),
                })),
            ),
        }
    );
    assert_eq!(
        inline("link:x[a\\]b]"),
        TextBlock { attribute: None, inner: Text::Link(bytes("x"), Some(Box::new(raw_tb("a]b")))) }
    );
}

#[test]
fn mixed_spans_nest_in_order() {
    assert_eq!(
        inline("a *b* c"),
        TextBlock {
            attribute: None,
            inner: Text::Nested(vec![
                raw_tb("a "),
                TextBlock { attribute: Some(TextAttr::Bold), inner: Text::Raw(bytes("b")) },
                raw_tb(" c"),
            ]),
        }
    );
}

#[test]
fn subst_leaves_escaped_braces() {
    let vars = vec![(bytes("a"), bytes("V"))];
    assert_eq!(TextParser::subst(b"\\{a} {a}", &vars), bytes("\\{a} V"));
}

#[test]
fn escaped_brace_reaches_inline_parser() {
    let parts = parse_str(":a: V\n\n\\{a}\n");
    assert_eq!(parts, vec![Part::Block(text_bd("{a}"))]);
}

// ---------------------------------------------------------------------------
// Rendering.
// ---------------------------------------------------------------------------

fn rendered<F: FnOnce(&mut Vec<u8>)>(f: F) -> String {
    let mut out: Vec<u8> = Vec::new();
    f(&mut out);
    String::from_utf8(out).unwrap()
}

#[test]
fn raw_escapes_html_characters() {
    assert_eq!(rendered(|out| render::raw(out, b"a<&>b")), "a&lt;&amp;&gt;b");
}

#[test]
fn header_renders_with_depth_plus_one() {
    let tb = raw_tb("Title");
    assert_eq!(
        rendered(|out| render::section_header(out, 1, &tb, false)),
        "<h2>Title</h2>"
    );
}

#[test]
fn informative_header_carries_note() {
    let tb = raw_tb("T");
    assert_eq!(
        rendered(|out| render::section_header(out, 1, &tb, true)),
        "<h2>T</h2><p class=\"info_head\">This section is informative.</p>"
    );
}

#[test]
fn bold_and_verbatim_render_as_tags() {
    let b = TextBlock { attribute: Some(TextAttr::Bold), inner: Text::Raw(bytes("x")) };
    assert_eq!(rendered(|out| render::text_block(out, &b)), "<b>x</b>");
    let c = TextBlock { attribute: Some(TextAttr::Raw), inner: Text::Raw(bytes("<y>")) };
    assert_eq!(rendered(|out| render::text_block(out, &c)), "<code>&lt;y&gt;</code>");
}

#[test]
fn man_links_point_at_online_pages() {
    let target = bytes("man:signal(7)");
    assert_eq!(
        rendered(|out| render::link(out, &target, &None)),
        "<a href=\"http://man7.org/linux/man-pages/man7/signal.7.html\">signal(7)</a>"
    );
}

#[test]
fn lrs_links_are_relative() {
    let target = bytes("lrs_doc");
    assert_eq!(
        rendered(|out| render::link(out, &target, &None)),
        "<a href=\"./lrs_doc.html\">lrs_doc</a>"
    );
}

#[test]
fn plain_links_use_the_target() {
    let target = bytes("http://x");
    let label = Some(Box::new(raw_tb("E")));
    assert_eq!(
        rendered(|out| render::link(out, &target, &label)),
        "<a href=\"http://x\">E</a>"
    );
    assert_eq!(
        rendered(|out| render::link(out, &target, &None)),
        "<a href=\"http://x\">http://x</a>"
    );
}

#[test]
fn nested_text_renders_in_order() {
    let t = Text::Nested(vec![
        raw_tb("a "),
        TextBlock { attribute: Some(TextAttr::Bold), inner: Text::Raw(bytes("b")) },
    ]);
    assert_eq!(rendered(|out| render::text(out, &t)), "a <b>b</b>");
}

#[test]
fn text_block_is_compares_plain_runs() {
    assert!(render::text_block_is(&raw_tb("Description"), b"Description"));
    assert!(!render::text_block_is(&raw_tb("Other"), b"Description"));
    let bold = TextBlock { attribute: Some(TextAttr::Bold), inner: Text::Raw(bytes("x")) };
    assert!(render::text_block_is(&bold, b"x"));
    let nested = TextBlock { attribute: None, inner: Text::Nested(vec![raw_tb("x")]) };
    assert!(!render::text_block_is(&nested, b"x"));
}

#[test]
fn header_text_is_inline_parsed_with_bindings() {
    let parts = parse_str(":x: T\n\n== {x} *b*\n");
    assert_eq!(
        parts,
        vec![Part::SectionHeader(
            2,
            TextBlock {
                attribute: None,
                inner: Text::Nested(vec![
                    raw_tb("T "),
                    TextBlock { attribute: Some(TextAttr::Bold), inner: Text::Raw(bytes("b")) },
                ]),
            }
        )]
    );
}

#[test]
fn table_row_mixes_simple_and_complex_cells() {
    let parts = parse_str("|===\n|a\nplain\n\n|===\n");
    assert_eq!(
        parts,
        vec![Part::Block(BlockData {
            attributes: vec![],
            inner: Block::Table(vec![TableRow {
                cols: vec![TableCol::Simple(raw_tb("a")), TableCol::Complex(text_bd("plain"))],
            }]),
        })]
    );
}

#[test]
fn complex_list_item_may_hold_a_code_block() {
    let parts = parse_str("**\n----\nx\n----\n");
    assert_eq!(
        parts,
        vec![Part::Block(BlockData {
            attributes: vec![],
            inner: Block::List(vec![ListEl::Complex(BlockData {
                attributes: vec![],
                inner: Block::Code(bytes("x")),
            })]),
        })]
    );
}

#[test]
fn attribute_attaches_to_a_list() {
    let parts = parse_str("[hidden]\n* a\n");
    assert_eq!(
        parts,
        vec![Part::Block(BlockData {
            attributes: vec![Attribute { name: bytes("hidden"), args: None }],
            inner: Block::List(vec![ListEl::Simple(raw_tb("a"))]),
        })]
    );
}

#[test]
fn attributed_span_is_wrapped_before_stamping() {
    // the interior of the bold span already carries an attribute, so it
    // is wrapped in a one-element nesting rather than overwritten
    assert_eq!(
        inline("*`x`*"),
        TextBlock {
            attribute: Some(TextAttr::Bold),
            inner: Text::Nested(vec![TextBlock {
                attribute: Some(TextAttr::Raw),
                inner: Text::Raw(bytes("x")),
            }]),
        }
    );
}

#[test]
fn substitution_applies_inside_table_cells() {
    let parts = parse_str(":v: V\n\n|===\n|{v}\n|===\n");
    assert_eq!(
        parts,
        vec![Part::Block(BlockData {
            attributes: vec![],
            inner: Block::Table(vec![TableRow { cols: vec![TableCol::Simple(raw_tb("V"))] }]),
        })]
    );
}

#[test]
fn escaped_backslash_collapses() {
    assert_eq!(inline("a\\\\b"), raw_tb("a\\b"));
}

#[test]
fn parse_then_render_end_to_end() {
    let doc = parse(b"== *T*\n\ncode `x<y`\n");
    let mut out: Vec<u8> = Vec::new();
    for part in &doc.parts {
        match part {
            Part::SectionHeader(d, tb) => render::section_header(&mut out, *d, tb, false),
            Part::Block(bd) => {
                if let Block::Text(tb) = &bd.inner {
                    render::text_block(&mut out, tb);
                }
            }
        }
    }
    assert_eq!(
        String::from_utf8(out).unwrap(),
        "<h3><b>T</b></h3>code <code>x&lt;y</code>"
    );
}

#[test]
fn empty_variable_name_is_not_a_definition() {
    let parts = parse_str(":: x\n");
    assert_eq!(parts, vec![Part::Block(text_bd(":: x"))]);
}

#[test]
fn unclosed_bracket_line_is_not_an_attribute() {
    let parts = parse_str("[x\n");
    assert_eq!(parts, vec![Part::Block(text_bd("[x"))]);
}

#[test]
fn empty_braces_are_plain_text() {
    let parts = parse_str("a{}b\n");
    assert_eq!(parts, vec![Part::Block(text_bd("a{}b"))]);
}

#[test]
fn empty_bold_span() {
    assert_eq!(
        inline("**"),
        TextBlock { attribute: Some(TextAttr::Bold), inner: Text::Raw(bytes("")) }
    );
}

#[test]
fn lone_backtick_gives_empty_verbatim_span() {
    assert_eq!(
        inline("`"),
        TextBlock { attribute: Some(TextAttr::Raw), inner: Text::Raw(bytes("")) }
    );
}

#[test]
fn trailing_continuation_line_is_dropped() {
    // a backslash continuation at the very end of input joins with
    // nothing: reading it already exhausts the source, and the document
    // loop stops before using the line
    assert_eq!(parse_str("ab\\"), vec![]);
}

#[test]
fn empty_table_has_no_rows() {
    let parts = parse_str("|===\n");
    assert_eq!(
        parts,
        vec![Part::Block(BlockData { attributes: vec![], inner: Block::Table(vec![]) })]
    );
}

#[test]
fn attribute_with_no_block_decorates_empty_text() {
    let parts = parse_str("[a]\n");
    assert_eq!(
        parts,
        vec![Part::Block(BlockData {
            attributes: vec![Attribute { name: bytes("a"), args: None }],
            inner: Block::Text(raw_tb("")),
        })]
    );
}

#[test]
fn empty_group() {
    let parts = parse_str("{\n}\n");
    assert_eq!(
        parts,
        vec![Part::Block(BlockData { attributes: vec![], inner: Block::Grouped(vec![]) })]
    );
}

#[test]
fn lone_pipe_is_one_empty_cell() {
    let parts = parse_str("|===\n|\n|===\n");
    assert_eq!(
        parts,
        vec![Part::Block(BlockData {
            attributes: vec![],
            inner: Block::Table(vec![TableRow { cols: vec![TableCol::Simple(raw_tb(""))] }]),
        })]
    );
}
