use comrak::cursor::Cursor;
use comrak::document::MIN_REF_SIZE;
use comrak::entity;
use comrak::footnotes::decimal_text;
use comrak::front::split_off_front_matter;
use comrak::inlines::{NoCallback, NoInlines};
use comrak::labels::{clean_title, clean_url, collapse, normalize_label};
use comrak::markers::parse_list_marker;
use comrak::nodes::{
    lists_match, ListDelimType, ListType, NodeCodeBlock, NodeHeading, NodeList, NodeValue,
    TableAlignment,
};
use comrak::prefixes::BlockPrefix;
use comrak::references::{
    link_label, manual_scan_link_url, parse_reference_inline, resolve_reference_link_definitions,
    RefMap,
};
use comrak::scanners;
use comrak::scanners::SetextChar;
use comrak::strings;
use comrak::table;
use comrak::tree::{make_node, AstNode, Tree};
use comrak::unwrap::unwrap_into_2;
use comrak::walking::Stop;
use comrak::{
    unwrap_into, unwrap_into_copy, AutolinkType, ComrakExtensionOptions, ComrakOptions,
    ComrakParseOptions, ComrakRenderOptions, Inline, ListStyleType, Parser, Reference,
};
use typed_arena::Arena;

fn text(s: &str) -> NodeValue {
    NodeValue::Text(s.to_string())
}

/// The kinds of the blocks read so far, and their texts.
fn shape(parser: &Parser) -> Vec<String> {
    let mut out = Vec::new();
    for i in parser.tree.walk(Stop::Nowhere) {
        let n = parser.tree.node(i);
        out.push(format!(
            "{:?} {:?} {} {}",
            n.value,
            String::from_utf8(n.content.clone()).unwrap(),
            n.start_line,
            n.open
        ));
    }
    out
}

fn fed_in(pieces: &[&str], options: &ComrakOptions) -> (Vec<String>, Vec<u8>) {
    let arena: Arena<AstNode> = Arena::new();
    let mut parser = Parser::new(&arena, options);
    let mut rest: Vec<u8> = Vec::new();
    let n = pieces.len();
    for (k, piece) in pieces.iter().enumerate() {
        parser.feed(&mut rest, piece, k + 1 == n);
    }
    (shape(&parser), rest)
}

#[test]
fn defaults_are_off() {
    let o = ComrakOptions::default();
    assert!(!o.extension.strikethrough && !o.extension.table && !o.extension.footnotes);
    assert!(o.extension.header_ids.is_none() && o.extension.front_matter_delimiter.is_none());
    assert!(!o.parse.smart && o.parse.default_info_string.is_none());
    assert!(!o.render.unsafe_ && o.render.width == 0);
    assert_eq!(o.render.list_style.marker(), b'-');
    assert_eq!(ListStyleType::Plus.marker(), b'+');
    assert_eq!(ListStyleType::Star.marker(), b'*');
    assert!(!ComrakExtensionOptions::default().autolink);
    assert!(!ComrakParseOptions::default().relaxed_tasklist_matching);
    assert!(!ComrakRenderOptions::default().hardbreaks);
    assert_ne!(AutolinkType::Uri, AutolinkType::Email);
}

#[test]
fn unwrap_into_writes() {
    let mut x: usize = 1;
    assert!(!unwrap_into(None, &mut x));
    assert_eq!(x, 1);
    assert!(unwrap_into(Some(5), &mut x));
    assert_eq!(x, 5);
    assert!(unwrap_into_copy(Some(&7), &mut x));
    assert_eq!(x, 7);
    assert!(!unwrap_into_copy(None, &mut x));
    let mut y: u8 = 0;
    assert!(unwrap_into_2(Some((9, 3)), &mut x, &mut y));
    assert_eq!((x, y), (9, 3));
    assert!(!unwrap_into_2(None, &mut x, &mut y));
    assert_eq!((x, y), (9, 3));
}

#[test]
fn cursor_counts_tabs() {
    let line = b"  \tab\tc\n";
    let mut c = Cursor::new();
    c.find_first_nonspace(line);
    assert_eq!((c.first_nonspace, c.first_nonspace_column, c.indent), (3, 4, 4));
    assert!(!c.blank);
    c.advance_offset(line, 3, true);
    assert_eq!((c.offset, c.column, c.partially_consumed_tab), (2, 3, true));
    c.advance_offset(line, 1, true);
    assert_eq!((c.offset, c.column, c.partially_consumed_tab), (3, 4, false));
    c.advance_offset(line, 3, false);
    assert_eq!((c.offset, c.column), (6, 8));
}

#[test]
fn cursor_in_steps() {
    let line = b"\t\tx\n";
    let mut a = Cursor::new();
    a.advance_offset(line, 6, true);
    let mut b = Cursor::new();
    b.advance_offset(line, 1, true);
    b.advance_offset(line, 5, true);
    assert_eq!((a.offset, a.column, a.partially_consumed_tab), (1, 6, true));
    assert_eq!((b.offset, b.column, b.partially_consumed_tab), (1, 6, true));
    a.find_first_nonspace(line);
    let first = (a.first_nonspace, a.first_nonspace_column, a.indent, a.blank);
    a.find_first_nonspace(line);
    assert_eq!((a.first_nonspace, a.first_nonspace_column, a.indent, a.blank), first);
    assert_eq!(first, (2, 8, 2, false));
}

#[test]
fn thematic_breaks_and_where_none_start() {
    let mut c = Cursor::new();
    assert_eq!(c.scan_thematic_break(b"* * *\n"), Some(6));
    assert_eq!(c.scan_thematic_break(b"**\n"), None);
    assert_eq!(c.thematic_break_kill_pos, 2);
    assert_eq!(c.scan_thematic_break(b"* * a\n"), None);
    assert_eq!(c.thematic_break_kill_pos, 4);
    c.first_nonspace = 2;
    assert_eq!(c.scan_thematic_break_inner(b"* * a\n"), (4, false));
    assert_eq!(c.scan_thematic_break_inner(b"* --- \n"), (5, true));
}

#[test]
fn list_markers() {
    let (n, nl) = parse_list_marker(b"- a\n", 0, false).unwrap();
    assert_eq!((n, nl.list_type, nl.bullet_char), (1, ListType::Bullet, b'-'));
    assert!(parse_list_marker(b"-a\n", 0, false).is_none());
    assert!(parse_list_marker(b"-\n", 0, true).is_none());
    assert!(parse_list_marker(b"-\n", 0, false).is_some());
    let (n, nl) = parse_list_marker(b" 123456789) a\n", 1, false).unwrap();
    assert_eq!((n, nl.start), (10, 123456789));
    assert_eq!(nl.delimiter, ListDelimType::Paren);
    assert!(parse_list_marker(b"1234567890. a\n", 0, false).is_none());
    assert!(parse_list_marker(b"2. a\n", 0, true).is_none());
    assert!(parse_list_marker(b"1. a\n", 0, true).is_some());
    assert!(parse_list_marker(b"1.\n", 0, true).is_none());
    assert!(parse_list_marker(b"- a", 0, true).is_some());
    assert!(parse_list_marker(b"123456789", 0, true).is_none());
}

#[test]
fn lists_match_by_kind() {
    let a: NodeList = parse_list_marker(b"- a\n", 0, false).unwrap().1;
    let b: NodeList = parse_list_marker(b"* a\n", 0, false).unwrap().1;
    let c: NodeList = parse_list_marker(b"1. a\n", 0, false).unwrap().1;
    let d: NodeList = parse_list_marker(b"7. a\n", 0, false).unwrap().1;
    let e: NodeList = parse_list_marker(b"7) a\n", 0, false).unwrap().1;
    assert!(lists_match(&a, &a) && lists_match(&c, &d) && lists_match(&d, &c));
    assert!(!lists_match(&a, &b) && !lists_match(&a, &c) && !lists_match(&d, &e));
}

#[test]
fn quote_and_item_prefixes() {
    let line = b" >\tx\n";
    let mut c = Cursor::new();
    c.find_first_nonspace(line);
    assert!(c.parse_block_quote_prefix(line));
    assert_eq!((c.offset, c.column, c.partially_consumed_tab), (2, 3, true));
    let line = b"   x\n";
    let mut c = Cursor::new();
    c.find_first_nonspace(line);
    assert!(!c.parse_block_quote_prefix(line));
    assert!(!c.parse_node_item_prefix(line, true, 4));
    assert!(c.parse_node_item_prefix(line, true, 2));
    assert_eq!(c.offset, 2);
    let line = b"  \n";
    let mut c = Cursor::new();
    c.find_first_nonspace(line);
    assert!(!c.parse_node_item_prefix(line, false, 4));
    assert!(c.parse_node_item_prefix(line, true, 4));
    let mut c = Cursor::new();
    c.find_first_nonspace(b"\n");
    assert!(c.parse_footnote_definition_block_prefix(b"\n"));
    let mut c = Cursor::new();
    c.find_first_nonspace(line);
    assert!(!c.parse_footnote_definition_block_prefix(line));
}

#[test]
fn code_and_html_prefixes() {
    let mut ncb = NodeCodeBlock {
        fenced: true,
        fence_char: b'`',
        fence_length: 3,
        fence_offset: 2,
        info: String::new(),
        literal: String::new(),
    };
    let cases: [(&[u8], BlockPrefix, usize); 4] = [
        (b"````\n", BlockPrefix::Closed, 4),
        (b"``\n", BlockPrefix::Matched, 0),
        (b"    x\n", BlockPrefix::Matched, 2),
        (b"~~~\n", BlockPrefix::Matched, 0),
    ];
    for (line, prefix, offset) in cases {
        let mut c = Cursor::new();
        c.find_first_nonspace(line);
        assert_eq!(c.parse_code_block_prefix(line, &ncb), prefix);
        assert_eq!(c.offset, offset);
    }
    ncb.fenced = false;
    let cases: [(&[u8], BlockPrefix, usize); 3] = [
        (b"     x\n", BlockPrefix::Matched, 4),
        (b"  \n", BlockPrefix::Matched, 2),
        (b"  x\n", BlockPrefix::Unmatched, 0),
    ];
    for (line, prefix, offset) in cases {
        let mut c = Cursor::new();
        c.find_first_nonspace(line);
        assert_eq!(c.parse_code_block_prefix(line, &ncb), prefix);
        assert_eq!(c.offset, offset);
    }
    let mut c = Cursor::new();
    c.find_first_nonspace(b"\n");
    assert!(c.parse_html_block_prefix(5));
    assert!(!c.parse_html_block_prefix(6));
}

#[test]
fn scanned_starts() {
    assert_eq!(scanners::atx_heading_start(b"## a\n"), Some(3));
    assert_eq!(scanners::atx_heading_start(b"##\n"), Some(3));
    assert_eq!(scanners::atx_heading_start(b"##a\n"), None);
    assert_eq!(scanners::atx_heading_start(b"####### a\n"), None);
    assert!(matches!(
        scanners::setext_heading_line(b"== \n"),
        Some(SetextChar::Equals)
    ));
    assert!(matches!(
        scanners::setext_heading_line(b"-\n"),
        Some(SetextChar::Hyphen)
    ));
    assert!(scanners::setext_heading_line(b"= =\n").is_none());
    assert_eq!(scanners::open_code_fence(b"```` a\n"), Some(4));
    assert_eq!(scanners::open_code_fence(b"``` a`\n"), None);
    assert_eq!(scanners::open_code_fence(b"~~~ a`\n"), Some(3));
    assert_eq!(scanners::close_code_fence(b"~~~~  \n"), Some(4));
    assert_eq!(scanners::close_code_fence(b"~~~ a\n"), None);
    assert_eq!(scanners::footnote_definition(b"[^ab]: c\n"), Some((7, 4)));
    assert_eq!(scanners::footnote_definition(b"[^a b]: c\n"), None);
    assert_eq!(scanners::tasklist(b"[x] a"), Some((4, b'x')));
    assert_eq!(scanners::tasklist(b"[x]a"), None);
}

#[test]
fn scanned_html() {
    assert_eq!(scanners::html_block_start(b"<PRE>\n"), Some(1));
    assert_eq!(scanners::html_block_start(b"<!-- a\n"), Some(2));
    assert_eq!(scanners::html_block_start(b"<?php\n"), Some(3));
    assert_eq!(scanners::html_block_start(b"<!DOCTYPE\n"), Some(4));
    assert_eq!(scanners::html_block_start(b"<![CDATA[\n"), Some(5));
    assert_eq!(scanners::html_block_start(b"</table>\n"), Some(6));
    assert_eq!(scanners::html_block_start(b"<span>\n"), None);
    assert_eq!(scanners::html_block_start_7(b"<span a='b' c>\n"), Some(7));
    assert_eq!(scanners::html_block_start_7(b"</span >\n"), Some(7));
    assert_eq!(scanners::html_block_start_7(b"<span> x\n"), None);
    assert!(scanners::html_block_end(b"a </Script> b\n", 1));
    assert!(scanners::html_block_end(b"a --> b\n", 2));
    assert!(scanners::html_block_end(b"?>\n", 3));
    assert!(scanners::html_block_end(b"a>\n", 4));
    assert!(scanners::html_block_end(b"]]>\n", 5));
    assert!(!scanners::html_block_end(b"-->\n", 6));
}

#[test]
fn character_references() {
    assert_eq!(entity::unescape_html(b"a &amp; b &lt;&copy;"), "a & b <©".as_bytes());
    assert_eq!(entity::unescape_html(b"&#35;&#x1F600;"), "#😀".as_bytes());
    assert_eq!(entity::unescape_html(b"&#0;&#xD800;&#x110000;"), "\u{fffd}\u{fffd}\u{fffd}".as_bytes());
    assert_eq!(entity::unescape_html(b"&nosuch; &amp &"), b"&nosuch; &amp &");
    assert_eq!(entity::unescape(b"zwnj;x"), Some(("\u{200c}".as_bytes().to_vec(), 5)));
    assert_eq!(entity::unescape(b"#65;"), Some((b"A".to_vec(), 4)));
    assert_eq!(entity::unescape(b"#123456789;"), None);
    assert!(entity::names(b"&gt;", b"gt"));
    assert!(!entity::names(b"&gt;", b"lt") && !entity::names(b"&gt", b"gt"));
}

#[test]
fn labels_in_one_form() {
    assert_eq!(normalize_label("  ÄB \t\n c ".as_bytes()), "äb c");
    assert_eq!(normalize_label("\u{130}".as_bytes()), "i\u{307}");
    assert_eq!(normalize_label(b" \n "), "");
    assert_eq!(collapse(&vec!['a', '\u{a0}', '\n', 'b', ' ']), "a b ");
}

#[test]
fn cleaned_texts() {
    assert_eq!(clean_url(b" /a\\*b&amp;c "), b"/a*b&c");
    assert_eq!(clean_title(b"\"a \\\" b\""), b"a \" b");
    assert_eq!(clean_title(b"(a)"), b"a");
    assert_eq!(clean_title(b""), b"");
}

#[test]
fn trimmed_texts() {
    assert!(strings::is_blank(b" \t\n x"));
    assert!(!strings::is_blank(b" x"));
    assert_eq!(strings::rtrim_slice(b" a \n"), b" a");
    assert_eq!(strings::trim_slice(b" a b\n"), b"a b");
    let mut v = b"a ## b ##  \n".to_vec();
    strings::chop_trailing_hashtags(&mut v);
    assert_eq!(v, b"a ## b");
    let mut v = b"a##\n".to_vec();
    strings::chop_trailing_hashtags(&mut v);
    assert_eq!(v, b"a##");
    let mut v = b"a\n  b\n \n\n".to_vec();
    strings::remove_trailing_blank_lines(&mut v);
    assert_eq!(v, b"a\n  b");
    assert_eq!(strings::unescape(b"a\\*b\\c\\\\"), b"a*b\\c\\");
}

#[test]
fn destinations() {
    assert_eq!(manual_scan_link_url(b"<a b> c"), Some((1, 4, 5)));
    assert_eq!(manual_scan_link_url(b"<a"), None);
    assert_eq!(manual_scan_link_url(b"/a(b)c d"), Some((0, 6, 6)));
    assert_eq!(link_label(b"[a\\]b] c"), Some(5));
    assert_eq!(link_label(b"[a[b]"), None);
    assert_eq!(scanners::link_title(b"'a\\'b' c"), Some(6));
    assert_eq!(scanners::link_title(b"'a"), None);
}

#[test]
fn definitions_and_the_first_of_them() {
    let mut refs = RefMap::new();
    assert_eq!(refs.max_ref_size, usize::MAX);
    let text = b"[Foo]: /one 'first'\nrest";
    assert_eq!(parse_reference_inline(text, &mut refs), Some(20));
    assert_eq!(parse_reference_inline(b"[foo]: /two\n", &mut refs), Some(12));
    assert_eq!(parse_reference_inline(b"[bar] /x\n", &mut refs), None);
    assert_eq!(parse_reference_inline(b"[ ]: /x\n", &mut refs), None);
    let r: &Reference = refs.get(&"foo".to_string()).unwrap();
    assert_eq!((r.url.as_str(), r.title.as_str()), ("/one", "first"));
    let mut content = b"[a]: /a\n[b]: /b \"t\"\nleft".to_vec();
    assert!(resolve_reference_link_definitions(&mut content, &mut refs));
    assert_eq!(content, b"left");
    assert_eq!(refs.get(&"b".to_string()).unwrap().title, "t");
    let mut content = b"[c]: /c\n".to_vec();
    assert!(!resolve_reference_link_definitions(&mut content, &mut refs));
    assert!(content.is_empty());
    let mut content = b"[d]: /d\n'no title' x\n".to_vec();
    assert!(resolve_reference_link_definitions(&mut content, &mut refs));
    assert_eq!(content, b"'no title' x\n");
}

#[test]
fn table_rows() {
    let row = table::row(b"| a | b\\|c |\n").unwrap();
    assert_eq!(row.cells, vec![b"a".to_vec(), b"b|c".to_vec()]);
    assert!(table::matches(b"a | b\n"));
    assert!(table::matches(b"a b\n"));
    assert!(!table::matches(b"\n"));
    assert!(table::table_start(b"|:-|-:| :-: |\n"));
    assert!(!table::table_start(b"| a |\n"));
    assert_eq!(
        table::alignments(&vec![
            b"--".to_vec(),
            b":-".to_vec(),
            b":-:".to_vec(),
            b"-:".to_vec()
        ]),
        vec![
            TableAlignment::Unaligned,
            TableAlignment::Left,
            TableAlignment::Center,
            TableAlignment::Right
        ]
    );
}

#[test]
fn front_matter_and_the_rest() {
    assert_eq!(
        split_off_front_matter("---\na\n---\nb", "---"),
        Some(("---\na\n---\n", "b"))
    );
    assert_eq!(
        split_off_front_matter("---\r\n---\r\n", "---"),
        Some(("---\r\n---\r\n", ""))
    );
    assert_eq!(split_off_front_matter("---\na\n---b\n", "---"), None);
    assert_eq!(split_off_front_matter("--- \na\n---\n", "---"), None);
    assert_eq!(split_off_front_matter("a\n---\n---\n", "---"), None);
}

#[test]
fn read_in_pieces() {
    let options = ComrakOptions::default();
    let whole = fed_in(&["> a\r\nb\n\n- c\rd"], &options);
    assert_eq!(fed_in(&["> a\r", "\nb", "\n\n-", " c\r", "d"], &options), whole);
    assert!(whole.1.is_empty());
    assert_eq!(whole.0.len(), 6);
}

#[test]
fn end_need_not_be_announced() {
    let options = ComrakOptions::default();
    let arena: Arena<AstNode> = Arena::new();
    let mut a = Parser::new(&arena, &options);
    let mut rest_a: Vec<u8> = Vec::new();
    a.feed(&mut rest_a, "x\n- y", true);
    assert!(rest_a.is_empty());
    let mut b = Parser::new(&arena, &options);
    let mut rest_b: Vec<u8> = Vec::new();
    b.feed(&mut rest_b, "x\n- y", false);
    assert_eq!(rest_b, b"- y");
    a.finish(rest_a, &mut NoInlines, &mut NoCallback);
    b.finish(rest_b, &mut NoInlines, &mut NoCallback);
    assert_eq!(shape(&a), shape(&b));
    assert!(!a.tree.node(0).open);
    assert_eq!(a.refmap.max_ref_size, MIN_REF_SIZE);
}

#[test]
fn line_ends_alike() {
    let options = ComrakOptions::default();
    let lf = fed_in(&["# a\n\nb\n    c\n"], &options).0;
    assert_eq!(fed_in(&["# a\r\n\r\nb\r\n    c\r\n"], &options).0, lf);
    assert_eq!(fed_in(&["# a\r\rb\r    c"], &options).0, lf);
    assert_eq!(fed_in(&["a\0"], &options), (
        vec!["Document \"\" 0 true".to_string()],
        "a\u{fffd}".as_bytes().to_vec()
    ));
}

#[test]
fn trees_of_nodes() {
    let arena: Arena<AstNode> = Arena::new();
    let mut tree = Tree::new(&arena, make_node(NodeValue::Document, 0));
    let p = tree.append(0, make_node(NodeValue::Paragraph, 1));
    let q = tree.append(0, make_node(NodeValue::BlockQuote, 2));
    let x = tree.insert(0, 1, make_node(NodeValue::ThematicBreak, 3));
    assert_eq!(tree.node(0).children, vec![p, x, q]);
    assert_eq!(tree.last_child(0), Some(q));
    assert_eq!(arena.len(), 4);
    tree.detach(x);
    assert_eq!(tree.node(0).children, vec![p, q]);
    assert_eq!(tree.node(x).parent, None);
    tree.adopt(q, x);
    assert_eq!(tree.walk(Stop::Nowhere), vec![0, p, q, x]);
}

#[test]
fn blocks_that_contain_blocks() {
    let heading = NodeValue::Heading(NodeHeading {
        level: 1,
        setext: false,
    });
    assert!(NodeValue::Document.can_contain(&heading));
    assert!(NodeValue::BlockQuote.can_contain(&NodeValue::Paragraph));
    assert!(!NodeValue::Paragraph.can_contain(&NodeValue::Paragraph));
    assert!(NodeValue::Paragraph.can_contain(&text("a")));
    assert!(!NodeValue::BlockQuote.can_contain(&NodeValue::FrontMatter(String::new())));
    assert!(NodeValue::TableRow(true).can_contain(&NodeValue::TableCell));
    assert!(!NodeValue::Document.can_contain(&NodeValue::Document));
    assert!(heading.accepts_lines() && heading.contains_inlines() && heading.block());
    assert!(!text("a").block());
}

#[test]
fn texts_are_joined() {
    let arena: Arena<AstNode> = Arena::new();
    let mut tree = Tree::new(&arena, make_node(NodeValue::Document, 0));
    let p = tree.append(0, make_node(NodeValue::Paragraph, 1));
    tree.add_inlines(
        p,
        vec![
            Inline { value: text("a"), parent: None },
            Inline { value: text("b"), parent: None },
            Inline { value: NodeValue::Emph, parent: None },
            Inline { value: text("c"), parent: Some(2) },
            Inline { value: text("d"), parent: Some(2) },
            Inline { value: text("e"), parent: Some(9) },
        ],
    );
    tree.postprocess_text_nodes(&ComrakOptions::default(), &mut NoInlines);
    let ch = tree.node(p).children.clone();
    assert_eq!(ch.len(), 3);
    assert!(matches!(&tree.node(ch[0]).value, NodeValue::Text(s) if s == "ab"));
    let inner = tree.node(ch[1]).children.clone();
    assert_eq!(inner.len(), 1);
    assert!(matches!(&tree.node(inner[0]).value, NodeValue::Text(s) if s == "cd"));
    assert!(matches!(&tree.node(ch[2]).value, NodeValue::Text(s) if s == "e"));
}

#[test]
fn footnotes_by_first_reference() {
    let arena: Arena<AstNode> = Arena::new();
    let mut tree = Tree::new(&arena, make_node(NodeValue::Document, 0));
    let a = tree.append(0, make_node(NodeValue::FootnoteDefinition("A".to_string()), 1));
    let b = tree.append(0, make_node(NodeValue::FootnoteDefinition("b".to_string()), 2));
    let c = tree.append(0, make_node(NodeValue::FootnoteDefinition("c".to_string()), 3));
    let p = tree.append(0, make_node(NodeValue::Paragraph, 4));
    let mut refs = Vec::new();
    for name in ["b", "a", "b", "x"] {
        refs.push(tree.append(p, make_node(NodeValue::FootnoteReference(name.to_string()), 0)));
    }
    tree.process_footnotes();
    assert_eq!(tree.node(0).children, vec![p, b, a]);
    assert_eq!(tree.node(c).parent, None);
    let mut got = Vec::new();
    for r in refs {
        got.push(format!("{:?}", tree.node(r).value));
    }
    assert_eq!(
        got,
        vec![
            "FootnoteReference(\"1\")",
            "FootnoteReference(\"2\")",
            "FootnoteReference(\"1\")",
            "Text(\"[^x]\")"
        ]
    );
    assert!(matches!(&tree.node(b).value, NodeValue::FootnoteDefinition(s) if s == "1"));
    assert!(matches!(&tree.node(a).value, NodeValue::FootnoteDefinition(s) if s == "2"));
    assert_eq!(decimal_text(2090), "2090");
}

#[test]
fn address_made_a_link() {
    let arena: Arena<AstNode> = Arena::new();
    let mut tree = Tree::new(&arena, make_node(NodeValue::Document, 0));
    let p = tree.append(0, make_node(NodeValue::Paragraph, 1));
    let x = tree.append(p, make_node(text("see www.a now"), 0));
    tree.split_link(p, 0, x, 4, 9, "http://www.a".to_string());
    let ch = tree.node(p).children.clone();
    assert_eq!(ch.len(), 2);
    assert!(matches!(&tree.node(x).value, NodeValue::Text(s) if s == "see "));
    assert!(matches!(&tree.node(ch[1]).value, NodeValue::Link(l) if l.url == "http://www.a"));
    let inner = tree.node(ch[1]).children[0];
    assert!(matches!(&tree.node(inner).value, NodeValue::Text(s) if s == "www.a"));
}

#[test]
fn thematic_break_beyond_the_line() {
    let mut c = Cursor::new();
    c.first_nonspace = 9;
    assert_eq!(c.scan_thematic_break_inner(b"***\n"), (9, false));
    assert_eq!(c.scan_thematic_break(b"***\n"), None);
    assert_eq!(c.thematic_break_kill_pos, 9);
}

#[test]
fn cursor_looks_up() {
    let line = b"a \t b\n";
    let mut c = Cursor::new();
    c.advance_offset(line, 1, false);
    c.find_first_nonspace(line);
    assert_eq!((c.first_nonspace, c.first_nonspace_column, c.indent, c.blank), (4, 5, 4, false));
    assert_eq!((c.offset, c.column), (1, 1));
    c.advance_offset(line, 4, false);
    c.find_first_nonspace(line);
    assert_eq!((c.first_nonspace, c.first_nonspace_column, c.indent, c.blank), (5, 6, 0, true));
    c.advance_offset(line, 1, false);
    c.find_first_nonspace(line);
    assert_eq!((c.first_nonspace, c.indent, c.blank), (6, 0, false));
}

#[test]
fn cursor_marks_tabs_it_stops_in() {
    let line = b"\t\tx\n";
    let mut c = Cursor::new();
    c.advance_offset(line, 0, true);
    assert_eq!((c.offset, c.column, c.partially_consumed_tab), (0, 0, false));
    c.advance_offset(line, 4, true);
    assert_eq!((c.offset, c.column, c.partially_consumed_tab), (1, 4, false));
    c.advance_offset(line, 3, true);
    assert_eq!((c.offset, c.column, c.partially_consumed_tab), (1, 7, true));
    c.advance_offset(line, 0, true);
    assert_eq!((c.offset, c.column, c.partially_consumed_tab), (1, 7, true));
    c.advance_offset(line, 1, false);
    assert_eq!((c.offset, c.column, c.partially_consumed_tab), (2, 8, false));
}

#[test]
fn finished_in_pieces() {
    let options = ComrakOptions::default();
    let arena: Arena<AstNode> = Arena::new();
    let mut whole = Parser::new(&arena, &options);
    let mut rest: Vec<u8> = Vec::new();
    whole.feed(&mut rest, "- a\r\n  b\0\n\n[c]: /d", true);
    whole.finish(rest, &mut NoInlines, &mut NoCallback);
    let mut parts = Parser::new(&arena, &options);
    let mut rest: Vec<u8> = Vec::new();
    parts.feed(&mut rest, "- a\r", false);
    parts.feed(&mut rest, "\n  b\0\n\n[c]: /d", true);
    parts.finish(rest, &mut NoInlines, &mut NoCallback);
    assert_eq!(shape(&parts), shape(&whole));
    assert_eq!((parts.total_size, whole.total_size), (18, 18));
    assert_eq!(parts.refmap.get(&"c".to_string()).map(|r| r.url.clone()), Some("/d".to_string()));
    assert_eq!((parts.current, parts.refmap.max_ref_size), (0, MIN_REF_SIZE));
}

#[test]
fn line_counted_with_or_without_its_line_feed() {
    let options = ComrakOptions::default();
    let arena: Arena<AstNode> = Arena::new();
    for (text, length) in [("a\n- bc", 4), ("a\n- bc\n", 4), ("a\n\n", 0)] {
        let mut parser = Parser::new(&arena, &options);
        let mut rest: Vec<u8> = Vec::new();
        parser.feed(&mut rest, text, true);
        assert_eq!((parser.line_number, parser.last_line_length), (2, length));
    }
}
