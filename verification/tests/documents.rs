use comrak::inlines::{resolve_label, NoCallback};
use comrak::nodes::{lists_match, ListDelimType, ListType, NodeLink, NodeValue, TableAlignment};
use comrak::references::RefMap;
use comrak::tree::{AstNode, Tree};
use comrak::{
    parse_document, parse_document_with_broken_link_callback, BrokenLinkCallback, ComrakOptions,
    Inline, InlineParser,
};
use typed_arena::Arena;

/// Finds texts, soft breaks, references to footnotes, and links by label.
struct Simple {
    seen: Vec<String>,
}

impl Simple {
    fn new() -> Simple {
        Simple { seen: Vec::new() }
    }
}

fn top(value: NodeValue) -> Inline {
    Inline { value, parent: None }
}

impl InlineParser for Simple {
    fn parse_inlines<C: BrokenLinkCallback>(
        &mut self,
        content: &[u8],
        options: &ComrakOptions,
        refmap: &RefMap,
        callback: &mut C,
    ) -> Vec<Inline> {
        let text = String::from_utf8(content.to_vec()).unwrap();
        self.seen.push(text.clone());
        let mut out: Vec<Inline> = Vec::new();
        for (k, line) in text.split('\n').enumerate() {
            if k > 0 {
                out.push(top(NodeValue::SoftBreak));
            }
            let mut rest = line.trim_start();
            while let Some(a) = rest.find('[') {
                let b = match rest[a..].find(']') {
                    Some(b) => a + b,
                    None => break,
                };
                let shown = &rest[a + 1..b];
                let mut after = b + 1;
                let mut label = shown;
                if rest[after..].starts_with('[') {
                    if let Some(e) = rest[after..].find(']') {
                        label = &rest[after + 1..after + e];
                        after += e + 1;
                    }
                }
                if a > 0 {
                    out.push(top(NodeValue::Text(rest[..a].to_string())));
                }
                if options.extension.footnotes && label.starts_with('^') {
                    out.push(top(NodeValue::FootnoteReference(label[1..].to_string())));
                } else {
                    match resolve_label(refmap, label.as_bytes(), callback) {
                        Some(r) => {
                            out.push(top(NodeValue::Link(NodeLink {
                                url: r.url,
                                title: r.title,
                            })));
                            let parent = Some(out.len() - 1);
                            out.push(Inline {
                                value: NodeValue::Text(shown.to_string()),
                                parent,
                            });
                        }
                        None => out.push(top(NodeValue::Text(rest[a..after].to_string()))),
                    }
                }
                rest = &rest[after..];
            }
            if !rest.is_empty() {
                out.push(top(NodeValue::Text(rest.to_string())));
            }
        }
        out
    }

    fn find_autolink(&mut self, text: &str) -> Option<(usize, usize, String)> {
        let start = text.find("www.")?;
        let mut end = text[start..]
            .find(' ')
            .map(|n| start + n)
            .unwrap_or(text.len());
        while text[..end].ends_with('.') {
            end -= 1;
        }
        Some((start, end, format!("http://{}", &text[start..end])))
    }
}

struct Answers;

impl BrokenLinkCallback for Answers {
    fn resolve(&mut self, label: &str) -> Option<(String, String)> {
        if label == "foo" {
            Some((
                "https://www.rust-lang.org/".to_string(),
                "The Rust Language".to_string(),
            ))
        } else {
            None
        }
    }
}

fn name(value: &NodeValue) -> String {
    match value {
        NodeValue::Document => "doc".to_string(),
        NodeValue::FrontMatter(s) => format!("front {:?}", s),
        NodeValue::BlockQuote => "quote".to_string(),
        NodeValue::List(nl) => match nl.list_type {
            ListType::Bullet => format!("ul{}", if nl.tight { "" } else { " loose" }),
            ListType::Ordered => format!(
                "ol {}{}{}",
                nl.start,
                match nl.delimiter {
                    ListDelimType::Period => ".",
                    ListDelimType::Paren => ")",
                },
                if nl.tight { "" } else { " loose" }
            ),
        },
        NodeValue::Item(_) => "li".to_string(),
        NodeValue::DescriptionList => "dl".to_string(),
        NodeValue::DescriptionItem(_) => "di".to_string(),
        NodeValue::DescriptionTerm => "dt".to_string(),
        NodeValue::DescriptionDetails => "dd".to_string(),
        NodeValue::CodeBlock(ncb) => format!("code {:?} {:?}", ncb.info, ncb.literal),
        NodeValue::HtmlBlock(nhb) => format!("html{} {:?}", nhb.block_type, nhb.literal),
        NodeValue::Paragraph => "p".to_string(),
        NodeValue::Heading(nh) => {
            format!("h{}{}", nh.level, if nh.setext { " setext" } else { "" })
        }
        NodeValue::ThematicBreak => "hr".to_string(),
        NodeValue::FootnoteDefinition(s) => format!("note {}", s),
        NodeValue::Table(a) => {
            let mut marks = String::new();
            for x in a {
                marks.push(match x {
                    TableAlignment::Unaligned => '-',
                    TableAlignment::Left => '<',
                    TableAlignment::Center => '=',
                    TableAlignment::Right => '>',
                });
            }
            format!("table {}", marks)
        }
        NodeValue::TableRow(h) => (if *h { "head" } else { "row" }).to_string(),
        NodeValue::TableCell => "cell".to_string(),
        NodeValue::Text(s) => format!("{:?}", s),
        NodeValue::TaskItem { symbol } => match symbol {
            Some(c) => format!("task {}", c),
            None => "task".to_string(),
        },
        NodeValue::SoftBreak => "br".to_string(),
        NodeValue::Link(l) => format!("link {:?} {:?}", l.url, l.title),
        NodeValue::FootnoteReference(s) => format!("ref {}", s),
        other => format!("{:?}", other),
    }
}

fn dump(tree: &Tree, i: usize) -> String {
    let node = tree.node(i);
    let mut out = format!("({}", name(&node.value));
    for &c in node.children.iter() {
        out.push(' ');
        out.push_str(&dump(tree, c));
    }
    out.push(')');
    out
}

fn parsed(text: &str, options: &ComrakOptions) -> String {
    let arena: Arena<AstNode> = Arena::new();
    let tree = parse_document(&arena, text, options, &mut Simple::new());
    dump(&tree, 0)
}

fn plain(text: &str) -> String {
    parsed(text, &ComrakOptions::default())
}

#[test]
fn empty_document() {
    assert_eq!(plain(""), "(doc)");
    assert_eq!(plain("\n\n  \n"), "(doc)");
}

#[test]
fn paragraphs_and_breaks() {
    assert_eq!(
        plain("a\nb\n\nc"),
        r#"(doc (p ("a") (br) ("b")) (p ("c")))"#
    );
}

#[test]
fn headings_with_hashes() {
    assert_eq!(
        plain("# Cool input!\n###### six ##\n####### seven\n"),
        "(doc (h1 (\"Cool input!\")) (h6 (\"six\")) (p (\"####### seven\")))"
    );
    assert_eq!(plain("###     ###\n"), "(doc (h3))");
    assert_eq!(plain("#\n"), "(doc (h1))");
    assert_eq!(plain("# a#\n"), r##"(doc (h1 ("a#")))"##);
}

#[test]
fn underlined_headings() {
    assert_eq!(plain("a\n===\n"), r#"(doc (h1 setext ("a")))"#);
    assert_eq!(plain("a\nb\n---\n"), r#"(doc (h2 setext ("a") (br) ("b")))"#);
    assert_eq!(plain("---\n"), "(doc (hr))");
}

#[test]
fn underline_below_definitions_alone_is_no_heading() {
    assert_eq!(
        plain("[a]: /u\n===\n[a]\n"),
        r#"(doc (p ("===") (br) (link "/u" "" ("a"))))"#
    );
}

#[test]
fn thematic_breaks() {
    assert_eq!(plain("***\n - - -\n__\n"), r#"(doc (hr) (hr) (p ("__")))"#);
    assert_eq!(plain("a\n***\nb\n"), r#"(doc (p ("a")) (hr) (p ("b")))"#);
}

#[test]
fn block_quotes_and_lazy_lines() {
    assert_eq!(
        plain("> a\nb\n\nc\n"),
        r#"(doc (quote (p ("a") (br) ("b"))) (p ("c")))"#
    );
    assert_eq!(
        plain("> > a\n> b\n> - c\n"),
        r#"(doc (quote (quote (p ("a") (br) ("b"))) (ul (li (p ("c"))))))"#
    );
}

#[test]
fn lists_tight_and_loose() {
    assert_eq!(
        plain("- one\n- two\n- three"),
        r#"(doc (ul (li (p ("one"))) (li (p ("two"))) (li (p ("three")))))"#
    );
    assert_eq!(
        plain("- one\n\n- two\n"),
        r#"(doc (ul loose (li (p ("one"))) (li (p ("two")))))"#
    );
    assert_eq!(
        plain("1. a\n2. b\n3) c\n"),
        r#"(doc (ol 1. (li (p ("a"))) (li (p ("b")))) (ol 3) (li (p ("c")))))"#
    );
    assert_eq!(
        plain("- a\n  - b\n\n\n  c\n"),
        r#"(doc (ul loose (li (p ("a")) (ul (li (p ("b")))) (p ("c")))))"#
    );
}

#[test]
fn list_markers_that_cannot_interrupt() {
    assert_eq!(
        plain("a\n2. b\n"),
        r#"(doc (p ("a") (br) ("2. b")))"#
    );
    assert_eq!(
        plain("a\n1. b\n"),
        r#"(doc (p ("a")) (ol 1. (li (p ("b")))))"#
    );
    assert_eq!(plain("a\n-\n"), r#"(doc (h2 setext ("a")))"#);
    assert_eq!(plain("a\n*\n"), r#"(doc (p ("a") (br) ("*")))"#);
}

#[test]
fn code_blocks() {
    assert_eq!(
        plain("    a\n\n      b\n\nc\n"),
        r#"(doc (code "" "a\n\n  b\n") (p ("c")))"#
    );
    assert_eq!(
        plain("```\nfn hello();\n```\n"),
        r#"(doc (code "" "fn hello();\n"))"#
    );
    assert_eq!(
        plain("``` rust extra &amp; \\*\nfn hello();\n"),
        r#"(doc (code "rust extra & *" "fn hello();\n"))"#
    );
    assert_eq!(
        plain("  ~~~\n   a\n ~~\n~~~~\n"),
        r#"(doc (code "" " a\n~~\n"))"#
    );
    assert_eq!(
        plain("\tcode\n"),
        r#"(doc (code "" "code\n"))"#
    );
    assert_eq!(
        plain("- a\n\n\t\tb\n"),
        r#"(doc (ul loose (li (p ("a")) (code "" "  b\n"))))"#
    );
}

#[test]
fn default_info_string() {
    let mut options = ComrakOptions::default();
    options.parse.default_info_string = Some("rust".into());
    assert_eq!(
        parsed("```\nfn hello();\n```\n", &options),
        r#"(doc (code "rust" "fn hello();\n"))"#
    );
    assert_eq!(
        parsed("``` c\nx\n```\n", &options),
        r#"(doc (code "c" "x\n"))"#
    );
}

#[test]
fn html_blocks() {
    assert_eq!(
        plain("<script>\nalert('xyz');\n</script>\n\nPossibly\n"),
        r#"(doc (html1 "<script>\nalert('xyz');\n</script>\n") (p ("Possibly")))"#
    );
    assert_eq!(
        plain("<!-- a\n\nb -->\nc\n"),
        r#"(doc (html2 "<!-- a\n\nb -->\n") (p ("c")))"#
    );
    assert_eq!(
        plain("<div>\na\n\nb\n"),
        r#"(doc (html6 "<div>\na\n") (p ("b")))"#
    );
    assert_eq!(
        plain("<x-y a=\"b\">\nc\n\n"),
        r#"(doc (html7 "<x-y a=\"b\">\nc\n"))"#
    );
    assert_eq!(
        plain("a\n<x-y>\n"),
        r#"(doc (p ("a") (br) ("<x-y>")))"#
    );
}

#[test]
fn tables() {
    let mut options = ComrakOptions::default();
    options.extension.table = true;
    assert_eq!(
        parsed("| a | b |\n|---|---|\n| c | d |\n", &options),
        r#"(doc (table -- (head (cell ("a")) (cell ("b"))) (row (cell ("c")) (cell ("d")))))"#
    );
    assert_eq!(
        parsed("a | b\n:-- | --:\nc\nd | e | f\n\ng\n", &options),
        r#"(doc (table <> (head (cell ("a")) (cell ("b"))) (row (cell ("c")) (cell)) (row (cell ("d")) (cell ("e")))) (p ("g")))"#
    );
    assert_eq!(
        parsed("text\n| a \\| b |\n|:-:|\n", &options),
        r#"(doc (p ("text")) (table = (head (cell ("a | b")))))"#
    );
    assert_eq!(
        parsed("| a |\n|---|---|\n", &options),
        r#"(doc (p ("| a |") (br) ("|---|---|")))"#
    );
    assert_eq!(
        plain("| a |\n|---|\n"),
        r#"(doc (p ("| a |") (br) ("|---|")))"#
    );
}

#[test]
fn description_lists() {
    let mut options = ComrakOptions::default();
    options.extension.description_lists = true;
    assert_eq!(
        parsed("Term\n\n: Definition", &options),
        r#"(doc (dl (di (dt (p ("Term"))) (dd (p ("Definition"))))))"#
    );
    assert_eq!(
        parsed(
            "First term\n\n: Details for the first term\n\nSecond term\n\n: Details\n\n    More\n",
            &options
        ),
        r#"(doc (dl (di (dt (p ("First term"))) (dd (p ("Details for the first term")))) (di (dt (p ("Second term"))) (dd (p ("Details")) (p ("More"))))))"#
    );
    assert_eq!(plain("Term\n\n: Definition"), r#"(doc (p ("Term")) (p (": Definition")))"#);
}

#[test]
fn front_matter() {
    let mut options = ComrakOptions::default();
    options.extension.front_matter_delimiter = Some("---".to_owned());
    assert_eq!(
        parsed("---\nlayout: post\n---\nText\n", &options),
        r#"(doc (front "---\nlayout: post\n---\n") (p ("Text")))"#
    );
    assert_eq!(
        parsed("---\r\na\r\n---", &options),
        r#"(doc (front "---\r\na\r\n---"))"#
    );
    assert_eq!(parsed("---\na\n", &options), r#"(doc (hr) (p ("a")))"#);
}

#[test]
fn footnotes() {
    let mut options = ComrakOptions::default();
    options.extension.footnotes = true;
    assert_eq!(
        parsed("Hi[^x].\n\n[^x]: A greeting.\n", &options),
        r#"(doc (p ("Hi") (ref 1) (".")) (note 1 (p ("A greeting."))))"#
    );
    assert_eq!(
        parsed(
            "[^b] [^a] [^b] [^none]\n\n[^a]: A\n\n[^b]: B\n\n[^unused]: C\n",
            &options
        ),
        r#"(doc (p (ref 1) (" ") (ref 2) (" ") (ref 1) (" [^none]")) (note 1 (p ("B"))) (note 2 (p ("A"))))"#
    );
    assert_eq!(
        parsed("[^a]\n\n[^a]: one\n\n[^a]: two\n\n    more\n", &options),
        r#"(doc (p (ref 1)) (note 1 (p ("two")) (p ("more"))))"#
    );
}

#[test]
fn tasks() {
    let mut options = ComrakOptions::default();
    options.extension.tasklist = true;
    assert_eq!(
        parsed("* x Done\n* [ ] Not done\n", &options),
        r#"(doc (ul (li (p ("x Done"))) (li (p (task) ("Not done")))))"#
    );
    assert_eq!(
        parsed("* [x] Done\n* [?] Odd\n* a [x] b\n\n[x] c\n", &options),
        r#"(doc (ul (li (p (task x) ("Done"))) (li (p ("[?] Odd"))) (li (p ("a [x] b")))) (p ("[x] c")))"#
    );
    options.parse.relaxed_tasklist_matching = true;
    assert_eq!(
        parsed("* [?] Odd\n", &options),
        r#"(doc (ul (li (p (task ?) ("Odd")))))"#
    );
}

#[test]
fn autolinks() {
    let mut options = ComrakOptions::default();
    assert_eq!(
        parsed("Hello www.github.com now\n", &options),
        r#"(doc (p ("Hello www.github.com now")))"#
    );
    options.extension.autolink = true;
    assert_eq!(
        parsed("Hello www.github.com now\n", &options),
        r#"(doc (p ("Hello ") (link "http://www.github.com" "" ("www.github.com")) (" now")))"#
    );
    assert_eq!(
        parsed("Hello www.github.com.\n", &options),
        r#"(doc (p ("Hello ") (link "http://www.github.com" "" ("www.github.com")) (".")))"#
    );
    assert_eq!(
        parsed("www.a www.b\n", &options),
        r#"(doc (p ("") (link "http://www.a" "" ("www.a")) (" ") (link "http://www.b" "" ("www.b"))))"#
    );
}

#[test]
fn references() {
    assert_eq!(
        plain("[Foo]: <my url> 'a title'\n[foo]: /second\n\n[fOO] [bar]\n"),
        r#"(doc (p (link "my%20url" "a title" ("fOO")) (" [bar]")))"#
            .replace("my%20url", "my url")
    );
    assert_eq!(
        plain("[a]: /u \"t\" x\n"),
        r#"(doc (p ("[a]: /u \"t\" x")))"#
    );
    assert_eq!(plain("[a]: /u\n"), "(doc)");
}

#[test]
fn broken_links() {
    let arena: Arena<AstNode> = Arena::new();
    let tree = parse_document_with_broken_link_callback(
        &arena,
        "# Cool input!\nWow look at this cool [link][foo]. A [broken link] renders as text.",
        &ComrakOptions::default(),
        Some(&mut Answers),
        &mut Simple::new(),
    );
    assert_eq!(
        dump(&tree, 0),
        r#"(doc (h1 ("Cool input!")) (p ("Wow look at this cool ") (link "https://www.rust-lang.org/" "The Rust Language" ("link")) (". A [broken link] renders as text.")))"#
    );
    let arena: Arena<AstNode> = Arena::new();
    let tree = parse_document_with_broken_link_callback::<_, NoCallback>(
        &arena,
        "[foo]",
        &ComrakOptions::default(),
        None,
        &mut Simple::new(),
    );
    assert_eq!(dump(&tree, 0), r#"(doc (p ("[foo]")))"#);
}

#[test]
fn line_ends_and_other_bytes() {
    let lf = plain("a\nb\n\n- c\n");
    assert_eq!(plain("a\rb\r\r- c\r"), lf);
    assert_eq!(plain("a\r\nb\r\n\r\n- c"), lf);
    assert_eq!(plain("a\0b\n"), "(doc (p (\"a\u{fffd}b\")))");
    assert_eq!(plain("a\0"), "(doc (p (\"a\u{fffd}\")))");
    assert_eq!(plain("\u{feff}# a\n"), r#"(doc (h1 ("a")))"#);
}

#[test]
fn inline_texts_are_trimmed_and_in_order() {
    let arena: Arena<AstNode> = Arena::new();
    let mut finder = Simple::new();
    let options = ComrakOptions::default();
    parse_document(&arena, "> a  \n\n# b\n\nc\t\n", &options, &mut finder);
    assert_eq!(finder.seen, vec!["a", "b", "c"]);
}

#[test]
fn deep_nesting() {
    let mut text = String::new();
    for _ in 0..2000 {
        text.push_str("> ");
    }
    text.push('a');
    let arena: Arena<AstNode> = Arena::new();
    let tree = parse_document(
        &arena,
        &text,
        &ComrakOptions::default(),
        &mut Simple::new(),
    );
    assert_eq!(tree.len(), 2003);
}

#[test]
fn start_lines() {
    let arena: Arena<AstNode> = Arena::new();
    let tree = parse_document(
        &arena,
        "a\n\n> b\n",
        &ComrakOptions::default(),
        &mut Simple::new(),
    );
    let root = tree.node(0);
    assert_eq!(tree.node(root.children[0]).start_line, 1);
    assert_eq!(tree.node(root.children[1]).start_line, 3);
    assert!(!root.open);
}

/// A text with blocks of all kinds.
const ALL_KINDS: &str = "---\nt\n---\n# h\n\npara\n| a |\n|---|\n| b | c |\n\n> quote\n> 1. one\n>    - two\n\n    code\n\n~~~ x\ncode\n~~~\n<div>\n\nterm\n\n: details\n\n    | d |\n    |---|\n\n* * *\n[^n]: note\n\n    - item\n\nsee [^n] and [^m]\n";

fn everything() -> ComrakOptions {
    let mut options = ComrakOptions::default();
    options.extension.table = true;
    options.extension.footnotes = true;
    options.extension.description_lists = true;
    options.extension.tasklist = true;
    options.extension.front_matter_delimiter = Some("---".to_string());
    options
}

#[test]
fn blocks_of_all_kinds() {
    assert_eq!(
        parsed(ALL_KINDS, &everything()),
        concat_all(&[
            r#"(doc (front "---\nt\n---\n") (h1 ("h")) (p ("para"))"#,
            r#" (table - (head (cell ("a"))) (row (cell ("b"))))"#,
            r#" (quote (p ("quote")) (ol 1. (li (p ("one")) (ul (li (p ("two")))))))"#,
            r#" (code "" "code\n") (code "x" "code\n") (html6 "<div>\n")"#,
            r#" (dl (di (dt (p ("term"))) (dd (p ("details")) (table - (head (cell ("d")))))))"#,
            r#" (hr) (p ("see ") (ref 1) (" and [^m]")) (note 1 (p ("note")) (ul (li (p ("item"))))))"#,
        ])
    );
}

fn concat_all(parts: &[&str]) -> String {
    let mut out = String::new();
    for p in parts {
        out.push_str(p);
    }
    out
}

#[test]
fn blocks_in_blocks_that_contain_them() {
    let arena: Arena<AstNode> = Arena::new();
    let tree = parse_document(&arena, ALL_KINDS, &everything(), &mut Simple::new());
    let mut seen = 0;
    for i in 1..tree.len() {
        let node = tree.node(i);
        if let Some(p) = node.parent {
            assert!(p < i);
            assert!(tree.node(p).children.contains(&i));
            if node.value.block() {
                assert!(tree.node(p).value.can_contain(&node.value));
                seen += 1;
            }
        }
    }
    assert!(seen > 30);
}

#[test]
fn front_matter_apart_from_the_rest() {
    let mut options = ComrakOptions::default();
    options.extension.front_matter_delimiter = Some("---".to_owned());
    let arena: Arena<AstNode> = Arena::new();
    let text = "---\nlayout: post\n---\n- Text\n";
    let tree = parse_document(&arena, text, &options, &mut Simple::new());
    assert!(matches!(
        &tree.node(1).value,
        NodeValue::FrontMatter(s) if s == "---\nlayout: post\n---\n"
    ));
    let children = tree.node(0).children.clone();
    assert_eq!(children[0], 1);
    assert_eq!(
        dump(&tree, children[1]),
        r#"(ul (li (p ("Text"))))"#
    );
    assert_eq!(plain("- Text\n"), r#"(doc (ul (li (p ("Text")))))"#);
}

#[test]
fn asked_only_for_undefined_labels() {
    struct Counting {
        asked: Vec<String>,
    }
    impl BrokenLinkCallback for Counting {
        fn resolve(&mut self, label: &str) -> Option<(String, String)> {
            self.asked.push(label.to_string());
            None
        }
    }
    let arena: Arena<AstNode> = Arena::new();
    let mut counting = Counting { asked: Vec::new() };
    parse_document_with_broken_link_callback(
        &arena,
        "[Known] [Not  KNOWN]\n\n[known]: /url\n",
        &ComrakOptions::default(),
        Some(&mut counting),
        &mut Simple::new(),
    );
    assert_eq!(counting.asked, vec!["not known"]);
    let arena: Arena<AstNode> = Arena::new();
    let mut counting = Counting { asked: Vec::new() };
    let tree = parse_document_with_broken_link_callback(
        &arena,
        "[Foo  BAR]\n",
        &ComrakOptions::default(),
        Some(&mut counting),
        &mut Simple::new(),
    );
    assert_eq!(counting.asked, vec!["foo bar"]);
    assert_eq!(dump(&tree, 0), r#"(doc (p ("[Foo  BAR]")))"#);
}

struct Silent;

impl BrokenLinkCallback for Silent {
    fn resolve(&mut self, _label: &str) -> Option<(String, String)> {
        None
    }
}

#[test]
fn silent_callback_as_good_as_none() {
    let text = "[a] and [b][c]\n\n> [d]\n\n[d]: /d\n";
    let options = ComrakOptions::default();
    let arena: Arena<AstNode> = Arena::new();
    let tree = parse_document_with_broken_link_callback(
        &arena,
        text,
        &options,
        Some(&mut Silent),
        &mut Simple::new(),
    );
    assert_eq!(dump(&tree, 0), plain(text));
    assert!(tree.node(0).parent.is_none() && !tree.node(0).open);
    let arena: Arena<AstNode> = Arena::new();
    let none = parse_document_with_broken_link_callback::<_, Silent>(
        &arena,
        text,
        &options,
        None,
        &mut Simple::new(),
    );
    assert_eq!(dump(&none, 0), plain(text));
}

#[test]
fn output_options_do_not_matter() {
    let mut options = everything();
    let expected = parsed(ALL_KINDS, &options);
    options.extension.tagfilter = true;
    options.extension.header_ids = Some("id-".to_string());
    options.render.hardbreaks = true;
    options.render.unsafe_ = true;
    options.render.width = 20;
    assert_eq!(parsed(ALL_KINDS, &options), expected);
}

#[test]
fn items_in_lists_of_their_kind() {
    let arena: Arena<AstNode> = Arena::new();
    let text = "- a\n- b\n* c\n1. d\n   1) e\n10) f\n   -     g\n";
    let tree = parse_document(&arena, text, &ComrakOptions::default(), &mut Simple::new());
    let mut items = 0;
    for i in 1..tree.len() {
        if let NodeValue::Item(nl) = &tree.node(i).value {
            items += 1;
            assert!(nl.padding >= 2 && nl.marker_offset <= 3);
            let p = tree.node(i).parent.unwrap();
            match &tree.node(p).value {
                NodeValue::List(of) => assert!(lists_match(nl, of)),
                other => panic!("{:?}", other),
            }
        }
    }
    assert_eq!(items, 7);
}

#[test]
fn tables_in_containers() {
    let mut options = ComrakOptions::default();
    options.extension.table = true;
    assert_eq!(
        parsed("> | a |\n> |---|\n> | b |\nc\n", &options),
        r#"(doc (quote (table - (head (cell ("a"))) (row (cell ("b"))))) (p ("c")))"#
    );
    assert_eq!(
        parsed("- | a |\n  |---|\n  | b |\n- c\n", &options),
        r#"(doc (ul (li (table - (head (cell ("a"))) (row (cell ("b"))))) (li (p ("c")))))"#
    );
    assert_eq!(
        parsed("| a |\n|---|\n> b\n", &options),
        r#"(doc (table - (head (cell ("a")))) (quote (p ("b"))))"#
    );
}

/// The text with other line ends.
fn with_line_ends(text: &str, end: &str) -> String {
    text.replace('\n', end)
}

#[test]
fn one_tree_whatever_ends_the_lines() {
    let mut options = everything();
    options.extension.front_matter_delimiter = None;
    let lf = parsed(ALL_KINDS, &options);
    assert_eq!(parsed(&with_line_ends(ALL_KINDS, "\r\n"), &options), lf);
    assert_eq!(parsed(&with_line_ends(ALL_KINDS, "\r"), &options), lf);
    let defined = "[a]:\r/u\r\n'b\rc'\r\r[a]\r\n\r\n```\rx\r\n```";
    let lines = defined.replace("\r\n", "\n").replace('\r', "\n");
    assert_eq!(parsed(defined, &options), parsed(&lines, &options));
}

#[test]
fn one_tree_with_nuls_replaced() {
    for text in ["\0", "a\0", "\0a\n", "- \0\0\n\0", "[\0]: /u\n\n[\0]", "a\r\0\n\0\r\nb"] {
        assert_eq!(plain(text), plain(&text.replace('\0', "\u{fffd}")));
    }
}

#[test]
fn one_tree_with_or_without_the_last_line_end() {
    for text in ["a", "# a", "- a\n- b", "```\na", "a\n=", "> a\nb"] {
        assert_eq!(plain(text), plain(&format!("{}\n", text)));
    }
}

#[test]
fn items_that_one_line_opens() {
    let arena: Arena<AstNode> = Arena::new();
    let text = "- a\n- 1. > * 2) b\n+\n  - ***\n";
    let tree = parse_document(&arena, text, &ComrakOptions::default(), &mut Simple::new());
    assert_eq!(
        dump(&tree, 0),
        concat_all(&[
            r#"(doc (ul (li (p ("a"))) (li (ol 1. (li (quote (ul (li (ol 2) (li (p ("b")))))))))))"#,
            r#" (ul (li (ul (li (hr))))))"#,
        ])
    );
    let mut opened = 0;
    for i in 1..tree.len() {
        if let NodeValue::Item(nl) = &tree.node(i).value {
            let p = tree.node(i).parent.unwrap();
            if tree.node(p).children[0] == i {
                opened += 1;
                match &tree.node(p).value {
                    NodeValue::List(of) => {
                        assert_eq!((of.start, of.padding), (nl.start, nl.padding));
                        assert_eq!(of.marker_offset, nl.marker_offset);
                    }
                    other => panic!("{:?}", other),
                }
            }
        }
    }
    assert_eq!(opened, 6);
}

#[test]
fn one_tree_behind_a_byte_order_mark() {
    let mut options = everything();
    options.extension.front_matter_delimiter = None;
    let texts = [
        "# a #\n", "\tb", "- 1. c\n", "> ~~~ d\n", " ***\n", "[^n]: e\n", "<p>\n", "\n", ALL_KINDS,
    ];
    for text in texts {
        assert_eq!(parsed(&format!("\u{feff}{}", text), &options), parsed(text, &options));
    }
    assert_eq!(plain("\u{feff}\u{feff}a"), r#"(doc (p ("\u{feff}a")))"#);
}
