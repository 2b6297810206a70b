use comrak::nodes::{ListType, NodeValue};
use comrak::references::RefMap;
use comrak::tree::{AstNode, Tree};
use comrak::{parse_document, BrokenLinkCallback, ComrakOptions, Inline, InlineParser};
use typed_arena::Arena;

/// Finds the whole text of a block as one text.
struct Whole;

impl InlineParser for Whole {
    fn parse_inlines<C: BrokenLinkCallback>(
        &mut self,
        content: &[u8],
        _options: &ComrakOptions,
        _refmap: &RefMap,
        _callback: &mut C,
    ) -> Vec<Inline> {
        vec![Inline {
            value: NodeValue::Text(String::from_utf8(content.to_vec()).unwrap()),
            parent: None,
        }]
    }

    fn find_autolink(&mut self, _text: &str) -> Option<(usize, usize, String)> {
        None
    }
}

fn name(value: &NodeValue) -> String {
    match value {
        NodeValue::Document => "doc".to_string(),
        NodeValue::BlockQuote => "quote".to_string(),
        NodeValue::List(nl) => {
            let kind = match nl.list_type {
                ListType::Bullet => "ul".to_string(),
                ListType::Ordered => format!("ol{}", nl.start),
            };
            format!("{}{}", kind, if nl.tight { "" } else { " loose" })
        }
        NodeValue::Item(_) => "li".to_string(),
        NodeValue::CodeBlock(ncb) => {
            if ncb.info.is_empty() {
                format!("code {:?}", ncb.literal)
            } else {
                format!("code<{}> {:?}", ncb.info, ncb.literal)
            }
        }
        NodeValue::HtmlBlock(nhb) => format!("html {:?}", nhb.literal),
        NodeValue::Paragraph => "p".to_string(),
        NodeValue::Heading(nh) => format!("h{}", nh.level),
        NodeValue::ThematicBreak => "hr".to_string(),
        NodeValue::Text(s) => format!("{:?}", s),
        other => format!("{:?}", other),
    }
}

fn dump(tree: &Tree, i: usize) -> String {
    let node = tree.node(i);
    let mut out = name(&node.value);
    if !node.children.is_empty() {
        out.push('(');
        for (k, &c) in node.children.iter().enumerate() {
            if k > 0 {
                out.push(' ');
            }
            out.push_str(&dump(tree, c));
        }
        out.push(')');
    }
    out
}

fn blocks(text: &str) -> String {
    let arena: Arena<AstNode> = Arena::new();
    let tree = parse_document(&arena, text, &ComrakOptions::default(), &mut Whole);
    dump(&tree, 0)
}

#[test]
fn tabs() {
    assert_eq!(blocks("\tfoo\tbaz\t\tbim\n"), "doc(code \"foo\\tbaz\\t\\tbim\\n\")");
    assert_eq!(blocks("  \tfoo\tbaz\t\tbim\n"), "doc(code \"foo\\tbaz\\t\\tbim\\n\")");
    assert_eq!(blocks("  - foo\n\n\tbar\n"), "doc(ul loose(li(p(\"foo\") p(\"bar\"))))");
    assert_eq!(
        blocks("- foo\n\n\t\tbar\n"),
        "doc(ul loose(li(p(\"foo\") code \"  bar\\n\")))"
    );
    assert_eq!(blocks(">\t\tfoo\n"), "doc(quote(code \"  foo\\n\"))");
    assert_eq!(blocks("-\t\tfoo\n"), "doc(ul(li(code \"  foo\\n\")))");
    assert_eq!(blocks("    foo\n\tbar\n"), "doc(code \"foo\\nbar\\n\")");
    assert_eq!(
        blocks(" - foo\n   - bar\n\t - baz\n"),
        "doc(ul(li(p(\"foo\") ul(li(p(\"bar\") ul(li(p(\"baz\"))))))))"
    );
    assert_eq!(blocks("#\tFoo\n"), "doc(h1(\"Foo\"))");
    assert_eq!(blocks("*\t*\t*\t\n"), "doc(hr)");
}

#[test]
fn breaks() {
    assert_eq!(blocks("+++\n"), "doc(p(\"+++\"))");
    assert_eq!(blocks("--\n**\n__\n"), "doc(p(\"--\\n**\\n__\"))");
    assert_eq!(blocks(" ***\n  ***\n   ***\n"), "doc(hr hr hr)");
    assert_eq!(blocks("    ***\n"), "doc(code \"***\\n\")");
    assert_eq!(blocks("Foo\n    ***\n"), "doc(p(\"Foo\\n***\"))");
    assert_eq!(blocks("_____________________________________\n"), "doc(hr)");
    assert_eq!(blocks(" **  * ** * ** * **\n"), "doc(hr)");
    assert_eq!(blocks("_ _ _ _ a\n\na------\n"), "doc(p(\"_ _ _ _ a\") p(\"a------\"))");
    assert_eq!(blocks(" *-*\n"), "doc(p(\"*-*\"))");
    assert_eq!(blocks("- foo\n***\n- bar\n"), "doc(ul(li(p(\"foo\"))) hr ul(li(p(\"bar\"))))");
    assert_eq!(blocks("Foo\n---\nbar\n"), "doc(h2(\"Foo\") p(\"bar\"))");
    assert_eq!(
        blocks("* Foo\n* * *\n* Bar\n"),
        "doc(ul(li(p(\"Foo\"))) hr ul(li(p(\"Bar\"))))"
    );
    assert_eq!(blocks("- Foo\n- * * *\n"), "doc(ul(li(p(\"Foo\")) li(hr)))");
}

#[test]
fn hash_headings() {
    assert_eq!(blocks("#5 bolt\n\n#hashtag\n"), "doc(p(\"#5 bolt\") p(\"#hashtag\"))");
    assert_eq!(blocks("\\## foo\n"), "doc(p(\"\\\\## foo\"))");
    assert_eq!(blocks("#                  foo                     \n"), "doc(h1(\"foo\"))");
    assert_eq!(blocks(" ### foo\n  ## foo\n   # foo\n"), "doc(h3(\"foo\") h2(\"foo\") h1(\"foo\"))");
    assert_eq!(blocks("    # foo\n"), "doc(code \"# foo\\n\")");
    assert_eq!(blocks("foo\n    # bar\n"), "doc(p(\"foo\\n# bar\"))");
    assert_eq!(blocks("## foo ##\n  ###   bar    ###\n"), "doc(h2(\"foo\") h3(\"bar\"))");
    assert_eq!(blocks("# foo ##################################\n"), "doc(h1(\"foo\"))");
    assert_eq!(blocks("### foo ###     \n"), "doc(h3(\"foo\"))");
    assert_eq!(blocks("### foo ### b\n"), "doc(h3(\"foo ### b\"))");
    assert_eq!(blocks("# foo#\n"), "doc(h1(\"foo#\"))");
    assert_eq!(blocks("****\n## foo\n****\n"), "doc(hr h2(\"foo\") hr)");
    assert_eq!(
        blocks("Foo bar\n# baz\nBar foo\n"),
        "doc(p(\"Foo bar\") h1(\"baz\") p(\"Bar foo\"))"
    );
}

#[test]
fn headings_by_underline() {
    assert_eq!(blocks("Foo\nbaz\n====\n"), "doc(h1(\"Foo\\nbaz\"))");
    assert_eq!(blocks("  Foo\nbaz\t\n====\n"), "doc(h1(\"Foo\\nbaz\"))");
    assert_eq!(blocks("Foo\n-------------------------\n\nFoo\n=\n"), "doc(h2(\"Foo\") h1(\"Foo\"))");
    assert_eq!(
        blocks("   Foo\n---\n\n  Foo\n-----\n\n  Foo\n  ===\n"),
        "doc(h2(\"Foo\") h2(\"Foo\") h1(\"Foo\"))"
    );
    assert_eq!(blocks("    Foo\n    ---\n\n    Foo\n---\n"), "doc(code \"Foo\\n---\\n\\nFoo\\n\" hr)");
    assert_eq!(blocks("Foo\n   ----      \n"), "doc(h2(\"Foo\"))");
    assert_eq!(blocks("Foo\n    ---\n"), "doc(p(\"Foo\\n---\"))");
    assert_eq!(blocks("Foo\n= =\n\nFoo\n--- -\n"), "doc(p(\"Foo\\n= =\") p(\"Foo\") hr)");
    assert_eq!(blocks("> Foo\n---\n"), "doc(quote(p(\"Foo\")) hr)");
    assert_eq!(blocks("> foo\nbar\n===\n"), "doc(quote(p(\"foo\\nbar\\n===\")))");
    assert_eq!(blocks("- Foo\n---\n"), "doc(ul(li(p(\"Foo\"))) hr)");
    assert_eq!(
        blocks("---\nFoo\n---\nBar\n---\nBaz\n"),
        "doc(hr h2(\"Foo\") h2(\"Bar\") p(\"Baz\"))"
    );
    assert_eq!(blocks("\n====\n"), "doc(p(\"====\"))");
    assert_eq!(blocks("---\n---\n"), "doc(hr hr)");
    assert_eq!(blocks("- foo\n-----\n"), "doc(ul(li(p(\"foo\"))) hr)");
    assert_eq!(blocks("    foo\n---\n"), "doc(code \"foo\\n\" hr)");
    assert_eq!(blocks("> foo\n-----\n"), "doc(quote(p(\"foo\")) hr)");
}

#[test]
fn indented_code() {
    assert_eq!(
        blocks("    a simple\n      indented code block\n"),
        "doc(code \"a simple\\n  indented code block\\n\")"
    );
    assert_eq!(blocks("  - foo\n\n    bar\n"), "doc(ul loose(li(p(\"foo\") p(\"bar\"))))");
    assert_eq!(
        blocks("1.  foo\n\n    - bar\n"),
        "doc(ol1 loose(li(p(\"foo\") ul(li(p(\"bar\"))))))"
    );
    assert_eq!(
        blocks("    chunk1\n\n    chunk2\n  \n \n \n    chunk3\n"),
        "doc(code \"chunk1\\n\\nchunk2\\n\\n\\n\\nchunk3\\n\")"
    );
    assert_eq!(blocks("    chunk1\n      \n      chunk2\n"), "doc(code \"chunk1\\n  \\n  chunk2\\n\")");
    assert_eq!(blocks("Foo\n    bar\n\n"), "doc(p(\"Foo\\nbar\"))");
    assert_eq!(blocks("    foo\nbar\n"), "doc(code \"foo\\n\" p(\"bar\"))");
    assert_eq!(
        blocks("# Heading\n    foo\nHeading\n------\n    foo\n----\n"),
        "doc(h1(\"Heading\") code \"foo\\n\" h2(\"Heading\") code \"foo\\n\" hr)"
    );
    assert_eq!(blocks("        foo\n    bar\n"), "doc(code \"    foo\\nbar\\n\")");
    assert_eq!(blocks("\n    \n    foo\n    \n\n"), "doc(code \"foo\\n\")");
    assert_eq!(blocks("    foo  \n"), "doc(code \"foo  \\n\")");
}

#[test]
fn fenced_code() {
    assert_eq!(blocks("```\n<\n >\n```\n"), "doc(code \"<\\n >\\n\")");
    assert_eq!(blocks("``\nfoo\n``\n"), "doc(p(\"``\\nfoo\\n``\"))");
    assert_eq!(blocks("```\naaa\n~~~\n```\n"), "doc(code \"aaa\\n~~~\\n\")");
    assert_eq!(blocks("````\naaa\n```\n``````\n"), "doc(code \"aaa\\n```\\n\")");
    assert_eq!(blocks("```\n"), "doc(code \"\")");
    assert_eq!(blocks("`````\n\n```\naaa\n"), "doc(code \"\\n```\\naaa\\n\")");
    assert_eq!(blocks("> ```\n> aaa\n\nbbb\n"), "doc(quote(code \"aaa\\n\") p(\"bbb\"))");
    assert_eq!(blocks("```\n\n  \n```\n"), "doc(code \"\\n  \\n\")");
    assert_eq!(blocks("```\n```\n"), "doc(code \"\")");
    assert_eq!(blocks(" ```\n aaa\naaa\n```\n"), "doc(code \"aaa\\naaa\\n\")");
    assert_eq!(blocks("   ```\n   aaa\n    aaa\n  aaa\n   ```\n"), "doc(code \"aaa\\n aaa\\naaa\\n\")");
    assert_eq!(blocks("    ```\n    aaa\n    ```\n"), "doc(code \"```\\naaa\\n```\\n\")");
    assert_eq!(blocks("```\naaa\n  ```\n"), "doc(code \"aaa\\n\")");
    assert_eq!(blocks("```\naaa\n    ```\n"), "doc(code \"aaa\\n    ```\\n\")");
    assert_eq!(blocks("``` ```\naaa\n"), "doc(p(\"``` ```\\naaa\"))");
    assert_eq!(blocks("~~~~~~\naaa\n~~~ ~~\n"), "doc(code \"aaa\\n~~~ ~~\\n\")");
    assert_eq!(blocks("foo\n```\nbar\n```\nbaz\n"), "doc(p(\"foo\") code \"bar\\n\" p(\"baz\"))");
    assert_eq!(
        blocks("foo\n---\n~~~\nbar\n~~~\n# baz\n"),
        "doc(h2(\"foo\") code \"bar\\n\" h1(\"baz\"))"
    );
    assert_eq!(blocks("```ruby\ndef foo(x)\n```\n"), "doc(code<ruby> \"def foo(x)\\n\")");
    assert_eq!(
        blocks("~~~~    ruby startline=3 $%@#$\nx\n~~~~~~~\n"),
        "doc(code<ruby startline=3 $%@#$> \"x\\n\")"
    );
    assert_eq!(blocks("````;\n````\n"), "doc(code<;> \"\")");
    assert_eq!(blocks("``` aa ```\nfoo\n"), "doc(p(\"``` aa ```\\nfoo\"))");
    assert_eq!(blocks("~~~ aa ``` ~~~\nfoo\n~~~\n"), "doc(code<aa ``` ~~~> \"foo\\n\")");
    assert_eq!(blocks("```\n``` aaa\n```\n"), "doc(code \"``` aaa\\n\")");
}

#[test]
fn html_in_blocks() {
    assert_eq!(
        blocks("<table><tr><td>\n<pre>\n**Hello**,\n\n_world_.\n</pre>\n</td></tr></table>\n"),
        "doc(html \"<table><tr><td>\\n<pre>\\n**Hello**,\\n\" p(\"_world_.\\n</pre>\") html \"</td></tr></table>\\n\")"
    );
    assert_eq!(blocks(" <div>\n  *hello*\n         <foo><a>\n"), "doc(html \" <div>\\n  *hello*\\n         <foo><a>\\n\")");
    assert_eq!(blocks("</div>\n*foo*\n"), "doc(html \"</div>\\n*foo*\\n\")");
    assert_eq!(blocks("<div id=\"foo\"\n*hi*\n"), "doc(html \"<div id=\\\"foo\\\"\\n*hi*\\n\")");
    assert_eq!(blocks("<div class\nfoo\n"), "doc(html \"<div class\\nfoo\\n\")");
    assert_eq!(blocks("<a href=\"foo\">\n*bar*\n</a>\n"), "doc(html \"<a href=\\\"foo\\\">\\n*bar*\\n</a>\\n\")");
    assert_eq!(blocks("<Warning>\n*bar*\n</Warning>\n"), "doc(html \"<Warning>\\n*bar*\\n</Warning>\\n\")");
    assert_eq!(blocks("</ins>\n*bar*\n"), "doc(html \"</ins>\\n*bar*\\n\")");
    assert_eq!(blocks("<del>*foo*</del>\n"), "doc(p(\"<del>*foo*</del>\"))");
    assert_eq!(
        blocks("<pre language=\"haskell\"><code>\nimport A\n\nmain :: IO ()\n</code></pre>\nokay\n"),
        "doc(html \"<pre language=\\\"haskell\\\"><code>\\nimport A\\n\\nmain :: IO ()\\n</code></pre>\\n\" p(\"okay\"))"
    );
    assert_eq!(blocks("<style\n  type=\"text/css\">\n\nfoo\n"), "doc(html \"<style\\n  type=\\\"text/css\\\">\\n\\nfoo\\n\")");
    assert_eq!(blocks("> <div>\n> foo\n\nbar\n"), "doc(quote(html \"<div>\\nfoo\\n\") p(\"bar\"))");
    assert_eq!(blocks("- <div>\n- foo\n"), "doc(ul(li(html \"<div>\\n\") li(p(\"foo\"))))");
    assert_eq!(blocks("<style>p{color:red;}</style>\n*foo*\n"), "doc(html \"<style>p{color:red;}</style>\\n\" p(\"*foo*\"))");
    assert_eq!(blocks("<!-- foo -->*bar*\n*baz*\n"), "doc(html \"<!-- foo -->*bar*\\n\" p(\"*baz*\"))");
    assert_eq!(blocks("<?php\n\n  echo '>';\n\n?>\nokay\n"), "doc(html \"<?php\\n\\n  echo '>';\\n\\n?>\\n\" p(\"okay\"))");
    assert_eq!(blocks("<!DOCTYPE html>\n"), "doc(html \"<!DOCTYPE html>\\n\")");
    assert_eq!(blocks("<![CDATA[\nx\n\n}\n]]>\nokay\n"), "doc(html \"<![CDATA[\\nx\\n\\n}\\n]]>\\n\" p(\"okay\"))");
    assert_eq!(blocks("  <!-- foo -->\n\n    <!-- foo -->\n"), "doc(html \"  <!-- foo -->\\n\" code \"<!-- foo -->\\n\")");
    assert_eq!(blocks("Foo\n<div>\nbar\n</div>\n"), "doc(p(\"Foo\") html \"<div>\\nbar\\n</div>\\n\")");
    assert_eq!(blocks("Foo\n<a href=\"bar\">\nbaz\n"), "doc(p(\"Foo\\n<a href=\\\"bar\\\">\\nbaz\"))");
}

#[test]
fn definitions_in_paragraphs() {
    assert_eq!(blocks("[foo]: /url \"title\"\n\n[foo]\n"), "doc(p(\"[foo]\"))");
    assert_eq!(blocks("   [foo]: \n      /url  \n           'the title'  \n\n[foo]\n"), "doc(p(\"[foo]\"))");
    assert_eq!(blocks("[foo]: /url '\ntitle\nline1\nline2\n'\n"), "doc");
    assert_eq!(
        blocks("[foo]: /url 'title\n\nwith blank line'\n"),
        "doc(p(\"[foo]: /url 'title\") p(\"with blank line'\"))"
    );
    assert_eq!(blocks("[foo]:\n/url\n"), "doc");
    assert_eq!(blocks("[foo]:\n\n[foo]\n"), "doc(p(\"[foo]:\") p(\"[foo]\"))");
    assert_eq!(blocks("[foo]: <>\n"), "doc");
    assert_eq!(blocks("[foo]: <bar>(baz)\n"), "doc(p(\"[foo]: <bar>(baz)\"))");
    assert_eq!(blocks("[\nfoo\n]: /url\nbar\n"), "doc(p(\"bar\"))");
    assert_eq!(blocks("[foo]: /url \"title\" ok\n"), "doc(p(\"[foo]: /url \\\"title\\\" ok\"))");
    assert_eq!(blocks("[foo]: /url\n\"title\" ok\n"), "doc(p(\"\\\"title\\\" ok\"))");
    assert_eq!(blocks("    [foo]: /url \"title\"\n"), "doc(code \"[foo]: /url \\\"title\\\"\\n\")");
    assert_eq!(blocks("Foo\n[bar]: /baz\n"), "doc(p(\"Foo\\n[bar]: /baz\"))");
    assert_eq!(blocks("# [Foo]\n[foo]: /url\n> bar\n"), "doc(h1(\"[Foo]\") quote(p(\"bar\")))");
    assert_eq!(blocks("[foo]: /url\nbar\n===\n"), "doc(h1(\"bar\"))");
    assert_eq!(blocks("[foo]: /url\n===\n[foo]\n"), "doc(p(\"===\\n[foo]\"))");
    assert_eq!(blocks("> [foo]: /url\n"), "doc(quote)");
}

#[test]
fn quotes() {
    assert_eq!(blocks("> # Foo\n> bar\n> baz\n"), "doc(quote(h1(\"Foo\") p(\"bar\\nbaz\")))");
    assert_eq!(blocks("># Foo\n>bar\n> baz\n"), "doc(quote(h1(\"Foo\") p(\"bar\\nbaz\")))");
    assert_eq!(blocks("    > # Foo\n    > bar\n"), "doc(code \"> # Foo\\n> bar\\n\")");
    assert_eq!(blocks("> bar\nbaz\n> foo\n"), "doc(quote(p(\"bar\\nbaz\\nfoo\")))");
    assert_eq!(blocks("> - foo\n- bar\n"), "doc(quote(ul(li(p(\"foo\")))) ul(li(p(\"bar\"))))");
    assert_eq!(blocks(">     foo\n    bar\n"), "doc(quote(code \"foo\\n\") code \"bar\\n\")");
    assert_eq!(blocks("> ```\nfoo\n```\n"), "doc(quote(code \"\") p(\"foo\") code \"\")");
    assert_eq!(blocks("> foo\n    - bar\n"), "doc(quote(p(\"foo\\n    - bar\")))");
    assert_eq!(blocks(">\n"), "doc(quote)");
    assert_eq!(blocks(">\n>  \n> \n"), "doc(quote)");
    assert_eq!(blocks("> foo\n\n> bar\n"), "doc(quote(p(\"foo\")) quote(p(\"bar\")))");
    assert_eq!(blocks("> foo\n>\n> bar\n"), "doc(quote(p(\"foo\") p(\"bar\")))");
    assert_eq!(blocks("foo\n> bar\n"), "doc(p(\"foo\") quote(p(\"bar\")))");
    assert_eq!(blocks("> aaa\n***\n> bbb\n"), "doc(quote(p(\"aaa\")) hr quote(p(\"bbb\")))");
    assert_eq!(blocks("> bar\n>\nbaz\n"), "doc(quote(p(\"bar\")) p(\"baz\"))");
    assert_eq!(blocks("> > > foo\nbar\n"), "doc(quote(quote(quote(p(\"foo\\nbar\")))))");
    assert_eq!(blocks(">>> foo\n> bar\n>>baz\n"), "doc(quote(quote(quote(p(\"foo\\nbar\\nbaz\")))))");
    assert_eq!(blocks(">     code\n\n>    not code\n"), "doc(quote(code \"code\\n\") quote(p(\"not code\")))");
}

#[test]
fn items() {
    assert_eq!(
        blocks("1.  A\n    b.\n\n        code\n\n    > q\n"),
        "doc(ol1 loose(li(p(\"A\\nb.\") code \"code\\n\" quote(p(\"q\")))))"
    );
    assert_eq!(blocks("- one\n\n two\n"), "doc(ul(li(p(\"one\"))) p(\"two\"))");
    assert_eq!(blocks("- one\n\n  two\n"), "doc(ul loose(li(p(\"one\") p(\"two\"))))");
    assert_eq!(blocks(" -    one\n\n     two\n"), "doc(ul(li(p(\"one\"))) code \" two\\n\")");
    assert_eq!(
        blocks("   > > 1.  one\n>>\n>>     two\n"),
        "doc(quote(quote(ol1 loose(li(p(\"one\") p(\"two\"))))))"
    );
    assert_eq!(
        blocks(">>- one\n>>\n  >  > two\n"),
        "doc(quote(quote(ul(li(p(\"one\"))) p(\"two\"))))"
    );
    assert_eq!(blocks("-one\n\n2.two\n"), "doc(p(\"-one\") p(\"2.two\"))");
    assert_eq!(blocks("- foo\n\n\n  bar\n"), "doc(ul loose(li(p(\"foo\") p(\"bar\"))))");
    assert_eq!(blocks("- Foo\n\n      bar\n\n\n      baz\n"), "doc(ul loose(li(p(\"Foo\") code \"bar\\n\\n\\nbaz\\n\")))");
    assert_eq!(blocks("123456789. ok\n"), "doc(ol123456789(li(p(\"ok\"))))");
    assert_eq!(blocks("1234567890. not ok\n"), "doc(p(\"1234567890. not ok\"))");
    assert_eq!(blocks("0. ok\n003. ok\n"), "doc(ol0(li(p(\"ok\")) li(p(\"ok\"))))");
    assert_eq!(blocks("-1. not ok\n"), "doc(p(\"-1. not ok\"))");
    assert_eq!(blocks("  10.  foo\n\n           bar\n"), "doc(ol10 loose(li(p(\"foo\") code \"bar\\n\")))");
    assert_eq!(blocks("1.     indented code\n\n   paragraph\n"), "doc(ol1 loose(li(code \"indented code\\n\" p(\"paragraph\"))))");
    assert_eq!(blocks("1.      indented code\n"), "doc(ol1(li(code \" indented code\\n\")))");
    assert_eq!(blocks("-    foo\n\n  bar\n"), "doc(ul(li(p(\"foo\"))) p(\"bar\"))");
    assert_eq!(blocks("-\n  foo\n-\n  ```\n  bar\n  ```\n"), "doc(ul(li(p(\"foo\")) li(code \"bar\\n\")))");
    assert_eq!(blocks("-   \n  foo\n"), "doc(ul(li(p(\"foo\"))))");
    assert_eq!(blocks("-\n\n  foo\n"), "doc(ul(li) p(\"foo\"))");
    assert_eq!(blocks("- foo\n-\n- bar\n"), "doc(ul(li(p(\"foo\")) li li(p(\"bar\"))))");
    assert_eq!(blocks("*\n"), "doc(ul(li))");
    assert_eq!(blocks("foo\n*\n\nfoo\n1.\n"), "doc(p(\"foo\\n*\") p(\"foo\\n1.\"))");
    assert_eq!(
        blocks("  1.  A\nb\n\n          code\n"),
        "doc(ol1 loose(li(p(\"A\\nb\") code \"code\\n\")))"
    );
    assert_eq!(blocks("> 1. > Blockquote\ncontinued here.\n"), "doc(quote(ol1(li(quote(p(\"Blockquote\\ncontinued here.\"))))))");
    assert_eq!(
        blocks("- foo\n  - bar\n    - baz\n      - boo\n"),
        "doc(ul(li(p(\"foo\") ul(li(p(\"bar\") ul(li(p(\"baz\") ul(li(p(\"boo\"))))))))))"
    );
    assert_eq!(
        blocks("- foo\n - bar\n  - baz\n   - boo\n"),
        "doc(ul(li(p(\"foo\")) li(p(\"bar\")) li(p(\"baz\")) li(p(\"boo\"))))"
    );
    assert_eq!(blocks("10) foo\n    - bar\n"), "doc(ol10(li(p(\"foo\") ul(li(p(\"bar\"))))))");
    assert_eq!(blocks("- - foo\n"), "doc(ul(li(ul(li(p(\"foo\"))))))");
    assert_eq!(blocks("1. - 2. foo\n"), "doc(ol1(li(ul(li(ol2(li(p(\"foo\"))))))))");
    assert_eq!(blocks("- # Foo\n- Bar\n  ---\n  baz\n"), "doc(ul(li(h1(\"Foo\")) li(h2(\"Bar\") p(\"baz\"))))");
}

#[test]
fn lists_of_items() {
    assert_eq!(blocks("- foo\n- bar\n+ baz\n"), "doc(ul(li(p(\"foo\")) li(p(\"bar\"))) ul(li(p(\"baz\"))))");
    assert_eq!(blocks("1. foo\n2. bar\n3) baz\n"), "doc(ol1(li(p(\"foo\")) li(p(\"bar\"))) ol3(li(p(\"baz\"))))");
    assert_eq!(blocks("Foo\n- bar\n- baz\n"), "doc(p(\"Foo\") ul(li(p(\"bar\")) li(p(\"baz\"))))");
    assert_eq!(blocks("n is\n14.  The number\n"), "doc(p(\"n is\\n14.  The number\"))");
    assert_eq!(blocks("- foo\n\n- bar\n\n\n- baz\n"), "doc(ul loose(li(p(\"foo\")) li(p(\"bar\")) li(p(\"baz\"))))");
    assert_eq!(
        blocks("- foo\n  - bar\n    - baz\n\n\n      bim\n"),
        "doc(ul(li(p(\"foo\") ul(li(p(\"bar\") ul loose(li(p(\"baz\") p(\"bim\"))))))))"
    );
    assert_eq!(
        blocks("- foo\n- bar\n\n<!-- -->\n\n- baz\n"),
        "doc(ul(li(p(\"foo\")) li(p(\"bar\"))) html \"<!-- -->\\n\" ul(li(p(\"baz\"))))"
    );
    assert_eq!(
        blocks("-   foo\n\n    notcode\n\n-   foo\n\n<!-- -->\n\n    code\n"),
        "doc(ul loose(li(p(\"foo\") p(\"notcode\")) li(p(\"foo\"))) html \"<!-- -->\\n\" code \"code\\n\")"
    );
    assert_eq!(blocks("- a\n - b\n  - c\n   - d\n    - e\n"), "doc(ul(li(p(\"a\")) li(p(\"b\")) li(p(\"c\")) li(p(\"d\\n    - e\"))))");
    assert_eq!(blocks("1. a\n\n  2. b\n\n    3. c\n"), "doc(ol1 loose(li(p(\"a\")) li(p(\"b\"))) code \"3. c\\n\")");
    assert_eq!(blocks("- a\n- b\n\n- c\n"), "doc(ul loose(li(p(\"a\")) li(p(\"b\")) li(p(\"c\"))))");
    assert_eq!(blocks("* a\n*\n\n* c\n"), "doc(ul loose(li(p(\"a\")) li li(p(\"c\"))))");
    assert_eq!(blocks("- a\n- b\n\n  c\n- d\n"), "doc(ul loose(li(p(\"a\")) li(p(\"b\") p(\"c\")) li(p(\"d\"))))");
    assert_eq!(blocks("- a\n- b\n\n  [ref]: /url\n- d\n"), "doc(ul loose(li(p(\"a\")) li(p(\"b\")) li(p(\"d\"))))");
    assert_eq!(
        blocks("- a\n- ```\n  b\n\n\n  ```\n- c\n"),
        "doc(ul(li(p(\"a\")) li(code \"b\\n\\n\\n\") li(p(\"c\"))))"
    );
    assert_eq!(
        blocks("- a\n  - b\n\n    c\n- d\n"),
        "doc(ul(li(p(\"a\") ul loose(li(p(\"b\") p(\"c\")))) li(p(\"d\"))))"
    );
    assert_eq!(blocks("* a\n  > b\n  >\n* c\n"), "doc(ul(li(p(\"a\") quote(p(\"b\"))) li(p(\"c\"))))");
    assert_eq!(blocks("- a\n  > b\n  ```\n  c\n  ```\n- d\n"), "doc(ul(li(p(\"a\") quote(p(\"b\")) code \"c\\n\") li(p(\"d\"))))");
    assert_eq!(blocks("- a\n  - b\n"), "doc(ul(li(p(\"a\") ul(li(p(\"b\"))))))");
    assert_eq!(blocks("1. ```\n   foo\n   ```\n\n   bar\n"), "doc(ol1 loose(li(code \"foo\\n\" p(\"bar\"))))");
    assert_eq!(blocks("* foo\n  * bar\n\n  baz\n"), "doc(ul loose(li(p(\"foo\") ul(li(p(\"bar\"))) p(\"baz\"))))");
    assert_eq!(
        blocks("- a\n  - b\n  - c\n\n- d\n  - e\n  - f\n"),
        "doc(ul loose(li(p(\"a\") ul(li(p(\"b\")) li(p(\"c\")))) li(p(\"d\") ul(li(p(\"e\")) li(p(\"f\"))))))"
    );
}
