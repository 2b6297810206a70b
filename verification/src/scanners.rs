//! The lexical grammar of block starts and ends.

use crate::ctype::{
    alpha_byte, blank_byte, blanks, digit_byte, is_line_end_char, is_space_or_tab, isalpha, isdigit,
    ispunct, isspace, lemma_run_end, lemma_run_end_is, line_end_byte, lower, lower_byte, only,
    punct_byte, run_end, skip_blanks, skip_only, skip_spaces, space_byte, spaces,
};
use vstd::prelude::*;
use vstd::utf8::encode_utf8;

verus! {

/// The underline of a heading.
#[derive(Debug, Clone, Copy, PartialEq, Eq, Structural)]
pub enum SetextChar {
    Equals,
    Hyphen,
}

/// `t` stands in `s` at `i`, capitals in `s` taken as small letters.
pub open spec fn stands_at(s: Seq<u8>, i: int, t: Seq<u8>) -> bool {
    &&& 0 <= i
    &&& i + t.len() <= s.len()
    &&& forall|k: int| 0 <= k < t.len() ==> lower_byte(s[i + k]) == #[trigger] t[k]
}

/// Whether `t` stands in `s` at `i`, capitals in `s` taken as small letters.
pub fn is_at(s: &[u8], i: usize, t: &str) -> (r: bool)
    requires
        i <= s@.len(),
    ensures
        r == stands_at(s@, i as int, encode_utf8(t@)),
{
    let w: &[u8] = t.as_bytes();
    let n: usize = s.len();
    if w.len() > n - i {
        return false;
    }
    let mut k: usize = 0;
    while k < w.len()
        invariant
            w@ == encode_utf8(t@),
            n == s@.len(),
            i + w@.len() <= n,
            k <= w@.len(),
            forall|m: int| 0 <= m < k ==> lower_byte(s@[i + m]) == #[trigger] w@[m],
        decreases w@.len() - k,
    {
        if lower(s[i + k]) != w[k] {
            return false;
        }
        k += 1;
    }
    true
}

/// The start of a heading marked with hashes: one to six of them, then blanks or the end of
/// the line. Gives the bytes it takes.
pub open spec fn atx_start(s: Seq<u8>) -> Option<int> {
    let h = run_end(s, 0, only(35));
    if 1 <= h <= 6 && h < s.len() {
        if blank_byte(s[h]) {
            Some(run_end(s, h, blanks()))
        } else if line_end_byte(s[h]) {
            Some(h + 1)
        } else {
            None
        }
    } else {
        None
    }
}

/// An optional index, as an integer.
pub open spec fn index_of(r: Option<usize>) -> Option<int> {
    match r {
        Some(n) => Some(n as int),
        None => None,
    }
}

/// Scans the start of a heading marked with hashes.
pub fn atx_heading_start(s: &[u8]) -> (r: Option<usize>)
    ensures
        index_of(r) == atx_start(s@),
        r matches Some(n) ==> 2 <= n <= s@.len(),
{
    let h: usize = skip_only(s, 0, 35);
    if 1 <= h && h <= 6 && h < s.len() {
        if is_space_or_tab(s[h]) {
            let n: usize = skip_blanks(s, h);
            proof {
                lemma_run_end(s@, h as int, blanks());
                assert(blanks()(s@[h as int]));
            }
            Some(n)
        } else if is_line_end_char(s[h]) {
            Some(h + 1)
        } else {
            None
        }
    } else {
        None
    }
}

/// `c`s, then blanks, then the end of the line.
pub open spec fn underline_of(s: Seq<u8>, c: u8) -> bool {
    let n = run_end(s, 0, only(c));
    let e = run_end(s, n, blanks());
    n >= 1 && e < s.len() && line_end_byte(s[e])
}

/// The underline of a heading.
pub open spec fn setext_line(s: Seq<u8>) -> Option<SetextChar> {
    if underline_of(s, 61) {
        Some(SetextChar::Equals)
    } else if underline_of(s, 45) {
        Some(SetextChar::Hyphen)
    } else {
        None
    }
}

/// Whether `s` is an underline of `c`s.
fn is_underline(s: &[u8], c: u8) -> (r: bool)
    ensures
        r == underline_of(s@, c),
{
    let n: usize = skip_only(s, 0, c);
    let e: usize = skip_blanks(s, n);
    n >= 1 && e < s.len() && is_line_end_char(s[e])
}

/// Scans the underline of a heading.
pub fn setext_heading_line(s: &[u8]) -> (r: Option<SetextChar>)
    ensures
        r == setext_line(s@),
{
    if is_underline(s, 61) {
        Some(SetextChar::Equals)
    } else if is_underline(s, 45) {
        Some(SetextChar::Hyphen)
    } else {
        None
    }
}

/// What may follow an opening fence of `c`s: neither a line end nor a NUL and, for backticks,
/// no backtick.
pub open spec fn info_bytes(c: u8) -> spec_fn(u8) -> bool {
    |b: u8| !line_end_byte(b) && b != 0 && !(c == 96 && b == 96)
}

/// Three or more `c`s that open a code block; gives how many.
pub open spec fn open_fence_of(s: Seq<u8>, c: u8) -> Option<int> {
    let n = run_end(s, 0, only(c));
    let e = run_end(s, n, info_bytes(c));
    if n >= 3 && e < s.len() && line_end_byte(s[e]) {
        Some(n)
    } else {
        None
    }
}

/// A fence of backticks or tildes that opens a code block.
pub open spec fn open_fence(s: Seq<u8>) -> Option<int> {
    if s.len() > 0 && (s[0] == 96 || s[0] == 126) {
        open_fence_of(s, s[0])
    } else {
        None
    }
}

/// Scans a fence that opens a code block.
pub fn open_code_fence(s: &[u8]) -> (r: Option<usize>)
    ensures
        index_of(r) == open_fence(s@),
        r matches Some(n) ==> 3 <= n < s@.len(),
{
    if s.len() == 0 || !(s[0] == 96 || s[0] == 126) {
        return None;
    }
    let c: u8 = s[0];
    let n: usize = skip_only(s, 0, c);
    let mut e: usize = n;
    while e < s.len() && !is_line_end_char(s[e]) && s[e] != 0 && !(c == 96 && s[e] == 96)
        invariant
            n <= e <= s@.len(),
            forall|k: int| n <= k < e ==> info_bytes(c)(#[trigger] s@[k]),
        decreases s@.len() - e,
    {
        e += 1;
    }
    proof {
        lemma_run_end_is(s@, n as int, e as int, info_bytes(c));
    }
    if n >= 3 && e < s.len() && is_line_end_char(s[e]) {
        Some(n)
    } else {
        None
    }
}

/// Three or more `c`s with nothing but blanks behind them; gives how many.
pub open spec fn close_fence_of(s: Seq<u8>, c: u8) -> Option<int> {
    let n = run_end(s, 0, only(c));
    let e = run_end(s, n, blanks());
    if n >= 3 && e < s.len() && line_end_byte(s[e]) {
        Some(n)
    } else {
        None
    }
}

/// A fence that may close a code block.
pub open spec fn close_fence(s: Seq<u8>) -> Option<int> {
    if s.len() > 0 && (s[0] == 96 || s[0] == 126) {
        close_fence_of(s, s[0])
    } else {
        None
    }
}

/// Scans a fence that may close a code block.
pub fn close_code_fence(s: &[u8]) -> (r: Option<usize>)
    ensures
        index_of(r) == close_fence(s@),
        r matches Some(n) ==> 3 <= n < s@.len(),
{
    if s.len() == 0 || !(s[0] == 96 || s[0] == 126) {
        return None;
    }
    let c: u8 = s[0];
    let n: usize = skip_only(s, 0, c);
    let e: usize = skip_blanks(s, n);
    if n >= 3 && e < s.len() && is_line_end_char(s[e]) {
        Some(n)
    } else {
        None
    }
}

/// Letters, digits.
pub open spec fn alnums() -> spec_fn(u8) -> bool {
    |b: u8| alpha_byte(b) || digit_byte(b)
}

/// Skips letters and digits from `i` on.
fn skip_alnums(s: &[u8], i: usize) -> (r: usize)
    requires
        i <= s@.len(),
    ensures
        r == run_end(s@, i as int, alnums()),
        i <= r <= s@.len(),
{
    let mut j: usize = i;
    while j < s.len() && (isalpha(s[j]) || isdigit(s[j]))
        invariant
            i <= j <= s@.len(),
            forall|k: int| i <= k < j ==> alnums()(#[trigger] s@[k]),
        decreases s@.len() - j,
    {
        j += 1;
    }
    proof {
        lemma_run_end_is(s@, i as int, j as int, alnums());
    }
    j
}

/// The bytes of `s` from `i` up to `e` are the word `w`.
pub open spec fn word_is(s: Seq<u8>, i: int, e: int, w: Seq<char>) -> bool {
    stands_at(s, i, encode_utf8(w)) && e == i + encode_utf8(w).len()
}

/// Whether the bytes of `s` from `i` up to `e` are the word `w`.
fn is_word(s: &[u8], i: usize, e: usize, w: &str) -> (r: bool)
    requires
        i <= e <= s@.len(),
    ensures
        r == word_is(s@, i as int, e as int, w@),
{
    is_at(s, i, w) && w.as_bytes().len() == e - i
}

/// The tags whose contents are raw text.
pub open spec fn raw_tag(s: Seq<u8>, i: int, e: int) -> bool {
    ||| word_is(s, i, e, "script"@)
    ||| word_is(s, i, e, "pre"@)
    ||| word_is(s, i, e, "textarea"@)
    ||| word_is(s, i, e, "style"@)
}

/// Whether the word is a tag whose contents are raw text.
fn is_raw_tag(s: &[u8], i: usize, e: usize) -> (r: bool)
    requires
        i <= e <= s@.len(),
    ensures
        r == raw_tag(s@, i as int, e as int),
{
    is_word(s, i, e, "script") || is_word(s, i, e, "pre") || is_word(s, i, e, "textarea")
        || is_word(s, i, e, "style")
}

/// The tags that open a block of their own.
pub open spec fn block_tag(s: Seq<u8>, i: int, e: int) -> bool {
    ||| word_is(s, i, e, "address"@)
    ||| word_is(s, i, e, "article"@)
    ||| word_is(s, i, e, "aside"@)
    ||| word_is(s, i, e, "base"@)
    ||| word_is(s, i, e, "basefont"@)
    ||| word_is(s, i, e, "blockquote"@)
    ||| word_is(s, i, e, "body"@)
    ||| word_is(s, i, e, "caption"@)
    ||| word_is(s, i, e, "center"@)
    ||| word_is(s, i, e, "col"@)
    ||| word_is(s, i, e, "colgroup"@)
    ||| word_is(s, i, e, "dd"@)
    ||| word_is(s, i, e, "details"@)
    ||| word_is(s, i, e, "dialog"@)
    ||| word_is(s, i, e, "dir"@)
    ||| word_is(s, i, e, "div"@)
    ||| word_is(s, i, e, "dl"@)
    ||| word_is(s, i, e, "dt"@)
    ||| word_is(s, i, e, "fieldset"@)
    ||| word_is(s, i, e, "figcaption"@)
    ||| word_is(s, i, e, "figure"@)
    ||| word_is(s, i, e, "footer"@)
    ||| word_is(s, i, e, "form"@)
    ||| word_is(s, i, e, "frame"@)
    ||| word_is(s, i, e, "frameset"@)
    ||| word_is(s, i, e, "h1"@)
    ||| word_is(s, i, e, "h2"@)
    ||| word_is(s, i, e, "h3"@)
    ||| word_is(s, i, e, "h4"@)
    ||| word_is(s, i, e, "h5"@)
    ||| word_is(s, i, e, "h6"@)
    ||| word_is(s, i, e, "head"@)
    ||| word_is(s, i, e, "header"@)
    ||| word_is(s, i, e, "hr"@)
    ||| word_is(s, i, e, "html"@)
    ||| word_is(s, i, e, "iframe"@)
    ||| word_is(s, i, e, "legend"@)
    ||| word_is(s, i, e, "li"@)
    ||| word_is(s, i, e, "link"@)
    ||| word_is(s, i, e, "main"@)
    ||| word_is(s, i, e, "menu"@)
    ||| word_is(s, i, e, "menuitem"@)
    ||| word_is(s, i, e, "nav"@)
    ||| word_is(s, i, e, "noframes"@)
    ||| word_is(s, i, e, "ol"@)
    ||| word_is(s, i, e, "optgroup"@)
    ||| word_is(s, i, e, "option"@)
    ||| word_is(s, i, e, "p"@)
    ||| word_is(s, i, e, "param"@)
    ||| word_is(s, i, e, "section"@)
    ||| word_is(s, i, e, "source"@)
    ||| word_is(s, i, e, "summary"@)
    ||| word_is(s, i, e, "table"@)
    ||| word_is(s, i, e, "tbody"@)
    ||| word_is(s, i, e, "td"@)
    ||| word_is(s, i, e, "tfoot"@)
    ||| word_is(s, i, e, "th"@)
    ||| word_is(s, i, e, "thead"@)
    ||| word_is(s, i, e, "title"@)
    ||| word_is(s, i, e, "tr"@)
    ||| word_is(s, i, e, "track"@)
    ||| word_is(s, i, e, "ul"@)
}

/// Whether the word is a tag that opens a block of its own.
fn is_block_tag(s: &[u8], i: usize, e: usize) -> (r: bool)
    requires
        i <= e <= s@.len(),
    ensures
        r == block_tag(s@, i as int, e as int),
{
    is_word(s, i, e, "address")
        || is_word(s, i, e, "article")
        || is_word(s, i, e, "aside")
        || is_word(s, i, e, "base")
        || is_word(s, i, e, "basefont")
        || is_word(s, i, e, "blockquote")
        || is_word(s, i, e, "body")
        || is_word(s, i, e, "caption")
        || is_word(s, i, e, "center")
        || is_word(s, i, e, "col")
        || is_word(s, i, e, "colgroup")
        || is_word(s, i, e, "dd")
        || is_word(s, i, e, "details")
        || is_word(s, i, e, "dialog")
        || is_word(s, i, e, "dir")
        || is_word(s, i, e, "div")
        || is_word(s, i, e, "dl")
        || is_word(s, i, e, "dt")
        || is_word(s, i, e, "fieldset")
        || is_word(s, i, e, "figcaption")
        || is_word(s, i, e, "figure")
        || is_word(s, i, e, "footer")
        || is_word(s, i, e, "form")
        || is_word(s, i, e, "frame")
        || is_word(s, i, e, "frameset")
        || is_word(s, i, e, "h1")
        || is_word(s, i, e, "h2")
        || is_word(s, i, e, "h3")
        || is_word(s, i, e, "h4")
        || is_word(s, i, e, "h5")
        || is_word(s, i, e, "h6")
        || is_word(s, i, e, "head")
        || is_word(s, i, e, "header")
        || is_word(s, i, e, "hr")
        || is_word(s, i, e, "html")
        || is_word(s, i, e, "iframe")
        || is_word(s, i, e, "legend")
        || is_word(s, i, e, "li")
        || is_word(s, i, e, "link")
        || is_word(s, i, e, "main")
        || is_word(s, i, e, "menu")
        || is_word(s, i, e, "menuitem")
        || is_word(s, i, e, "nav")
        || is_word(s, i, e, "noframes")
        || is_word(s, i, e, "ol")
        || is_word(s, i, e, "optgroup")
        || is_word(s, i, e, "option")
        || is_word(s, i, e, "p")
        || is_word(s, i, e, "param")
        || is_word(s, i, e, "section")
        || is_word(s, i, e, "source")
        || is_word(s, i, e, "summary")
        || is_word(s, i, e, "table")
        || is_word(s, i, e, "tbody")
        || is_word(s, i, e, "td")
        || is_word(s, i, e, "tfoot")
        || is_word(s, i, e, "th")
        || is_word(s, i, e, "thead")
        || is_word(s, i, e, "title")
        || is_word(s, i, e, "tr")
        || is_word(s, i, e, "track")
        || is_word(s, i, e, "ul")
}

/// Which of the first six start conditions of HTML blocks `s` meets.
pub open spec fn html_start(s: Seq<u8>) -> Option<u8> {
    let e = run_end(s, 1, alnums());
    let slash = if s.len() > 1 && s[1] == 47 {
        2int
    } else {
        1
    };
    let f = run_end(s, slash, alnums());
    if s.len() == 0 || s[0] != 60 {
        None
    } else if raw_tag(s, 1, e) && e < s.len() && (space_byte(s[e]) || s[e] == 62) {
        Some(1)
    } else if stands_at(s, 0, encode_utf8("<!--"@)) {
        Some(2)
    } else if stands_at(s, 0, encode_utf8("<?"@)) {
        Some(3)
    } else if s.len() > 2 && s[1] == 33 && alpha_byte(s[2]) {
        Some(4)
    } else if cdata_start(s) {
        Some(5)
    } else if block_tag(s, slash, f) && f < s.len() && (space_byte(s[f]) || s[f] == 62 || (s[f]
        == 47 && f + 1 < s.len() && s[f + 1] == 62)) {
        Some(6)
    } else {
        None
    }
}

/// `<![CDATA[`, in capitals.
pub open spec fn cdata_start(s: Seq<u8>) -> bool {
    &&& s.len() >= 9
    &&& s[0] == 60 && s[1] == 33 && s[2] == 91
    &&& s[3] == 67 && s[4] == 68 && s[5] == 65 && s[6] == 84 && s[7] == 65
    &&& s[8] == 91
}

/// Scans the start of an HTML block under the first six start conditions.
pub fn html_block_start(s: &[u8]) -> (r: Option<u8>)
    ensures
        r == html_start(s@),
        r matches Some(n) ==> 1 <= n <= 6,
{
    if s.len() == 0 || s[0] != 60 {
        return None;
    }
    let e: usize = skip_alnums(s, 1);
    if is_raw_tag(s, 1, e) && e < s.len() && (isspace(s[e]) || s[e] == 62) {
        return Some(1);
    }
    if is_at(s, 0, "<!--") {
        return Some(2);
    }
    if is_at(s, 0, "<?") {
        return Some(3);
    }
    if s.len() > 2 && s[1] == 33 && isalpha(s[2]) {
        return Some(4);
    }
    if s.len() >= 9 && s[1] == 33 && s[2] == 91 && s[3] == 67 && s[4] == 68 && s[5] == 65 && s[6]
        == 84 && s[7] == 65 && s[8] == 91 {
        return Some(5);
    }
    let slash: usize = if s.len() > 1 && s[1] == 47 {
        2
    } else {
        1
    };
    let f: usize = skip_alnums(s, slash);
    if is_block_tag(s, slash, f) && f < s.len() && (isspace(s[f]) || s[f] == 62 || (s[f] == 47 && f
        + 1 < s.len() && s[f + 1] == 62)) {
        return Some(6);
    }
    None
}

/// Bytes of a tag name behind its first letter.
pub open spec fn tag_bytes() -> spec_fn(u8) -> bool {
    |b: u8| alpha_byte(b) || digit_byte(b) || b == 45
}

/// Bytes of an attribute name behind its first one.
pub open spec fn attribute_bytes() -> spec_fn(u8) -> bool {
    |b: u8| alpha_byte(b) || digit_byte(b) || b == 95 || b == 58 || b == 46 || b == 45
}

/// Bytes of an attribute value without quotes.
pub open spec fn unquoted_bytes() -> spec_fn(u8) -> bool {
    |b: u8|
        !space_byte(b) && b != 34 && b != 39 && b != 61 && b != 60 && b != 62 && b != 96 && b != 0
}

/// Bytes between two quotes `q`.
pub open spec fn quoted_bytes(q: u8) -> spec_fn(u8) -> bool {
    |b: u8| b != q && b != 0
}

/// A tag name at `i`; gives its end.
pub open spec fn tag_name(s: Seq<u8>, i: int) -> Option<int> {
    if 0 <= i < s.len() && alpha_byte(s[i]) {
        Some(run_end(s, i + 1, tag_bytes()))
    } else {
        None
    }
}

/// An attribute value at `i`; gives its end.
pub open spec fn attribute_value(s: Seq<u8>, i: int) -> Option<int> {
    if i >= s.len() {
        None
    } else if s[i] == 34 || s[i] == 39 {
        let e = run_end(s, i + 1, quoted_bytes(s[i]));
        if e < s.len() && s[e] == s[i] {
            Some(e + 1)
        } else {
            None
        }
    } else {
        let e = run_end(s, i, unquoted_bytes());
        if e > i {
            Some(e)
        } else {
            None
        }
    }
}

/// White space and an attribute at `i`; gives its end.
pub open spec fn attribute(s: Seq<u8>, i: int) -> Option<int> {
    let j = run_end(s, i, spaces());
    if i < j < s.len() && (alpha_byte(s[j]) || s[j] == 95 || s[j] == 58) {
        let k = run_end(s, j + 1, attribute_bytes());
        let m = run_end(s, k, spaces());
        if m < s.len() && s[m] == 61 {
            attribute_value(s, run_end(s, m + 1, spaces()))
        } else {
            Some(k)
        }
    } else {
        None
    }
}

/// Where the attributes that start at `i` end.
pub open spec fn attributes_end(s: Seq<u8>, i: int) -> int
    decreases s.len() - i,
{
    match attribute(s, i) {
        Some(j) => if i < j <= s.len() {
            attributes_end(s, j)
        } else {
            i
        },
        None => i,
    }
}

/// The rest of an opening tag behind its `<`, at `i`; gives its end.
pub open spec fn open_tag(s: Seq<u8>, i: int) -> Option<int> {
    match tag_name(s, i) {
        Some(n) => {
            let a = run_end(s, attributes_end(s, n), spaces());
            let b = if a < s.len() && s[a] == 47 {
                a + 1
            } else {
                a
            };
            if b < s.len() && s[b] == 62 {
                Some(b + 1)
            } else {
                None
            }
        },
        None => None,
    }
}

/// The rest of a closing tag behind its `<`, at `i`; gives its end.
pub open spec fn close_tag(s: Seq<u8>, i: int) -> Option<int> {
    if 0 <= i < s.len() && s[i] == 47 {
        match tag_name(s, i + 1) {
            Some(n) => {
                let a = run_end(s, n, spaces());
                if a < s.len() && s[a] == 62 {
                    Some(a + 1)
                } else {
                    None
                }
            },
            None => None,
        }
    } else {
        None
    }
}

/// Tab, form feed, space.
pub open spec fn tag_gap() -> spec_fn(u8) -> bool {
    |b: u8| b == 9 || b == 12 || b == 32
}

/// The seventh start condition of HTML blocks: one whole tag, alone on its line.
pub open spec fn html_start_7(s: Seq<u8>) -> bool {
    let tag = if open_tag(s, 1) is Some {
        open_tag(s, 1)
    } else {
        close_tag(s, 1)
    };
    &&& s.len() > 0
    &&& s[0] == 60
    &&& match tag {
        Some(e) => {
            let g = run_end(s, e, tag_gap());
            g < s.len() && line_end_byte(s[g])
        },
        None => false,
    }
}

/// Scans a tag name at `i`.
fn scan_tag_name(s: &[u8], i: usize) -> (r: Option<usize>)
    requires
        i <= s@.len(),
    ensures
        index_of(r) == tag_name(s@, i as int),
        r matches Some(e) ==> i < e <= s@.len(),
{
    if i >= s.len() || !isalpha(s[i]) {
        return None;
    }
    let mut j: usize = i + 1;
    while j < s.len() && (isalpha(s[j]) || isdigit(s[j]) || s[j] == 45)
        invariant
            i < j <= s@.len(),
            forall|k: int| i + 1 <= k < j ==> tag_bytes()(#[trigger] s@[k]),
        decreases s@.len() - j,
    {
        j += 1;
    }
    proof {
        lemma_run_end_is(s@, i + 1, j as int, tag_bytes());
    }
    Some(j)
}

/// Scans an attribute value at `i`.
fn scan_attribute_value(s: &[u8], i: usize) -> (r: Option<usize>)
    requires
        i <= s@.len(),
    ensures
        index_of(r) == attribute_value(s@, i as int),
        r matches Some(e) ==> i < e <= s@.len(),
{
    if i >= s.len() {
        return None;
    }
    if s[i] == 34 || s[i] == 39 {
        let q: u8 = s[i];
        let mut e: usize = i + 1;
        while e < s.len() && s[e] != q && s[e] != 0
            invariant
                i < e <= s@.len(),
                forall|k: int| i + 1 <= k < e ==> quoted_bytes(q)(#[trigger] s@[k]),
            decreases s@.len() - e,
        {
            e += 1;
        }
        proof {
            lemma_run_end_is(s@, i + 1, e as int, quoted_bytes(q));
        }
        if e < s.len() && s[e] == q {
            Some(e + 1)
        } else {
            None
        }
    } else {
        let mut e: usize = i;
        while e < s.len() && !isspace(s[e]) && s[e] != 34 && s[e] != 39 && s[e] != 61 && s[e] != 60
            && s[e] != 62 && s[e] != 96 && s[e] != 0
            invariant
                i <= e <= s@.len(),
                forall|k: int| i <= k < e ==> unquoted_bytes()(#[trigger] s@[k]),
            decreases s@.len() - e,
        {
            e += 1;
        }
        proof {
            lemma_run_end_is(s@, i as int, e as int, unquoted_bytes());
        }
        if e > i {
            Some(e)
        } else {
            None
        }
    }
}

/// Scans white space and an attribute at `i`.
fn scan_attribute(s: &[u8], i: usize) -> (r: Option<usize>)
    requires
        i <= s@.len(),
    ensures
        index_of(r) == attribute(s@, i as int),
        r matches Some(e) ==> i < e <= s@.len(),
{
    let j: usize = skip_spaces(s, i);
    if !(i < j && j < s.len() && (isalpha(s[j]) || s[j] == 95 || s[j] == 58)) {
        return None;
    }
    let mut k: usize = j + 1;
    while k < s.len() && (isalpha(s[k]) || isdigit(s[k]) || s[k] == 95 || s[k] == 58 || s[k] == 46
        || s[k] == 45)
        invariant
            j < k <= s@.len(),
            forall|m: int| j + 1 <= m < k ==> attribute_bytes()(#[trigger] s@[m]),
        decreases s@.len() - k,
    {
        k += 1;
    }
    proof {
        lemma_run_end_is(s@, j + 1, k as int, attribute_bytes());
    }
    let m: usize = skip_spaces(s, k);
    if m < s.len() && s[m] == 61 {
        let v: usize = skip_spaces(s, m + 1);
        scan_attribute_value(s, v)
    } else {
        Some(k)
    }
}

/// Skips the attributes that start at `i`.
fn skip_attributes(s: &[u8], i: usize) -> (r: usize)
    requires
        i <= s@.len(),
    ensures
        r == attributes_end(s@, i as int),
        i <= r <= s@.len(),
{
    let mut j: usize = i;
    loop
        invariant
            i <= j <= s@.len(),
            attributes_end(s@, i as int) == attributes_end(s@, j as int),
        ensures
            i <= j <= s@.len(),
            j == attributes_end(s@, i as int),
        decreases s@.len() - j,
    {
        match scan_attribute(s, j) {
            Some(e) => {
                j = e;
            },
            None => {
                break;
            },
        }
    }
    j
}

/// Scans the rest of an opening tag at `i`.
fn scan_open_tag(s: &[u8], i: usize) -> (r: Option<usize>)
    requires
        i <= s@.len(),
    ensures
        index_of(r) == open_tag(s@, i as int),
        r matches Some(e) ==> i < e <= s@.len(),
{
    match scan_tag_name(s, i) {
        Some(n) => {
            let e: usize = skip_attributes(s, n);
            let a: usize = skip_spaces(s, e);
            let b: usize = if a < s.len() && s[a] == 47 {
                a + 1
            } else {
                a
            };
            if b < s.len() && s[b] == 62 {
                Some(b + 1)
            } else {
                None
            }
        },
        None => None,
    }
}

/// Scans the rest of a closing tag at `i`.
fn scan_close_tag(s: &[u8], i: usize) -> (r: Option<usize>)
    requires
        i <= s@.len(),
    ensures
        index_of(r) == close_tag(s@, i as int),
        r matches Some(e) ==> i < e <= s@.len(),
{
    if i >= s.len() || s[i] != 47 {
        return None;
    }
    match scan_tag_name(s, i + 1) {
        Some(n) => {
            let a: usize = skip_spaces(s, n);
            if a < s.len() && s[a] == 62 {
                Some(a + 1)
            } else {
                None
            }
        },
        None => None,
    }
}

/// Scans the start of an HTML block under the seventh start condition.
pub fn html_block_start_7(s: &[u8]) -> (r: Option<u8>)
    ensures
        r == (if html_start_7(s@) {
            Some(7u8)
        } else {
            None
        }),
{
    if s.len() == 0 || s[0] != 60 {
        return None;
    }
    let tag: Option<usize> = match scan_open_tag(s, 1) {
        Some(e) => Some(e),
        None => scan_close_tag(s, 1),
    };
    match tag {
        Some(e) => {
            let mut g: usize = e;
            while g < s.len() && (s[g] == 9 || s[g] == 12 || s[g] == 32)
                invariant
                    e <= g <= s@.len(),
                    forall|k: int| e <= k < g ==> tag_gap()(#[trigger] s@[k]),
                decreases s@.len() - g,
            {
                g += 1;
            }
            proof {
                lemma_run_end_is(s@, e as int, g as int, tag_gap());
            }
            if g < s.len() && is_line_end_char(s[g]) {
                Some(7)
            } else {
                None
            }
        },
        None => None,
    }
}

/// Neither a line feed nor a NUL stands before `i`.
pub open spec fn unbroken(s: Seq<u8>, i: int) -> bool {
    forall|k: int| 0 <= k < i ==> #[trigger] s[k] != 10 && s[k] != 0
}

/// The end of a raw text element stands at `i`.
pub open spec fn raw_end_at(s: Seq<u8>, i: int) -> bool {
    let e = run_end(s, i + 2, alnums());
    &&& stands_at(s, i, encode_utf8("</"@))
    &&& i + 2 <= s.len()
    &&& raw_tag(s, i + 2, e)
    &&& e < s.len()
    &&& s[e] == 62
}

/// What ends an HTML block of the given type, where it is a text, stands at `i`.
pub open spec fn html_end_at(s: Seq<u8>, i: int, block_type: u8) -> bool {
    match block_type {
        1 => raw_end_at(s, i),
        2 => stands_at(s, i, encode_utf8("-->"@)),
        3 => stands_at(s, i, encode_utf8("?>"@)),
        4 => stands_at(s, i, encode_utf8(">"@)),
        5 => stands_at(s, i, encode_utf8("]]>"@)),
        _ => false,
    }
}

/// The line holds what ends an HTML block of the given type.
pub open spec fn html_end(s: Seq<u8>, block_type: u8) -> bool {
    exists|i: int|
        0 <= i <= s.len() && unbroken(s, i) && #[trigger] html_end_at(s, i, block_type)
}

/// Whether what ends an HTML block of the given type stands at `i`.
fn is_html_end_at(s: &[u8], i: usize, block_type: u8) -> (r: bool)
    requires
        i <= s@.len(),
    ensures
        r == html_end_at(s@, i as int, block_type),
{
    if block_type == 1 {
        if !is_at(s, i, "</") || s.len() - i < 2 {
            return false;
        }
        let e: usize = skip_alnums(s, i + 2);
        is_raw_tag(s, i + 2, e) && e < s.len() && s[e] == 62
    } else if block_type == 2 {
        is_at(s, i, "-->")
    } else if block_type == 3 {
        is_at(s, i, "?>")
    } else if block_type == 4 {
        is_at(s, i, ">")
    } else if block_type == 5 {
        is_at(s, i, "]]>")
    } else {
        false
    }
}

/// Whether the line holds what ends an HTML block of the given type.
pub fn html_block_end(s: &[u8], block_type: u8) -> (r: bool)
    ensures
        r == html_end(s@, block_type),
{
    let mut i: usize = 0;
    loop
        invariant
            i <= s@.len(),
            unbroken(s@, i as int),
            forall|k: int| 0 <= k < i ==> !html_end_at(s@, k, block_type),
        decreases s@.len() - i,
    {
        if is_html_end_at(s, i, block_type) {
            return true;
        }
        if i == s.len() || s[i] == 10 || s[i] == 0 {
            assert forall|j: int|
                0 <= j <= s@.len() && unbroken(s@, j) implies !html_end_at(s@, j, block_type) by {
                if j > i {
                    assert(s@[i as int] != 10 && s@[i as int] != 0);
                }
            }
            return false;
        }
        i += 1;
    }
}

/// Bytes of a footnote label.
pub open spec fn label_bytes() -> spec_fn(u8) -> bool {
    |b: u8| b != 93 && b != 32 && b != 13 && b != 10 && b != 0 && b != 9
}

/// Where the label of a footnote definition ends.
pub open spec fn footnote_label_end(s: Seq<u8>) -> int {
    run_end(s, 2, label_bytes())
}

/// The start of a footnote definition: `[^`, a label, `]:`, blanks. Gives the bytes it takes.
pub open spec fn footnote_start(s: Seq<u8>) -> Option<int> {
    let e = footnote_label_end(s);
    if s.len() >= 2 && s[0] == 91 && s[1] == 94 && e > 2 && e + 1 < s.len() && s[e] == 93 && s[e
        + 1] == 58 {
        Some(run_end(s, e + 2, blanks()))
    } else {
        None
    }
}

/// Scans the start of a footnote definition; gives the bytes it takes and the end of the label.
pub fn footnote_definition(s: &[u8]) -> (r: Option<(usize, usize)>)
    ensures
        match r {
            Some((n, e)) => footnote_start(s@) == Some(n as int) && e == footnote_label_end(s@) && 3
                <= e && e + 2 <= n <= s@.len(),
            None => footnote_start(s@) is None,
        },
{
    if s.len() < 2 || s[0] != 91 || s[1] != 94 {
        return None;
    }
    let mut e: usize = 2;
    while e < s.len() && s[e] != 93 && s[e] != 32 && s[e] != 13 && s[e] != 10 && s[e] != 0 && s[e]
        != 9
        invariant
            2 <= e <= s@.len(),
            forall|k: int| 2 <= k < e ==> label_bytes()(#[trigger] s@[k]),
        decreases s@.len() - e,
    {
        e += 1;
    }
    proof {
        lemma_run_end_is(s@, 2, e as int, label_bytes());
    }
    if e > 2 && s.len() - e > 1 && s[e] == 93 && s[e + 1] == 58 {
        let n: usize = skip_blanks(s, e + 2);
        Some((n, e))
    } else {
        None
    }
}

/// The check box of a task: white space, then a symbol in square brackets, then white space or
/// the end. Gives the bytes it takes and the symbol.
pub open spec fn task_box(s: Seq<u8>) -> Option<(int, u8)> {
    let j = run_end(s, 0, spaces());
    if j + 2 < s.len() && s[j] == 91 && s[j + 2] == 93 && (j + 3 == s.len() || space_byte(
        s[j + 3],
    )) {
        Some(
            (
                if j + 3 == s.len() {
                    j + 3
                } else {
                    j + 4
                },
                s[j + 1],
            ),
        )
    } else {
        None
    }
}

/// Scans the check box of a task.
pub fn tasklist(s: &[u8]) -> (r: Option<(usize, u8)>)
    ensures
        match r {
            Some((n, c)) => task_box(s@) == Some((n as int, c)) && 3 <= n <= s@.len(),
            None => task_box(s@) is None,
        },
{
    let j: usize = skip_spaces(s, 0);
    if s.len() - j > 2 && s[j] == 91 && s[j + 2] == 93 && (s.len() - j == 3 || isspace(s[j + 3])) {
        Some(
            (
                if s.len() - j == 3 {
                    j + 3
                } else {
                    j + 4
                },
                s[j + 1],
            ),
        )
    } else {
        None
    }
}

/// Where a link title that `open` opened ends: behind the first `close` that no backslash
/// escapes. In parentheses no other parenthesis may open.
pub open spec fn title_end(s: Seq<u8>, i: int, close: u8) -> Option<int>
    decreases s.len() - i,
{
    if i < 0 || i >= s.len() || s[i] == 0 {
        None
    } else if s[i] == 92 && i + 1 < s.len() && punct_byte(s[i + 1]) {
        title_end(s, i + 2, close)
    } else if s[i] == close {
        Some(i + 1)
    } else if close == 41 && s[i] == 40 {
        None
    } else {
        title_end(s, i + 1, close)
    }
}

/// A link title at the start of `s`; gives the bytes it takes.
pub open spec fn title(s: Seq<u8>) -> Option<int> {
    if s.len() > 0 && (s[0] == 34 || s[0] == 39) {
        title_end(s, 1, s[0])
    } else if s.len() > 0 && s[0] == 40 {
        title_end(s, 1, 41)
    } else {
        None
    }
}

/// Scans a link title.
pub fn link_title(s: &[u8]) -> (r: Option<usize>)
    ensures
        index_of(r) == title(s@),
        r matches Some(n) ==> 2 <= n <= s@.len() && s@[n - 1] == (if s@[0] == 40 {
            41u8
        } else {
            s@[0]
        }),
{
    if s.len() == 0 || !(s[0] == 34 || s[0] == 39 || s[0] == 40) {
        return None;
    }
    let close: u8 = if s[0] == 40 {
        41
    } else {
        s[0]
    };
    let mut i: usize = 1;
    while i < s.len() && s[i] != 0
        invariant
            1 <= i <= s@.len(),
            title(s@) == title_end(s@, i as int, close),
            close == (if s@[0] == 40 {
                41u8
            } else {
                s@[0]
            }),
        decreases s@.len() - i,
    {
        if s[i] == 92 && s.len() - i > 1 && ispunct(s[i + 1]) {
            i += 2;
        } else if s[i] == close {
            return Some(i + 1);
        } else if close == 41 && s[i] == 40 {
            return None;
        } else {
            i += 1;
        }
    }
    None
}

} // verus!
