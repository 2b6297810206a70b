//! Link reference definitions.

use crate::ctype::{
    blanks, ispunct, isspace, lemma_run_end, punct_byte, run_end, skip_blanks, space_byte,
};
use crate::labels::{
    clean_title, clean_title_bytes, clean_url, clean_url_bytes, normal_label, normalize_label,
};
use crate::scanners::{index_of, link_title, title, title_end};
use crate::strings::{blank_text, is_blank, lemma_trimmed_valid, trim_slice, trimmed};
use crate::text::{copy_range, lemma_boundary_at_ascii, lemma_valid_between, string_from_utf8};
use crate::unwrap::{unwrap_into, unwrap_into_copy};
use vstd::prelude::*;
use vstd::slice::slice_subrange;
use vstd::utf8::{
    decode_utf8, is_char_boundary, is_char_boundary_start_end_of_seq, valid_utf8, valid_utf8_split,
};

verus! {

/// A label is at most this long.
pub const MAX_LINK_LABEL_LENGTH: usize = 1000;

/// No more than this many parentheses are open at once in a destination.
pub const MAX_PARENTHESES: usize = 32;

/// Where a reference points to.
#[derive(Debug, Clone)]
pub struct Reference {
    pub url: String,
    pub title: String,
}

/// Where a reference points to, as sequences.
#[verifier::ext_equal]
pub struct ReferenceView {
    pub url: Seq<char>,
    pub title: Seq<char>,
}

impl View for Reference {
    type V = ReferenceView;

    open spec fn view(&self) -> ReferenceView {
        ReferenceView { url: self.url@, title: self.title@ }
    }
}

/// The references defined so far, by their labels.
#[derive(Debug)]
pub struct RefMap {
    pub entries: Vec<(String, Reference)>,
    /// How much text references may expand to.
    ///
    /// The limit is not looked at where labels are looked up: keeping to it is left to the
    /// inline parser, which is handed the map.
    pub max_ref_size: usize,
}

/// The references in `entries`, by their labels.
pub open spec fn references_in(entries: Seq<(String, Reference)>) -> Map<
    Seq<char>,
    ReferenceView,
>
    decreases entries.len(),
{
    if entries.len() == 0 {
        Map::empty()
    } else {
        references_in(entries.drop_last()).insert(entries.last().0@, entries.last().1@)
    }
}

impl View for RefMap {
    type V = Map<Seq<char>, ReferenceView>;

    open spec fn view(&self) -> Map<Seq<char>, ReferenceView> {
        references_in(self.entries@)
    }
}

/// The references with one more, unless its label is empty or taken: the first definition
/// stands.
pub open spec fn with_reference(
    m: Map<Seq<char>, ReferenceView>,
    label: Seq<char>,
    r: ReferenceView,
) -> Map<Seq<char>, ReferenceView> {
    if label.len() == 0 || m.dom().contains(label) {
        m
    } else {
        m.insert(label, r)
    }
}

/// Labels in entries are the labels in the map.
proof fn lemma_references_in(entries: Seq<(String, Reference)>, label: Seq<char>)
    ensures
        references_in(entries).dom().contains(label) <==> exists|i: int|
            0 <= i < entries.len() && (#[trigger] entries[i]).0@ == label,
    decreases entries.len(),
{
    if entries.len() > 0 {
        let rest = entries.drop_last();
        lemma_references_in(rest, label);
        if exists|i: int| 0 <= i < rest.len() && (#[trigger] rest[i]).0@ == label {
            let i = choose|i: int| 0 <= i < rest.len() && (#[trigger] rest[i]).0@ == label;
            assert(entries[i].0@ == label);
        }
        if exists|i: int| 0 <= i < entries.len() && (#[trigger] entries[i]).0@ == label {
            let i = choose|i: int| 0 <= i < entries.len() && (#[trigger] entries[i]).0@ == label;
            if i < rest.len() {
                assert(rest[i].0@ == label);
            }
        }
        if entries.last().0@ == label {
            assert(entries[entries.len() - 1].0@ == label);
        }
    }
}

/// The last entry with a label is the one in the map.
proof fn lemma_reference_at(entries: Seq<(String, Reference)>, i: int)
    requires
        0 <= i < entries.len(),
        forall|k: int| i < k < entries.len() ==> (#[trigger] entries[k]).0@ != entries[i].0@,
    ensures
        references_in(entries).dom().contains(entries[i].0@),
        references_in(entries)[entries[i].0@] == entries[i].1@,
    decreases entries.len(),
{
    if i < entries.len() - 1 {
        assert(entries[entries.len() - 1].0@ != entries[i].0@);
        lemma_reference_at(entries.drop_last(), i);
    }
}

impl RefMap {
    /// No reference yet, and no limit.
    pub fn new() -> (r: RefMap)
        ensures
            r@ == Map::<Seq<char>, ReferenceView>::empty(),
            r.max_ref_size == usize::MAX,
    {
        RefMap { entries: Vec::new(), max_ref_size: usize::MAX }
    }

    /// The reference that `label`, in the form in which labels are compared, names.
    pub fn get(&self, label: &String) -> (r: Option<&Reference>)
        ensures
            match r {
                Some(reference) => self@.dom().contains(label@) && self@[label@] == reference@,
                None => !self@.dom().contains(label@),
            },
    {
        let mut i: usize = self.entries.len();
        while i > 0
            invariant
                i <= self.entries@.len(),
                forall|k: int|
                    i <= k < self.entries@.len() ==> (#[trigger] self.entries@[k]).0@ != label@,
            decreases i,
        {
            if self.entries[i - 1].0 == *label {
                proof {
                    lemma_reference_at(self.entries@, i - 1);
                }
                return Some(&self.entries[i - 1].1);
            }
            i -= 1;
        }
        proof {
            lemma_references_in(self.entries@, label@);
        }
        None
    }

    /// Adds a reference, unless its label is empty or taken.
    pub fn define(&mut self, label: String, reference: Reference)
        ensures
            final(self)@ == with_reference(old(self)@, label@, reference@),
            final(self).max_ref_size == old(self).max_ref_size,
    {
        if label.as_str().is_empty() {
            return;
        }
        match self.get(&label) {
            Some(_) => {},
            None => {
                self.entries.push((label, reference));
                proof {
                    assert(self.entries@.drop_last() =~= old(self).entries@);
                }
            },
        }
    }
}

/// Where the label that opens `s` is closed.
pub open spec fn label_close(s: Seq<u8>, i: int) -> Option<int>
    decreases s.len() - i,
{
    if i < 0 || i >= s.len() || s[i] == 91 {
        None
    } else if s[i] == 93 {
        Some(i)
    } else if s[i] == 92 && i + 1 < s.len() && punct_byte(s[i + 1]) {
        label_close(s, i + 2)
    } else {
        label_close(s, i + 1)
    }
}

/// The bracket that closes the label at the start of `s`, if it is not too far away.
pub open spec fn label_end(s: Seq<u8>) -> Option<int> {
    if s.len() > 0 && s[0] == 91 {
        match label_close(s, 1) {
            Some(e) => if e - 1 <= MAX_LINK_LABEL_LENGTH {
                Some(e)
            } else {
                None
            },
            None => None,
        }
    } else {
        None
    }
}

/// The bracket that closes a label lies ahead.
proof fn lemma_label_close(s: Seq<u8>, i: int)
    ensures
        label_close(s, i) matches Some(e) ==> i <= e < s.len() && s[e] == 93,
    decreases s.len() - i,
{
    if 0 <= i < s.len() {
        lemma_label_close(s, i + 1);
        if i + 2 <= s.len() {
            lemma_label_close(s, i + 2);
        }
    }
}

/// Finds the bracket that closes the label at the start of `s`.
pub fn link_label(s: &[u8]) -> (r: Option<usize>)
    ensures
        index_of(r) == label_end(s@),
        r matches Some(e) ==> 1 <= e < s@.len() && s@[0] == 91 && s@[e as int] == 93,
{
    if s.len() == 0 || s[0] != 91 {
        return None;
    }
    let mut pos: usize = 1;
    let mut c: u8 = 0;
    while unwrap_into_copy(s.get(pos), &mut c) && c != 91 && c != 93
        invariant
            1 <= pos <= s@.len(),
            s@[0] == 91,
            pos - 1 <= MAX_LINK_LABEL_LENGTH,
            label_close(s@, 1) == label_close(s@, pos as int),
        ensures
            1 <= pos <= s@.len(),
            s@[0] == 91,
            pos - 1 <= MAX_LINK_LABEL_LENGTH,
            label_close(s@, 1) == label_close(s@, pos as int),
            pos < s@.len() ==> c == s@[pos as int] && (c == 91 || c == 93),
        decreases s@.len() - pos,
    {
        if c == 92 && s.len() - pos > 1 && ispunct(s[pos + 1]) {
            pos += 2;
        } else {
            pos += 1;
        }
        if pos - 1 > MAX_LINK_LABEL_LENGTH {
            proof {
                lemma_label_close(s@, pos as int);
            }
            return None;
        }
    }
    if pos < s.len() && c == 93 {
        Some(pos)
    } else {
        None
    }
}

/// Behind the `>` that closes the destination in angle brackets that is read up to `i`.
pub open spec fn angle_end(s: Seq<u8>, i: int) -> Option<int>
    decreases s.len() - i,
{
    if i < 0 || i >= s.len() {
        None
    } else if s[i] == 62 {
        Some(i + 1)
    } else if s[i] == 92 {
        if i + 2 <= s.len() {
            angle_end(s, i + 2)
        } else {
            None
        }
    } else if s[i] == 10 || s[i] == 60 {
        None
    } else {
        angle_end(s, i + 1)
    }
}

/// The end of the bare destination that is read up to `i` with `depth` parentheses open.
pub open spec fn bare_end(s: Seq<u8>, i: int, depth: int) -> Option<int>
    decreases s.len() - i,
{
    if i < 0 || i >= s.len() {
        None
    } else if s[i] == 92 && i + 1 < s.len() && punct_byte(s[i + 1]) {
        bare_end(s, i + 2, depth)
    } else if s[i] == 40 {
        if depth + 1 > MAX_PARENTHESES {
            None
        } else {
            bare_end(s, i + 1, depth + 1)
        }
    } else if s[i] == 41 {
        if depth == 0 {
            Some(i)
        } else {
            bare_end(s, i + 1, depth - 1)
        }
    } else if space_byte(s[i]) || s[i] < 32 || s[i] == 127 {
        if i == 0 || depth != 0 {
            None
        } else {
            Some(i)
        }
    } else {
        bare_end(s, i + 1, depth)
    }
}

/// A link destination at the start of `s`: where it starts, where it ends, and the bytes it
/// takes with its angle brackets. Something must follow it.
pub open spec fn destination(s: Seq<u8>) -> Option<(int, int, int)> {
    if s.len() > 0 && s[0] == 60 {
        match angle_end(s, 1) {
            Some(e) => if e < s.len() {
                Some((1, e - 1, e))
            } else {
                None
            },
            None => None,
        }
    } else {
        match bare_end(s, 0, 0) {
            Some(e) => Some((0, e, e)),
            None => None,
        }
    }
}

/// Where destinations end.
proof fn lemma_angle_end(s: Seq<u8>, i: int)
    ensures
        angle_end(s, i) matches Some(e) ==> i < e <= s.len() && s[e - 1] == 62,
    decreases s.len() - i,
{
    if 0 <= i < s.len() {
        lemma_angle_end(s, i + 1);
        if i + 2 <= s.len() {
            lemma_angle_end(s, i + 2);
        }
    }
}

/// Where destinations end.
proof fn lemma_bare_end(s: Seq<u8>, i: int, depth: int)
    ensures
        bare_end(s, i, depth) matches Some(e) ==> i <= e < s.len() && s[e] < 128,
    decreases s.len() - i,
{
    if 0 <= i < s.len() {
        lemma_bare_end(s, i + 1, depth);
        lemma_bare_end(s, i + 1, depth + 1);
        lemma_bare_end(s, i + 1, depth - 1);
        if i + 2 <= s.len() {
            lemma_bare_end(s, i + 2, depth);
        }
    }
}

/// A link destination is text.
proof fn lemma_destination(s: Seq<u8>)
    requires
        valid_utf8(s),
    ensures
        destination(s) matches Some((a, b, n)) ==> {
            &&& 0 <= a <= b <= n < s.len()
            &&& valid_utf8(s.subrange(a, b))
        },
{
    if s.len() > 0 {
        is_char_boundary_start_end_of_seq(s);
        lemma_angle_end(s, 1);
        lemma_bare_end(s, 0, 0);
        match destination(s) {
            Some((a, b, n)) => {
                if s[0] == 60 {
                    lemma_boundary_at_ascii(s, 0);
                }
                lemma_boundary_at_ascii(s, b);
                lemma_valid_between(s, a, b);
            },
            None => {},
        }
    }
}

/// Scans a bare link destination.
fn scan_bare_url(input: &[u8]) -> (r: Option<usize>)
    ensures
        index_of(r) == bare_end(input@, 0, 0),
{
    let mut i: usize = 0;
    let mut depth: usize = 0;
    while i < input.len()
        invariant
            i <= input@.len(),
            depth <= MAX_PARENTHESES,
            bare_end(input@, 0, 0) == bare_end(input@, i as int, depth as int),
        decreases input@.len() - i,
    {
        let b: u8 = input[i];
        if b == 92 && input.len() - i > 1 && ispunct(input[i + 1]) {
            i += 2;
        } else if b == 40 {
            depth += 1;
            i += 1;
            if depth > MAX_PARENTHESES {
                return None;
            }
        } else if b == 41 {
            if depth == 0 {
                return Some(i);
            }
            depth -= 1;
            i += 1;
        } else if isspace(b) || b < 32 || b == 127 {
            return if i == 0 || depth != 0 {
                None
            } else {
                Some(i)
            };
        } else {
            i += 1;
        }
    }
    None
}

/// Scans a link destination: where it starts, where it ends, and the bytes it takes.
pub fn manual_scan_link_url(input: &[u8]) -> (r: Option<(usize, usize, usize)>)
    ensures
        match r {
            Some((a, b, n)) => destination(input@) == Some((a as int, b as int, n as int)),
            None => destination(input@) is None,
        },
{
    if input.len() == 0 || input[0] != 60 {
        return match scan_bare_url(input) {
            Some(e) => Some((0, e, e)),
            None => None,
        };
    }
    let mut i: usize = 1;
    while i < input.len()
        invariant
            1 <= i,
            input@.len() > 0,
            input@[0] == 60,
            angle_end(input@, 1) == angle_end(input@, i as int),
        decreases input@.len() - i,
    {
        let b: u8 = input[i];
        if b == 62 {
            return if i + 1 < input.len() {
                Some((1, i, i + 1))
            } else {
                None
            };
        } else if b == 92 {
            if input.len() - i < 2 {
                return None;
            }
            i += 2;
        } else if b == 10 || b == 60 {
            return None;
        } else {
            i += 1;
        }
    }
    None
}

/// Behind a line end at `p`, or at the end of `s`.
pub open spec fn past_line_end(s: Seq<u8>, p: int) -> Option<int> {
    let a = if p < s.len() && s[p] == 13 {
        p + 1
    } else {
        p
    };
    let b = if a < s.len() && s[a] == 10 {
        a + 1
    } else {
        a
    };
    if b > p || b == s.len() {
        Some(b)
    } else {
        None
    }
}

/// Passes a line end at `p`.
fn skip_line_end(s: &[u8], p: usize) -> (r: Option<usize>)
    requires
        p <= s@.len(),
    ensures
        index_of(r) == past_line_end(s@, p as int),
        r matches Some(e) ==> p <= e <= s@.len(),
{
    let mut b: usize = p;
    if b < s.len() && s[b] == 13 {
        b += 1;
    }
    if b < s.len() && s[b] == 10 {
        b += 1;
    }
    if b > p || b == s.len() {
        Some(b)
    } else {
        None
    }
}

/// Behind blanks at `p`, and a line end and more blanks if they are there.
pub open spec fn past_gap(s: Seq<u8>, p: int) -> int {
    let a = run_end(s, p, blanks());
    match past_line_end(s, a) {
        Some(b) => run_end(s, b, blanks()),
        None => a,
    }
}

/// Passes blanks, and a line end and more blanks if they are there.
fn spnl(s: &[u8], p: usize) -> (r: usize)
    requires
        p <= s@.len(),
    ensures
        r == past_gap(s@, p as int),
        p <= r <= s@.len(),
{
    let a: usize = skip_blanks(s, p);
    match skip_line_end(s, a) {
        Some(b) => skip_blanks(s, b),
        None => a,
    }
}

/// A link reference definition: its label, where it points to, and the bytes it takes.
#[verifier::ext_equal]
pub struct Definition {
    pub label: Seq<char>,
    pub reference: ReferenceView,
    pub end: int,
}

/// The title that follows a destination read up to `p`: what stands for it with its quotes,
/// or nothing, and where it ends.
pub open spec fn title_after(s: Seq<u8>, p: int) -> (Seq<u8>, int) {
    let q = past_gap(s, p);
    if q == p {
        (seq![], p)
    } else {
        match title(s.subrange(q, s.len() as int)) {
            Some(n) => (s.subrange(q, q + n), q + n),
            None => (seq![], p),
        }
    }
}

/// Where a definition whose destination ends at `p` ends itself: at a line end behind its
/// title or, failing that, behind its destination.
pub open spec fn definition_end(s: Seq<u8>, p: int) -> Option<int> {
    let (t, q) = title_after(s, p);
    match past_line_end(s, run_end(s, q, blanks())) {
        Some(e) => Some(e),
        None => if t.len() > 0 {
            past_line_end(s, run_end(s, p, blanks()))
        } else {
            None
        },
    }
}

/// The link reference definition at the start of `s`: a label in brackets, a colon, a
/// destination, and a title or none.
pub open spec fn definition(s: Seq<u8>) -> Option<Definition> {
    match label_end(s) {
        None => None,
        Some(e) => {
            let label = trimmed(s.subrange(1, e));
            let u = past_gap(s, e + 2);
            if label.len() == 0 || e + 1 >= s.len() || s[e + 1] != 58 {
                None
            } else {
                match destination(s.subrange(u, s.len() as int)) {
                    None => None,
                    Some((a, b, n)) => {
                        match definition_end(s, u + n) {
                            None => None,
                            Some(end) => Some(
                                Definition {
                                    label: normal_label(label),
                                    reference: ReferenceView {
                                        url: decode_utf8(
                                            clean_url_bytes(s.subrange(u + a, u + b)),
                                        ),
                                        title: decode_utf8(
                                            clean_title_bytes(title_after(s, u + n).0),
                                        ),
                                    },
                                    end,
                                },
                            ),
                        }
                    },
                }
            }
        },
    }
}

/// Whether `p` is at an end of `s` or next to an ASCII byte.
pub open spec fn cut_at(s: Seq<u8>, p: int) -> bool {
    ||| p == 0
    ||| p == s.len()
    ||| s[p - 1] < 128
    ||| s[p] < 128
}

/// Text can be cut at its ends and next to ASCII bytes.
proof fn lemma_cut(s: Seq<u8>, p: int)
    requires
        valid_utf8(s),
        0 <= p <= s.len(),
        cut_at(s, p),
    ensures
        is_char_boundary(s, p),
        valid_utf8(s.subrange(p, s.len() as int)),
{
    is_char_boundary_start_end_of_seq(s);
    if 0 < p < s.len() {
        if s[p - 1] < 128 {
            lemma_boundary_at_ascii(s, p - 1);
        } else {
            lemma_boundary_at_ascii(s, p);
        }
    }
    valid_utf8_split(s, p);
}

/// Blanks and line ends that are passed end where text can be cut.
proof fn lemma_gap_cut(s: Seq<u8>, p: int)
    requires
        0 <= p <= s.len(),
        cut_at(s, p),
    ensures
        ({
            let a = run_end(s, p, blanks());
            &&& p <= a <= s.len()
            &&& cut_at(s, a)
            &&& past_line_end(s, a) matches Some(b) ==> a <= b <= s.len() && cut_at(s, b)
        }),
        ({
            let g = past_gap(s, p);
            &&& p <= g <= s.len()
            &&& cut_at(s, g)
        }),
{
    let a = run_end(s, p, blanks());
    lemma_run_end(s, p, blanks());
    if a > p {
        assert(blanks()(s[a - 1]));
    }
    match past_line_end(s, a) {
        Some(b) => {
            lemma_run_end(s, b, blanks());
            let g = run_end(s, b, blanks());
            if g > b {
                assert(blanks()(s[g - 1]));
            }
        },
        None => {},
    }
}

/// Parses the link reference definition at the start of `content`, and adds it to `refmap`.
/// Gives the bytes it takes.
pub fn parse_reference_inline(content: &[u8], refmap: &mut RefMap) -> (r: Option<usize>)
    requires
        valid_utf8(content@),
    ensures
        match definition(content@) {
            Some(d) => {
                &&& index_of(r) == Some(d.end)
                &&& final(refmap)@ == with_reference(old(refmap)@, d.label, d.reference)
            },
            None => r is None && final(refmap)@ == old(refmap)@,
        },
        final(refmap).max_ref_size == old(refmap).max_ref_size,
        r matches Some(n) ==> 3 <= n <= content@.len() && valid_utf8(
            content@.subrange(n as int, content@.len() as int),
        ),
{
    let e: usize = match link_label(content) {
        Some(e) => e,
        None => return None,
    };
    proof {
        lemma_boundary_at_ascii(content@, 0);
        lemma_boundary_at_ascii(content@, e as int);
        lemma_valid_between(content@, 1, e as int);
        lemma_trimmed_valid(content@.subrange(1, e as int));
    }
    let label: Vec<u8> = trim_slice(slice_subrange(content, 1, e));
    if label.len() == 0 {
        return None;
    }
    if content.get(e + 1) != Some(&58u8) {
        return None;
    }
    proof {
        lemma_gap_cut(content@, e + 2);
    }
    let u: usize = spnl(content, e + 2);
    proof {
        lemma_cut(content@, u as int);
        lemma_destination(content@.subrange(u as int, content@.len() as int));
    }
    let rest: &[u8] = slice_subrange(content, u, content.len());
    let (a, b, n): (usize, usize, usize) = match manual_scan_link_url(rest) {
        Some(d) => d,
        None => return None,
    };
    let url: &[u8] = slice_subrange(content, u + a, u + b);
    proof {
        assert(url@ =~= rest@.subrange(a as int, b as int));
    }
    let before_title: usize = u + n;
    proof {
        lemma_destination_cut(content@, u as int);
        lemma_gap_cut(content@, before_title as int);
    }
    let q: usize = spnl(content, before_title);
    let mut title_len: usize = 0;
    let mut pos: usize = before_title;
    if q != before_title {
        let after: &[u8] = slice_subrange(content, q, content.len());
        if unwrap_into(link_title(after), &mut title_len) {
            pos = q + title_len;
            proof {
                assert(content@[q + title_len - 1] == after@[title_len - 1]);
                assert(content@[q as int] == after@[0]);
                lemma_boundary_at_ascii(content@, q as int);
                lemma_boundary_at_ascii(content@, pos - 1);
                lemma_valid_between(content@, q as int, pos as int);
            }
        }
    }
    let title: Vec<u8> = copy_range(content, q, q + title_len);
    proof {
        if title_len == 0 {
            assert(title@ =~= Seq::<u8>::empty());
        }
        assert((title@, pos as int) == title_after(content@, before_title as int));
        lemma_gap_cut(content@, pos as int);
    }
    let p: usize = skip_blanks(content, pos);
    let end: usize = match skip_line_end(content, p) {
        Some(end) => end,
        None => {
            if title.len() == 0 {
                return None;
            }
            let p: usize = skip_blanks(content, before_title);
            match skip_line_end(content, p) {
                Some(end) => end,
                None => return None,
            }
        },
    };
    proof {
        assert(definition_end(content@, before_title as int) == Some(end as int));
        lemma_cut(content@, end as int);
    }
    let lab: String = normalize_label(label.as_slice());
    let reference: Reference = Reference {
        url: string_from_utf8(clean_url(url)),
        title: string_from_utf8(clean_title(title.as_slice())),
    };
    refmap.define(lab, reference);
    Some(end)
}

/// A title ends with an ASCII byte.
proof fn lemma_title_end(s: Seq<u8>, i: int, close: u8)
    ensures
        title_end(s, i, close) matches Some(e) ==> i < e <= s.len() && s[e - 1] == close,
    decreases s.len() - i,
{
    if 0 <= i < s.len() {
        lemma_title_end(s, i + 1, close);
        if i + 2 <= s.len() {
            lemma_title_end(s, i + 2, close);
        }
    }
}

/// What follows a definition is text.
pub proof fn lemma_definition(s: Seq<u8>)
    requires
        valid_utf8(s),
    ensures
        definition(s) matches Some(d) ==> {
            &&& 0 < d.end <= s.len()
            &&& valid_utf8(s.subrange(d.end, s.len() as int))
        },
{
    if definition(s) is Some {
        let d = definition(s)->0;
        let e = label_end(s)->0;
        lemma_label_close(s, 1);
        lemma_gap_cut(s, e + 2);
        let u = past_gap(s, e + 2);
        lemma_destination_cut(s, u);
        let (a, b, n) = destination(s.subrange(u, s.len() as int))->0;
        let p = u + n;
        lemma_gap_cut(s, p);
        let q = past_gap(s, p);
        let rest = s.subrange(q, s.len() as int);
        if rest.len() > 0 {
            lemma_title_end(rest, 1, rest[0]);
            lemma_title_end(rest, 1, 41);
        }
        if title(rest) is Some {
            let m = title(rest)->0;
            assert(rest[m - 1] == s[q + m - 1]);
            assert(cut_at(s, q + m));
        }
        lemma_gap_cut(s, title_after(s, p).1);
        lemma_cut(s, d.end);
    }
}

/// What is left without definitions is text.
pub proof fn lemma_stripped(content: Seq<u8>, m: Map<Seq<char>, ReferenceView>)
    requires
        valid_utf8(content),
    ensures
        valid_utf8(stripped(content, m).0),
    decreases content.len(),
{
    lemma_definition(content);
    match definition(content) {
        Some(d) => {
            lemma_stripped(
                content.subrange(d.end, content.len() as int),
                with_reference(m, d.label, d.reference),
            );
        },
        None => {},
    }
}

/// What is left of `content` once the definitions that it starts with are taken off, and the
/// references with those that they define.
pub open spec fn stripped(content: Seq<u8>, m: Map<Seq<char>, ReferenceView>) -> (
    Seq<u8>,
    Map<Seq<char>, ReferenceView>,
)
    decreases content.len(),
{
    match definition(content) {
        Some(d) => if 0 < d.end <= content.len() {
            stripped(
                content.subrange(d.end, content.len() as int),
                with_reference(m, d.label, d.reference),
            )
        } else {
            (content, m)
        },
        None => (content, m),
    }
}

/// Takes the definitions off the start of `content`, and adds them to `refmap`. Says whether
/// anything but blanks is left.
pub fn resolve_reference_link_definitions(content: &mut Vec<u8>, refmap: &mut RefMap) -> (r: bool)
    requires
        valid_utf8(old(content)@),
    ensures
        (final(content)@, final(refmap)@) == stripped(old(content)@, old(refmap)@),
        final(refmap).max_ref_size == old(refmap).max_ref_size,
        valid_utf8(final(content)@),
        r == !blank_text(final(content)@),
{
    let n: usize = content.len();
    let ghost all = content@;
    let mut seeked: usize = 0;
    let mut pos: usize = 0;
    proof {
        assert(all.subrange(0, n as int) =~= all);
    }
    while unwrap_into(
        parse_reference_inline(slice_subrange(content.as_slice(), seeked, n), refmap),
        &mut pos,
    )
        invariant
            n == content@.len(),
            content@ == all,
            seeked <= n,
            valid_utf8(all.subrange(seeked as int, n as int)),
            refmap.max_ref_size == old(refmap).max_ref_size,
            stripped(all, old(refmap)@) == stripped(
                all.subrange(seeked as int, n as int),
                refmap@,
            ),
        ensures
            n == content@.len(),
            content@ == all,
            seeked <= n,
            valid_utf8(all.subrange(seeked as int, n as int)),
            refmap.max_ref_size == old(refmap).max_ref_size,
            stripped(all, old(refmap)@) == (all.subrange(seeked as int, n as int), refmap@),
        decreases n - seeked,
    {
        proof {
            assert(all.subrange(seeked as int, n as int).subrange(
                pos as int,
                (n - seeked) as int,
            ) =~= all.subrange(seeked + pos, n as int));
        }
        seeked += pos;
    }
    if seeked != 0 {
        *content = copy_range(content.as_slice(), seeked, n);
    } else {
        proof {
            assert(all.subrange(0, n as int) =~= all);
        }
    }
    !is_blank(content.as_slice())
}

/// A destination ends where text can be cut.
proof fn lemma_destination_cut(s: Seq<u8>, u: int)
    requires
        valid_utf8(s),
        0 <= u <= s.len(),
        cut_at(s, u),
    ensures
        destination(s.subrange(u, s.len() as int)) matches Some((a, b, n)) ==> {
            &&& u <= u + n < s.len()
            &&& cut_at(s, u + n)
        },
{
    let t = s.subrange(u, s.len() as int);
    lemma_cut(s, u);
    lemma_destination(t);
    lemma_angle_end(t, 1);
    lemma_bare_end(t, 0, 0);
    match destination(t) {
        Some((a, b, n)) => {
            assert(t[n] == s[u + n]);
            if n > 0 {
                assert(t[n - 1] == s[u + n - 1]);
            }
        },
        None => {},
    }
}

} // verus!
