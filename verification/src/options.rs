//! What the parser and the formatters can be told.

use vstd::prelude::*;

verus! {

/// Options for the parser and the formatters.
#[derive(Debug, Clone)]
pub struct ComrakOptions {
    /// Which extensions of CommonMark are on.
    pub extension: ComrakExtensionOptions,
    /// Options at parse time.
    pub parse: ComrakParseOptions,
    /// Options at render time.
    pub render: ComrakRenderOptions,
}

/// Which extensions are on.
#[derive(Debug, Clone)]
pub struct ComrakExtensionOptions {
    /// The strikethrough extension of GFM.
    pub strikethrough: bool,
    /// The tag filter of GFM.
    pub tagfilter: bool,
    /// The table extension of GFM.
    pub table: bool,
    /// The autolink extension of GFM.
    pub autolink: bool,
    /// The task list items of GFM.
    pub tasklist: bool,
    /// Superscript between carets.
    pub superscript: bool,
    /// The prefix for the identifiers given to headings, where they are given.
    pub header_ids: Option<String>,
    /// Footnotes.
    pub footnotes: bool,
    /// Description lists: a term in a paragraph, then details behind a colon.
    pub description_lists: bool,
    /// The line that opens and closes front matter, where front matter is looked for.
    pub front_matter_delimiter: Option<String>,
}

/// Options for the parser.
#[derive(Debug, Clone)]
pub struct ComrakParseOptions {
    /// Quotes, full stops and hyphens are made typographic.
    pub smart: bool,
    /// The info string of fenced code blocks that have none.
    pub default_info_string: Option<String>,
    /// Any symbol may check a task, not only `x` and `X`.
    pub relaxed_tasklist_matching: bool,
}

/// Options for the formatters.
#[derive(Debug, Clone, Copy)]
pub struct ComrakRenderOptions {
    /// Soft line breaks become hard ones.
    pub hardbreaks: bool,
    /// The language of a code block goes on its `pre` tag.
    pub github_pre_lang: bool,
    /// Info strings of code blocks are given in full.
    pub full_info_string: bool,
    /// The column to wrap CommonMark output at, or 0.
    pub width: usize,
    /// Raw HTML and links of any scheme are passed through.
    pub unsafe_: bool,
    /// Raw HTML is escaped, not dropped.
    pub escape: bool,
    /// The marker of bullet lists.
    pub list_style: ListStyleType,
}

/// The marker of bullet lists in CommonMark output.
#[derive(Debug, Clone, Copy, PartialEq, Eq, Structural)]
pub enum ListStyleType {
    /// The `-` character.
    Dash,
    /// The `+` character.
    Plus,
    /// The `*` character.
    Star,
}

impl ListStyleType {
    /// The byte of the marker.
    pub open spec fn marker_byte(self) -> u8 {
        match self {
            ListStyleType::Dash => 45,
            ListStyleType::Plus => 43,
            ListStyleType::Star => 42,
        }
    }

    /// The byte of the marker.
    pub fn marker(self) -> (r: u8)
        ensures
            r == self.marker_byte(),
    {
        match self {
            ListStyleType::Dash => 45,
            ListStyleType::Plus => 43,
            ListStyleType::Star => 42,
        }
    }
}

impl Default for ListStyleType {
    fn default() -> (r: ListStyleType)
        ensures
            r == ListStyleType::Dash,
    {
        ListStyleType::Dash
    }
}

impl ComrakExtensionOptions {
    /// Every extension is off.
    pub open spec fn plain(self) -> bool {
        &&& !self.strikethrough
        &&& !self.tagfilter
        &&& !self.table
        &&& !self.autolink
        &&& !self.tasklist
        &&& !self.superscript
        &&& self.header_ids is None
        &&& !self.footnotes
        &&& !self.description_lists
        &&& self.front_matter_delimiter is None
    }
}

impl ComrakParseOptions {
    /// No option is set.
    pub open spec fn plain(self) -> bool {
        &&& !self.smart
        &&& self.default_info_string is None
        &&& !self.relaxed_tasklist_matching
    }
}

impl ComrakRenderOptions {
    /// No option is set.
    pub open spec fn plain(self) -> bool {
        &&& !self.hardbreaks
        &&& !self.github_pre_lang
        &&& !self.full_info_string
        &&& self.width == 0
        &&& !self.unsafe_
        &&& !self.escape
        &&& self.list_style == ListStyleType::Dash
    }
}

/// What the options say about parsing: all but what they say about output.
#[verifier::ext_equal]
pub struct ParseTime {
    pub strikethrough: bool,
    pub table: bool,
    pub autolink: bool,
    pub tasklist: bool,
    pub superscript: bool,
    pub footnotes: bool,
    pub description_lists: bool,
    pub front_matter_delimiter: Option<Seq<char>>,
    pub smart: bool,
    pub default_info_string: Option<Seq<char>>,
    pub relaxed_tasklist_matching: bool,
}

/// The text of an optional string.
pub open spec fn text_of(s: Option<String>) -> Option<Seq<char>> {
    match s {
        Some(t) => Some(t@),
        None => None,
    }
}

impl ComrakOptions {
    /// What the options say about parsing.
    pub open spec fn parse_time(self) -> ParseTime {
        ParseTime {
            strikethrough: self.extension.strikethrough,
            table: self.extension.table,
            autolink: self.extension.autolink,
            tasklist: self.extension.tasklist,
            superscript: self.extension.superscript,
            footnotes: self.extension.footnotes,
            description_lists: self.extension.description_lists,
            front_matter_delimiter: text_of(self.extension.front_matter_delimiter),
            smart: self.parse.smart,
            default_info_string: text_of(self.parse.default_info_string),
            relaxed_tasklist_matching: self.parse.relaxed_tasklist_matching,
        }
    }
}

impl Default for ComrakExtensionOptions {
    fn default() -> (r: ComrakExtensionOptions)
        ensures
            r.plain(),
    {
        ComrakExtensionOptions {
            strikethrough: false,
            tagfilter: false,
            table: false,
            autolink: false,
            tasklist: false,
            superscript: false,
            header_ids: None,
            footnotes: false,
            description_lists: false,
            front_matter_delimiter: None,
        }
    }
}

impl Default for ComrakParseOptions {
    fn default() -> (r: ComrakParseOptions)
        ensures
            r.plain(),
    {
        ComrakParseOptions {
            smart: false,
            default_info_string: None,
            relaxed_tasklist_matching: false,
        }
    }
}

impl Default for ComrakRenderOptions {
    fn default() -> (r: ComrakRenderOptions)
        ensures
            r.plain(),
    {
        ComrakRenderOptions {
            hardbreaks: false,
            github_pre_lang: false,
            full_info_string: false,
            width: 0,
            unsafe_: false,
            escape: false,
            list_style: ListStyleType::default(),
        }
    }
}

impl Default for ComrakOptions {
    fn default() -> (r: ComrakOptions)
        ensures
            r.extension.plain(),
            r.parse.plain(),
            r.render.plain(),
    {
        ComrakOptions {
            extension: ComrakExtensionOptions::default(),
            parse: ComrakParseOptions::default(),
            render: ComrakRenderOptions::default(),
        }
    }
}

} // verus!
