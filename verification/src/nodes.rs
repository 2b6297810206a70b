//! The kinds of nodes that a document is made of.

use vstd::prelude::*;

verus! {

/// Whether a list is ordered.
#[derive(Debug, Clone, Copy, PartialEq, Eq, Structural)]
pub enum ListType {
    Bullet,
    Ordered,
}

/// What follows the number of an ordered list item.
#[derive(Debug, Clone, Copy, PartialEq, Eq, Structural)]
pub enum ListDelimType {
    Period,
    Paren,
}

/// How the cells of a table column are aligned.
#[derive(Debug, Clone, Copy, PartialEq, Eq, Structural)]
pub enum TableAlignment {
    Unaligned,
    Left,
    Center,
    Right,
}

/// A list, or an item of one.
#[derive(Debug, Clone, Copy, PartialEq, Eq, Structural)]
pub struct NodeList {
    pub list_type: ListType,
    /// The indentation of the marker.
    pub marker_offset: usize,
    /// The columns from the start of the marker to the contents.
    pub padding: usize,
    /// The number of the first item of an ordered list.
    pub start: usize,
    pub delimiter: ListDelimType,
    /// The marker of a bullet list.
    pub bullet_char: u8,
    /// Whether no two of its blocks are separated by a blank line.
    pub tight: bool,
}

/// An item of a description list.
#[derive(Debug, Clone, Copy, PartialEq, Eq, Structural)]
pub struct NodeDescriptionItem {
    pub marker_offset: usize,
    pub padding: usize,
}

/// A heading.
#[derive(Debug, Clone, Copy, PartialEq, Eq, Structural)]
pub struct NodeHeading {
    /// From 1 to 6.
    pub level: u8,
    /// Whether it is underlined, not marked with hashes.
    pub setext: bool,
}

/// A code block, fenced or indented.
#[derive(Debug, Clone)]
pub struct NodeCodeBlock {
    pub fenced: bool,
    pub fence_char: u8,
    pub fence_length: usize,
    /// The indentation of the opening fence.
    pub fence_offset: usize,
    pub info: String,
    pub literal: String,
}

/// A block of raw HTML.
#[derive(Debug, Clone)]
pub struct NodeHtmlBlock {
    /// Which of the seven start conditions opened it.
    pub block_type: u8,
    pub literal: String,
}

/// Inline code.
#[derive(Debug, Clone)]
pub struct NodeCode {
    pub num_backticks: usize,
    pub literal: String,
}

/// Where a link or an image points to.
#[derive(Debug, Clone)]
pub struct NodeLink {
    pub url: String,
    pub title: String,
}

/// What a node is.
#[derive(Debug, Clone)]
pub enum NodeValue {
    Document,
    FrontMatter(String),
    BlockQuote,
    List(NodeList),
    Item(NodeList),
    DescriptionList,
    DescriptionItem(NodeDescriptionItem),
    DescriptionTerm,
    DescriptionDetails,
    CodeBlock(NodeCodeBlock),
    HtmlBlock(NodeHtmlBlock),
    Paragraph,
    Heading(NodeHeading),
    ThematicBreak,
    FootnoteDefinition(String),
    Table(Vec<TableAlignment>),
    /// A row, with `true` for the header.
    TableRow(bool),
    TableCell,
    Text(String),
    TaskItem { symbol: Option<char> },
    SoftBreak,
    LineBreak,
    Code(NodeCode),
    HtmlInline(String),
    Emph,
    Strong,
    Strikethrough,
    Superscript,
    Link(NodeLink),
    Image(NodeLink),
    FootnoteReference(String),
}

/// A code block, with its texts as sequences.
#[verifier::ext_equal]
pub struct CodeBlockView {
    pub fenced: bool,
    pub fence_char: u8,
    pub fence_length: usize,
    pub fence_offset: usize,
    pub info: Seq<char>,
    pub literal: Seq<char>,
}

/// What a node is, with its texts as sequences.
#[verifier::ext_equal]
pub enum Value {
    Document,
    FrontMatter(Seq<char>),
    BlockQuote,
    List(NodeList),
    Item(NodeList),
    DescriptionList,
    DescriptionItem(NodeDescriptionItem),
    DescriptionTerm,
    DescriptionDetails,
    CodeBlock(CodeBlockView),
    HtmlBlock(u8, Seq<char>),
    Paragraph,
    Heading(NodeHeading),
    ThematicBreak,
    FootnoteDefinition(Seq<char>),
    Table(Seq<TableAlignment>),
    TableRow(bool),
    TableCell,
    Text(Seq<char>),
    TaskItem { symbol: Option<char> },
    SoftBreak,
    LineBreak,
    Code(usize, Seq<char>),
    HtmlInline(Seq<char>),
    Emph,
    Strong,
    Strikethrough,
    Superscript,
    Link(Seq<char>, Seq<char>),
    Image(Seq<char>, Seq<char>),
    FootnoteReference(Seq<char>),
}

impl View for NodeCodeBlock {
    type V = CodeBlockView;

    open spec fn view(&self) -> CodeBlockView {
        CodeBlockView {
            fenced: self.fenced,
            fence_char: self.fence_char,
            fence_length: self.fence_length,
            fence_offset: self.fence_offset,
            info: self.info@,
            literal: self.literal@,
        }
    }
}

impl View for NodeValue {
    type V = Value;

    open spec fn view(&self) -> Value {
        match *self {
            NodeValue::Document => Value::Document,
            NodeValue::FrontMatter(s) => Value::FrontMatter(s@),
            NodeValue::BlockQuote => Value::BlockQuote,
            NodeValue::List(nl) => Value::List(nl),
            NodeValue::Item(nl) => Value::Item(nl),
            NodeValue::DescriptionList => Value::DescriptionList,
            NodeValue::DescriptionItem(di) => Value::DescriptionItem(di),
            NodeValue::DescriptionTerm => Value::DescriptionTerm,
            NodeValue::DescriptionDetails => Value::DescriptionDetails,
            NodeValue::CodeBlock(ncb) => Value::CodeBlock(ncb@),
            NodeValue::HtmlBlock(nhb) => Value::HtmlBlock(nhb.block_type, nhb.literal@),
            NodeValue::Paragraph => Value::Paragraph,
            NodeValue::Heading(nh) => Value::Heading(nh),
            NodeValue::ThematicBreak => Value::ThematicBreak,
            NodeValue::FootnoteDefinition(s) => Value::FootnoteDefinition(s@),
            NodeValue::Table(a) => Value::Table(a@),
            NodeValue::TableRow(h) => Value::TableRow(h),
            NodeValue::TableCell => Value::TableCell,
            NodeValue::Text(s) => Value::Text(s@),
            NodeValue::TaskItem { symbol } => Value::TaskItem { symbol },
            NodeValue::SoftBreak => Value::SoftBreak,
            NodeValue::LineBreak => Value::LineBreak,
            NodeValue::Code(nc) => Value::Code(nc.num_backticks, nc.literal@),
            NodeValue::HtmlInline(s) => Value::HtmlInline(s@),
            NodeValue::Emph => Value::Emph,
            NodeValue::Strong => Value::Strong,
            NodeValue::Strikethrough => Value::Strikethrough,
            NodeValue::Superscript => Value::Superscript,
            NodeValue::Link(l) => Value::Link(l.url@, l.title@),
            NodeValue::Image(l) => Value::Image(l.url@, l.title@),
            NodeValue::FootnoteReference(s) => Value::FootnoteReference(s@),
        }
    }
}

impl Value {
    /// Blocks, as against inlines.
    pub open spec fn block(self) -> bool {
        match self {
            Value::Text(_) | Value::TaskItem { .. } | Value::SoftBreak | Value::LineBreak
            | Value::Code(_, _) | Value::HtmlInline(_) | Value::Emph | Value::Strong
            | Value::Strikethrough | Value::Superscript | Value::Link(_, _) | Value::Image(_, _)
            | Value::FootnoteReference(_) => false,
            _ => true,
        }
    }

    /// Blocks that take the text of further lines.
    pub open spec fn accepts_lines(self) -> bool {
        self is Paragraph || self is Heading || self is CodeBlock
    }

    /// Blocks whose text is parsed for inlines.
    pub open spec fn contains_inlines(self) -> bool {
        self is Paragraph || self is Heading || self is TableCell
    }

    /// Whether a node of this kind can have a child of the kind `child`.
    pub open spec fn can_contain(self, child: Value) -> bool {
        if child is Document {
            false
        } else if child is FrontMatter {
            self is Document
        } else {
            match self {
                Value::Document
                | Value::BlockQuote
                | Value::FootnoteDefinition(_)
                | Value::DescriptionTerm
                | Value::DescriptionDetails
                | Value::Item(_) => child.block() && !(child is Item),
                Value::List(_) => child is Item,
                Value::DescriptionList => child is DescriptionItem,
                Value::DescriptionItem(_) => child is DescriptionTerm
                    || child is DescriptionDetails,
                Value::Paragraph
                | Value::Heading(_)
                | Value::Emph
                | Value::Strong
                | Value::Link(_, _)
                | Value::Image(_, _)
                | Value::TableCell => !child.block(),
                Value::Table(_) => child is TableRow,
                Value::TableRow(_) => child is TableCell,
                _ => false,
            }
        }
    }
}

impl NodeValue {
    /// Whether it is a block.
    pub fn block(&self) -> (r: bool)
        ensures
            r == self@.block(),
    {
        match self {
            NodeValue::Text(_) | NodeValue::TaskItem { .. } | NodeValue::SoftBreak
            | NodeValue::LineBreak | NodeValue::Code(_) | NodeValue::HtmlInline(_)
            | NodeValue::Emph | NodeValue::Strong | NodeValue::Strikethrough
            | NodeValue::Superscript | NodeValue::Link(_) | NodeValue::Image(_)
            | NodeValue::FootnoteReference(_) => false,
            _ => true,
        }
    }

    /// Whether it takes the text of further lines.
    pub fn accepts_lines(&self) -> (r: bool)
        ensures
            r == self@.accepts_lines(),
    {
        match self {
            NodeValue::Paragraph | NodeValue::Heading(_) | NodeValue::CodeBlock(_) => true,
            _ => false,
        }
    }

    /// Whether its text is parsed for inlines.
    pub fn contains_inlines(&self) -> (r: bool)
        ensures
            r == self@.contains_inlines(),
    {
        match self {
            NodeValue::Paragraph | NodeValue::Heading(_) | NodeValue::TableCell => true,
            _ => false,
        }
    }

    /// Whether it can have a child of the kind `child`.
    pub fn can_contain(&self, child: &NodeValue) -> (r: bool)
        ensures
            r == self@.can_contain(child@),
    {
        match child {
            NodeValue::Document => return false,
            NodeValue::FrontMatter(_) => return match self {
                NodeValue::Document => true,
                _ => false,
            },
            _ => {},
        }
        match self {
            NodeValue::Document
            | NodeValue::BlockQuote
            | NodeValue::FootnoteDefinition(_)
            | NodeValue::DescriptionTerm
            | NodeValue::DescriptionDetails
            | NodeValue::Item(_) => child.block() && !matches!(child, NodeValue::Item(_)),
            NodeValue::List(_) => matches!(child, NodeValue::Item(_)),
            NodeValue::DescriptionList => matches!(child, NodeValue::DescriptionItem(_)),
            NodeValue::DescriptionItem(_) => matches!(
                child,
                NodeValue::DescriptionTerm | NodeValue::DescriptionDetails
            ),
            NodeValue::Paragraph
            | NodeValue::Heading(_)
            | NodeValue::Emph
            | NodeValue::Strong
            | NodeValue::Link(_)
            | NodeValue::Image(_)
            | NodeValue::TableCell => !child.block(),
            NodeValue::Table(_) => matches!(child, NodeValue::TableRow(_)),
            NodeValue::TableRow(_) => matches!(child, NodeValue::TableCell),
            _ => false,
        }
    }
}

/// Two markers belong to one list.
pub open spec fn same_list(a: NodeList, b: NodeList) -> bool {
    &&& a.list_type == b.list_type
    &&& a.delimiter == b.delimiter
    &&& a.bullet_char == b.bullet_char
}

/// Whether an item with `list_data` belongs to the list of `item_data`.
pub fn lists_match(list_data: &NodeList, item_data: &NodeList) -> (r: bool)
    ensures
        r == same_list(*list_data, *item_data),
{
    list_data.list_type == item_data.list_type && list_data.delimiter == item_data.delimiter
        && list_data.bullet_char == item_data.bullet_char
}

/// Belonging to one list is an equivalence, and says nothing of where an item stands.
pub proof fn law_same_list_equivalence(a: NodeList, b: NodeList, c: NodeList)
    ensures
        same_list(a, a),
        same_list(a, b) ==> same_list(b, a),
        same_list(a, b) && same_list(b, c) ==> same_list(a, c),
        same_list(
            a,
            (NodeList {
                marker_offset: b.marker_offset,
                padding: b.padding,
                start: b.start,
                tight: b.tight,
                ..a
            }),
        ),
{
}

} // verus!
