use vstd::prelude::*;

use crate::span::Span;
use crate::style::StyleKind;

verus! {

/// A node of the typed syntax tree: what it is and where it stands in the text.
#[derive(Debug, PartialEq, Eq)]
pub struct ASTNode {
    pub kind: ASTKind,
    pub span: Span,
}

/// The closed family of node kinds.
#[derive(Debug, PartialEq, Eq)]
pub enum ASTKind {
    /// The top scope of a document.
    Statements(Vec<ASTNode>),
    /// A run of inline content.
    Paragraph(Vec<ASTNode>),
    /// A block-level divider.
    Delimiter(Delimiter),
    /// A heading with its level.
    Header(Header),
    /// A table.
    TableView(TableNode),
    /// An ordered or unordered list.
    ListView(ListNode),
    /// A fenced code block.
    CodeNode(CodeNode),
    /// Inline or display math.
    MathNode(MathNode),
    /// A link to a target.
    LinkNode(LinkNode),
    /// Plain text of some variant.
    TextSpan(TextKind),
    /// Styled inline content.
    StyledSpan(StyleNode),
    /// A command with its arguments.
    Command(CommandNode),
    /// A quotation block.
    Quote(QuoteBlock),
    /// A construct that failed to parse, kept with its text.
    Error(ErrorNode),
}

/// Dividers between blocks.
#[derive(Clone, Copy, Debug, PartialEq, Eq, Structural, Hash)]
pub enum Delimiter {
    HorizontalRule,
}

/// A heading; `level` counts its markers.
#[derive(Debug, PartialEq, Eq)]
pub struct Header {
    pub level: u8,
    pub children: Vec<ASTNode>,
}

/// Column alignment of a table.
#[derive(Clone, Copy, Debug, PartialEq, Eq, Structural, Hash)]
pub enum TableAlignMode {
    Left,
    Center,
    Right,
}

/// A table: titles, alignments and rows of cells. Rows may be shorter or longer
/// than the title row.
#[derive(Clone, Debug, PartialEq, Eq)]
pub struct TableNode {
    pub title: Vec<String>,
    pub align: Vec<TableAlignMode>,
    pub content: Vec<Vec<String>>,
}

/// A list; it is ordered when it records the number of its first item.
#[derive(Debug, PartialEq, Eq)]
pub struct ListNode {
    pub first_item_number: Option<usize>,
    pub items: Vec<ASTNode>,
}

/// A fenced code block.
#[derive(Clone, Debug, PartialEq, Eq)]
pub struct CodeNode {
    pub language: String,
    pub code: String,
}

/// How a formula is set.
#[derive(Clone, Copy, Debug, PartialEq, Eq, Structural, Hash)]
pub enum MathStyle {
    Display,
    Inline,
}

/// A formula and its setting.
#[derive(Clone, Debug, PartialEq, Eq)]
pub struct MathNode {
    pub style: MathStyle,
    pub math: String,
}

/// A link.
#[derive(Clone, Debug, PartialEq, Eq)]
pub struct LinkNode {
    pub target: String,
    pub label: Option<String>,
}

/// The variants of text.
#[derive(Clone, Debug, PartialEq, Eq)]
pub enum TextKind {
    Empty,
    Normal(String),
    HTMLRawInline(String),
    Emoji(char),
    Escaped(char),
    SoftNewline,
    HardNewline,
    CheckBox(bool),
}

/// Inline content under a style.
#[derive(Debug, PartialEq, Eq)]
pub struct StyleNode {
    pub kind: StyleKind,
    pub children: Vec<ASTNode>,
}

/// A command: `\name`, its argument literals and an optional body.
#[derive(Debug, PartialEq, Eq)]
pub struct CommandNode {
    pub name: String,
    pub arguments: Vec<Value>,
    pub body: Option<Vec<ASTNode>>,
}

/// A quotation, with an optional style name.
#[derive(Debug, PartialEq, Eq)]
pub struct QuoteBlock {
    pub style: Option<String>,
    pub body: Vec<ASTNode>,
}

/// What stands in place of a construct that could not be read.
#[derive(Clone, Debug, PartialEq, Eq)]
pub struct ErrorNode {
    pub message: String,
    pub recovered_text: String,
}

/// Literal values of command arguments. Numbers keep their written form.
#[derive(Debug, PartialEq, Eq)]
pub enum Value {
    Null,
    String(String),
    Integer(String),
    Decimal(String),
    Boolean(bool),
    List(Vec<Value>),
    Dict(Vec<(String, Value)>),
    Command(Box<ASTNode>),
}

/// Model of a node.
pub struct NodeModel {
    pub kind: KindModel,
    pub span: Span,
}

/// Model of the text variants.
pub enum TextModel {
    Empty,
    Normal(Seq<char>),
    Raw(Seq<char>),
    Emoji(char),
    Escaped(char),
    SoftBreak,
    HardBreak,
    CheckBox(bool),
}

/// Model of a node kind, with strings as character sequences.
pub enum KindModel {
    Statements(Seq<NodeModel>),
    Paragraph(Seq<NodeModel>),
    Delimiter(Delimiter),
    Header { level: u8, children: Seq<NodeModel> },
    Table { titles: Seq<Seq<char>>, aligns: Seq<TableAlignMode>, rows: Seq<Seq<Seq<char>>> },
    List { first: Option<usize>, items: Seq<NodeModel> },
    Code { language: Seq<char>, code: Seq<char> },
    Math { style: MathStyle, source: Seq<char> },
    Link { target: Seq<char>, label: Option<Seq<char>> },
    Text(TextModel),
    Style { kind: StyleKind, children: Seq<NodeModel> },
    Command { name: Seq<char>, arguments: Seq<ValueModel>, body: Option<Seq<NodeModel>> },
    Quote { style: Option<Seq<char>>, body: Seq<NodeModel> },
    Error { message: Seq<char>, recovered: Seq<char> },
}

/// Model of a literal value.
pub enum ValueModel {
    Null,
    String(Seq<char>),
    Integer(Seq<char>),
    Decimal(Seq<char>),
    Boolean(bool),
    List(Seq<ValueModel>),
    Dict(Seq<(Seq<char>, ValueModel)>),
    Command(Box<NodeModel>),
}

pub open spec fn opt_str(o: Option<String>) -> Option<Seq<char>> {
    match o {
        Some(s) => Some(s@),
        None => None,
    }
}

pub open spec fn strs_model(s: Seq<String>) -> Seq<Seq<char>> {
    Seq::new(s.len(), |i: int| s[i]@)
}

pub open spec fn rows_model(s: Seq<Vec<String>>) -> Seq<Seq<Seq<char>>> {
    Seq::new(s.len(), |i: int| strs_model(s[i]@))
}

pub open spec fn text_model(t: TextKind) -> TextModel {
    match t {
        TextKind::Empty => TextModel::Empty,
        TextKind::Normal(s) => TextModel::Normal(s@),
        TextKind::HTMLRawInline(s) => TextModel::Raw(s@),
        TextKind::Emoji(c) => TextModel::Emoji(c),
        TextKind::Escaped(c) => TextModel::Escaped(c),
        TextKind::SoftNewline => TextModel::SoftBreak,
        TextKind::HardNewline => TextModel::HardBreak,
        TextKind::CheckBox(b) => TextModel::CheckBox(b),
    }
}

/// Model of a node.
pub open spec fn node_model(n: ASTNode) -> NodeModel
    decreases n, 1int,
{
    NodeModel { kind: kind_model(n.kind), span: n.span }
}

/// Model of a node kind.
pub open spec fn kind_model(k: ASTKind) -> KindModel
    decreases k, 0int,
{
    match k {
        ASTKind::Statements(c) => KindModel::Statements(nodes_model(c@)),
        ASTKind::Paragraph(c) => KindModel::Paragraph(nodes_model(c@)),
        ASTKind::Delimiter(d) => KindModel::Delimiter(d),
        ASTKind::Header(h) => KindModel::Header { level: h.level, children: nodes_model(h.children@) },
        ASTKind::TableView(t) => KindModel::Table {
            titles: strs_model(t.title@),
            aligns: t.align@,
            rows: rows_model(t.content@),
        },
        ASTKind::ListView(l) => KindModel::List { first: l.first_item_number, items: nodes_model(l.items@) },
        ASTKind::CodeNode(c) => KindModel::Code { language: c.language@, code: c.code@ },
        ASTKind::MathNode(m) => KindModel::Math { style: m.style, source: m.math@ },
        ASTKind::LinkNode(l) => KindModel::Link { target: l.target@, label: opt_str(l.label) },
        ASTKind::TextSpan(t) => KindModel::Text(text_model(t)),
        ASTKind::StyledSpan(s) => KindModel::Style { kind: s.kind, children: nodes_model(s.children@) },
        ASTKind::Command(c) => KindModel::Command {
            name: c.name@,
            arguments: values_model(c.arguments@),
            body: match c.body {
                Some(b) => Some(nodes_model(b@)),
                None => None,
            },
        },
        ASTKind::Quote(q) => KindModel::Quote { style: opt_str(q.style), body: nodes_model(q.body@) },
        ASTKind::Error(e) => KindModel::Error { message: e.message@, recovered: e.recovered_text@ },
    }
}

/// Models of a sequence of nodes, element by element.
pub open spec fn nodes_model(s: Seq<ASTNode>) -> Seq<NodeModel>
    decreases s, 2int,
{
    if s.len() == 0 {
        Seq::empty()
    } else {
        nodes_model(s.drop_last()).push(node_model(s.last()))
    }
}

/// Model of a literal value.
pub open spec fn value_model(v: Value) -> ValueModel
    decreases v, 1int,
{
    match v {
        Value::Null => ValueModel::Null,
        Value::String(s) => ValueModel::String(s@),
        Value::Integer(s) => ValueModel::Integer(s@),
        Value::Decimal(s) => ValueModel::Decimal(s@),
        Value::Boolean(b) => ValueModel::Boolean(b),
        Value::List(l) => ValueModel::List(values_model(l@)),
        Value::Dict(d) => ValueModel::Dict(entries_model(d@)),
        Value::Command(n) => ValueModel::Command(Box::new(node_model(*n))),
    }
}

/// Models of a sequence of values.
pub open spec fn values_model(s: Seq<Value>) -> Seq<ValueModel>
    decreases s, 2int,
{
    if s.len() == 0 {
        Seq::empty()
    } else {
        values_model(s.drop_last()).push(value_model(s.last()))
    }
}

/// Models of the entries of a record.
pub open spec fn entries_model(s: Seq<(String, Value)>) -> Seq<(Seq<char>, ValueModel)>
    decreases s, 2int,
{
    if s.len() == 0 {
        Seq::empty()
    } else {
        entries_model(s.drop_last()).push((s.last().0@, value_model(s.last().1)))
    }
}

pub proof fn lemma_nodes_model_index(s: Seq<ASTNode>)
    ensures
        nodes_model(s).len() == s.len(),
        forall|i: int| 0 <= i < s.len() ==> #[trigger] nodes_model(s)[i] == node_model(s[i]),
    decreases s.len(),
{
    if s.len() > 0 {
        lemma_nodes_model_index(s.drop_last());
    }
}

pub proof fn lemma_nodes_model_push(s: Seq<ASTNode>, x: ASTNode)
    ensures
        nodes_model(s.push(x)) == nodes_model(s).push(node_model(x)),
{
    assert(s.push(x).drop_last() =~= s);
}

pub proof fn lemma_values_model_push(s: Seq<Value>, x: Value)
    ensures
        values_model(s.push(x)) == values_model(s).push(value_model(x)),
{
    assert(s.push(x).drop_last() =~= s);
}

/// The spans of `c` lie within `span` and follow one another in order without overlap.
pub open spec fn nested_in(c: Seq<NodeModel>, span: Span) -> bool {
    &&& forall|i: int| 0 <= i < c.len() ==> span.start <= #[trigger] c[i].span.start && c[i].span.end <= span.end
    &&& forall|i: int| 0 <= i < c.len() - 1 ==> #[trigger] c[i].span.end <= c[i + 1].span.start
}

/// `c` is nested in `span`, and so is every node below.
pub open spec fn nodes_nested(c: Seq<NodeModel>, span: Span) -> bool
    decreases c,
{
    nested_in(c, span) && forall|i: int| 0 <= i < c.len() ==> spans_nested(#[trigger] c[i])
}

/// Every child span of the node lies within its parent's span, and siblings are ordered
/// and do not overlap, all the way down.
pub open spec fn spans_nested(n: NodeModel) -> bool
    decreases n,
{
    n.span.start <= n.span.end && match n.kind {
        KindModel::Statements(c) => nodes_nested(c, n.span),
        KindModel::Paragraph(c) => nodes_nested(c, n.span),
        KindModel::Header { level, children } => nodes_nested(children, n.span),
        KindModel::List { first, items } => nodes_nested(items, n.span),
        KindModel::Style { kind, children } => nodes_nested(children, n.span),
        KindModel::Quote { style, body } => nodes_nested(body, n.span),
        KindModel::Command { name, arguments, body: Some(b) } => nodes_nested(b, n.span),
        _ => true,
    }
}

pub proof fn lemma_entries_model_index(s: Seq<(String, Value)>)
    ensures
        entries_model(s).len() == s.len(),
        forall|i: int| 0 <= i < s.len() ==> #[trigger] entries_model(s)[i] == (s[i].0@, value_model(s[i].1)),
    decreases s.len(),
{
    if s.len() > 0 {
        lemma_entries_model_index(s.drop_last());
    }
}

impl View for ASTNode {
    type V = NodeModel;

    open spec fn view(&self) -> NodeModel {
        node_model(*self)
    }
}

impl View for Value {
    type V = ValueModel;

    open spec fn view(&self) -> ValueModel {
        value_model(*self)
    }
}

} // verus!
