use vstd::prelude::*;

use crate::ast::{
    nodes_model, text_model, ASTKind,
    ASTNode, Delimiter, Header, KindModel, ListNode, NodeModel, QuoteBlock, StyleNode,
    TableNode, TextKind, TextModel,
};
use crate::span::Span;
use crate::style::{style_of, StyleKind};

verus! {

/// The constructors of this family build quotation blocks too.
pub type NotedownKind = ASTKind;

impl ASTKind {
    /// A node of this kind over `span`.
    pub fn into_node(self, span: Span) -> (r: ASTNode)
        ensures
            r.kind == self,
            r.span == span,
    {
        ASTNode { kind: self, span }
    }

    /// The top scope of a document.
    pub fn statements(children: Vec<ASTNode>, span: Span) -> (r: ASTNode)
        ensures
            r@ == (NodeModel { kind: KindModel::Statements(nodes_model(children@)), span }),
    {
        ASTNode { kind: ASTKind::Statements(children), span }
    }

    /// A paragraph of inline content.
    pub fn paragraph(children: Vec<ASTNode>, span: Span) -> (r: ASTNode)
        ensures
            r@ == (NodeModel { kind: KindModel::Paragraph(nodes_model(children@)), span }),
    {
        ASTNode { kind: ASTKind::Paragraph(children), span }
    }

    /// A heading of `level`, which is between 1 and 6.
    pub fn header(children: Vec<ASTNode>, level: u8, span: Span) -> (r: ASTNode)
        requires
            1 <= level <= 6,
        ensures
            r@ == (NodeModel { kind: KindModel::Header { level, children: nodes_model(children@) }, span }),
    {
        ASTNode { kind: ASTKind::Header(Header { level, children }), span }
    }

    /// Plain text.
    pub fn text(s: String, span: Span) -> (r: ASTNode)
        ensures
            r@ == (NodeModel { kind: KindModel::Text(TextModel::Normal(s@)), span }),
    {
        TextKind::Normal(s).into_node(span)
    }

    fn styled(kind: StyleKind, children: Vec<ASTNode>, span: Span) -> (r: ASTNode)
        ensures
            r@ == (NodeModel { kind: KindModel::Style { kind, children: nodes_model(children@) }, span }),
    {
        StyleNode { kind, children }.into_node(span)
    }

    /// Strong content.
    pub fn bold(children: Vec<ASTNode>, span: Span) -> (r: ASTNode)
        ensures
            r@ == (NodeModel { kind: KindModel::Style { kind: StyleKind::Strong, children: nodes_model(children@) }, span }),
    {
        Self::styled(StyleKind::Strong, children, span)
    }

    /// Emphasised content.
    pub fn italic(children: Vec<ASTNode>, span: Span) -> (r: ASTNode)
        ensures
            r@ == (NodeModel { kind: KindModel::Style { kind: StyleKind::Emphasis, children: nodes_model(children@) }, span }),
    {
        Self::styled(StyleKind::Emphasis, children, span)
    }

    /// Emphasised content.
    pub fn emphasis(children: Vec<ASTNode>, span: Span) -> (r: ASTNode)
        ensures
            r@ == (NodeModel { kind: KindModel::Style { kind: StyleKind::Emphasis, children: nodes_model(children@) }, span }),
    {
        Self::styled(StyleKind::Emphasis, children, span)
    }

    /// Underlined content.
    pub fn underline(children: Vec<ASTNode>, span: Span) -> (r: ASTNode)
        ensures
            r@ == (NodeModel { kind: KindModel::Style { kind: StyleKind::Underline, children: nodes_model(children@) }, span }),
    {
        Self::styled(StyleKind::Underline, children, span)
    }

    /// Struck-through content.
    pub fn strikethrough(children: Vec<ASTNode>, span: Span) -> (r: ASTNode)
        ensures
            r@ == (NodeModel { kind: KindModel::Style { kind: StyleKind::Delete, children: nodes_model(children@) }, span }),
    {
        Self::styled(StyleKind::Delete, children, span)
    }

    /// Hidden content.
    pub fn undercover(children: Vec<ASTNode>, span: Span) -> (r: ASTNode)
        ensures
            r@ == (NodeModel { kind: KindModel::Style { kind: StyleKind::Undercover, children: nodes_model(children@) }, span }),
    {
        Self::styled(StyleKind::Undercover, children, span)
    }

    /// A horizontal rule.
    pub fn hr(span: Span) -> (r: ASTNode)
        ensures
            r@ == (NodeModel { kind: KindModel::Delimiter(Delimiter::HorizontalRule), span }),
    {
        ASTNode { kind: ASTKind::Delimiter(Delimiter::HorizontalRule), span }
    }

    /// A hard line break.
    pub fn hard_break(span: Span) -> (r: ASTNode)
        ensures
            r@ == (NodeModel { kind: KindModel::Text(TextModel::HardBreak), span }),
    {
        TextKind::HardNewline.into_node(span)
    }

    /// A soft line break.
    pub fn soft_break(span: Span) -> (r: ASTNode)
        ensures
            r@ == (NodeModel { kind: KindModel::Text(TextModel::SoftBreak), span }),
    {
        TextKind::SoftNewline.into_node(span)
    }

    /// The emoji that starts `text`, or empty text when there is none.
    pub fn emoji(text: &str, span: Span) -> (r: ASTNode)
        ensures
            r@ == (NodeModel {
                kind: KindModel::Text(if text@.len() > 0 { TextModel::Emoji(text@[0]) } else { TextModel::Empty }),
                span,
            }),
    {
        let mut chars = text.chars();
        match chars.next() {
            Some(c) => TextKind::Emoji(c).into_node(span),
            None => TextKind::Empty.into_node(span),
        }
    }

    /// The escaped character that starts `text`; a lone backslash when there is none.
    pub fn escaped(text: &str, span: Span) -> (r: ASTNode)
        ensures
            r@ == (NodeModel {
                kind: KindModel::Text(TextModel::Escaped(if text@.len() > 0 { text@[0] } else { '\\' })),
                span,
            }),
    {
        let mut chars = text.chars();
        let c = match chars.next() {
            Some(c) => c,
            None => '\\',
        };
        TextKind::Escaped(c).into_node(span)
    }

    /// A quotation block.
    pub fn quote(body: Vec<ASTNode>, span: Span) -> (r: ASTNode)
        ensures
            r@ == (NodeModel { kind: KindModel::Quote { style: None, body: nodes_model(body@) }, span }),
    {
        ASTNode { kind: ASTKind::Quote(QuoteBlock::quote(body)), span }
    }

    /// A quotation block with a style name.
    pub fn quote_style(body: Vec<ASTNode>, style: String, span: Span) -> (r: ASTNode)
        ensures
            r@ == (NodeModel { kind: KindModel::Quote { style: Some(style@), body: nodes_model(body@) }, span }),
    {
        ASTNode { kind: ASTKind::Quote(QuoteBlock::quote_styled(body, style)), span }
    }
}

impl TextKind {
    /// A node of this text over `span`.
    pub fn into_node(self, span: Span) -> (r: ASTNode)
        ensures
            r@ == (NodeModel { kind: KindModel::Text(text_model(self)), span }),
    {
        ASTNode { kind: ASTKind::TextSpan(self), span }
    }

    /// Plain text.
    pub fn new(children: String) -> (r: TextKind)
        ensures
            text_model(r) == TextModel::Normal(children@),
    {
        TextKind::Normal(children)
    }

    /// Raw inline markup, kept as written.
    pub fn raw(children: String) -> (r: TextKind)
        ensures
            text_model(r) == TextModel::Raw(children@),
    {
        TextKind::HTMLRawInline(children)
    }

    /// The escape that `string` writes: a backslash and the character it escapes.
    pub fn escaped(string: String) -> (r: Option<TextKind>)
        ensures
            (string@.len() >= 2 && string@[0] == '\\') ==> r is Some && text_model(r->0) == TextModel::Escaped(string@[1]),
            !(string@.len() >= 2 && string@[0] == '\\') ==> r is None,
    {
        let mut chars = string.as_str().chars();
        match chars.next() {
            Some(c) => {
                if c != '\\' {
                    return None;
                }
            },
            None => return None,
        }
        match chars.next() {
            Some(c) => Some(TextKind::Escaped(c)),
            None => None,
        }
    }

    /// The emoji that starts `s`, or empty text when there is none.
    pub fn emoji(s: String) -> (r: TextKind)
        ensures
            text_model(r) == (if s@.len() > 0 { TextModel::Emoji(s@[0]) } else { TextModel::Empty }),
    {
        let mut chars = s.as_str().chars();
        match chars.next() {
            Some(c) => TextKind::Emoji(c),
            None => TextKind::Empty,
        }
    }
}

impl StyleNode {
    /// A node of this styled content over `span`.
    pub fn into_node(self, span: Span) -> (r: ASTNode)
        ensures
            r@ == (NodeModel { kind: KindModel::Style { kind: self.kind, children: nodes_model(self.children@) }, span }),
    {
        ASTNode { kind: ASTKind::StyledSpan(self), span }
    }

    /// Content under the style that the marker or style name `style` denotes.
    pub fn new(children: Vec<ASTNode>, style: &str) -> (r: StyleNode)
        ensures
            r.kind == style_of(style@),
            r.children == children,
    {
        StyleNode { kind: StyleKind::from_marker(style), children }
    }
}

impl QuoteBlock {
    /// A quotation without a style.
    pub fn quote(body: Vec<ASTNode>) -> (r: QuoteBlock)
        ensures
            r.style.is_none(),
            r.body == body,
    {
        QuoteBlock { style: None, body }
    }

    /// A quotation with a style name.
    pub fn quote_styled(body: Vec<ASTNode>, style: String) -> (r: QuoteBlock)
        ensures
            r.style == Some(style),
            r.body == body,
    {
        QuoteBlock { style: Some(style), body }
    }
}

impl ListNode {
    /// The list numbers its items.
    pub fn ordered(&self) -> (r: bool)
        ensures
            r == self.first_item_number.is_some(),
    {
        self.first_item_number.is_some()
    }
}

impl TableNode {
    /// The number of columns: the length of the longest of the title row and the rows.
    /// Rows may be ragged.
    pub fn count_columns(&self) -> (r: usize)
        ensures
            r >= self.title@.len(),
            forall|i: int| 0 <= i < self.content@.len() ==> r >= #[trigger] self.content@[i]@.len(),
            r == self.title@.len() || exists|i: int| 0 <= i < self.content@.len() && r == #[trigger] self.content@[i]@.len(),
    {
        let mut max = self.title.len();
        let mut i: usize = 0;
        while i < self.content.len()
            invariant
                0 <= i <= self.content@.len(),
                max >= self.title@.len(),
                forall|k: int| 0 <= k < i ==> max >= #[trigger] self.content@[k]@.len(),
                max == self.title@.len() || exists|k: int| 0 <= k < i && max == #[trigger] self.content@[k]@.len(),
            decreases self.content@.len() - i,
        {
            if self.content[i].len() > max {
                max = self.content[i].len();
            }
            i += 1;
        }
        max
    }

    /// Leave the table as it is: ragged rows are legal, and `count_columns` reports the
    /// widest row.
    pub fn fill_columns(&mut self)
        ensures
            *final(self) == *old(self),
    {
    }
}

} // verus!
