use vstd::prelude::*;

use crate::text::str_eq;

verus! {

/// The styles that inline content can carry.
#[derive(Clone, Copy, Debug, PartialEq, Eq, Structural, Hash)]
pub enum StyleKind {
    Plain,
    Emphasis,
    Strong,
    ItalicBold,
    Underline,
    Undercover,
    Marking,
    Color(u8, u8, u8, u8),
    Delete,
    Insert,
    Subscript,
    Superscript,
}

/// The style that a marker or a style name denotes; anything unknown is plain.
pub open spec fn style_of(s: Seq<char>) -> StyleKind {
    if s == "*"@ || s == "i"@ || s == "italic"@ || s == "em"@ {
        StyleKind::Emphasis
    } else if s == "**"@ || s == "b"@ || s == "bold"@ {
        StyleKind::Strong
    } else if s == "***"@ {
        StyleKind::ItalicBold
    } else if s == "~"@ || s == "u"@ || s == "underline"@ {
        StyleKind::Underline
    } else if s == "~~"@ || s == "s"@ {
        StyleKind::Delete
    } else if s == "~~~"@ {
        StyleKind::Undercover
    } else {
        StyleKind::Plain
    }
}

/// The text written before content of each style, and after it.
pub open spec fn surround_spec(k: StyleKind) -> (Seq<char>, Seq<char>) {
    match k {
        StyleKind::Plain => (""@, ""@),
        StyleKind::Emphasis => ("*"@, "*"@),
        StyleKind::Strong => ("**"@, "**"@),
        StyleKind::ItalicBold => ("***"@, "***"@),
        StyleKind::Underline => ("~"@, "~"@),
        StyleKind::Delete => ("~~"@, "~~"@),
        StyleKind::Undercover => ("~~~"@, "~~~"@),
        StyleKind::Subscript => ("<sub>"@, "</sub>"@),
        StyleKind::Superscript => ("<sup>"@, "</sup>"@),
        _ => (""@, ""@),
    }
}

impl StyleKind {
    /// The style has a written form.
    pub open spec fn has_surround(self) -> bool {
        !(self is Marking || self is Insert || self is Color)
    }

    /// The style that a marker (`*`, `**`, `~~`, ...) or a style name (`bold`, `u`, ...)
    /// denotes.
    pub fn from_marker(s: &str) -> (r: StyleKind)
        ensures
            r == style_of(s@),
    {
        if str_eq(s, "*") || str_eq(s, "i") || str_eq(s, "italic") || str_eq(s, "em") {
            StyleKind::Emphasis
        } else if str_eq(s, "**") || str_eq(s, "b") || str_eq(s, "bold") {
            StyleKind::Strong
        } else if str_eq(s, "***") {
            StyleKind::ItalicBold
        } else if str_eq(s, "~") || str_eq(s, "u") || str_eq(s, "underline") {
            StyleKind::Underline
        } else if str_eq(s, "~~") || str_eq(s, "s") {
            StyleKind::Delete
        } else if str_eq(s, "~~~") {
            StyleKind::Undercover
        } else {
            StyleKind::Plain
        }
    }

    /// The text that opens content of this style.
    pub fn surround_in(&self) -> (r: &'static str)
        requires
            self.has_surround(),
        ensures
            r@ == surround_spec(*self).0,
    {
        match self {
            StyleKind::Plain => "",
            StyleKind::Emphasis => "*",
            StyleKind::Strong => "**",
            StyleKind::ItalicBold => "***",
            StyleKind::Underline => "~",
            StyleKind::Delete => "~~",
            StyleKind::Undercover => "~~~",
            StyleKind::Subscript => "<sub>",
            StyleKind::Superscript => "<sup>",
            _ => "",
        }
    }

    /// The text that closes content of this style.
    pub fn surround_out(&self) -> (r: &'static str)
        requires
            self.has_surround(),
        ensures
            r@ == surround_spec(*self).1,
    {
        match self {
            StyleKind::Plain => "",
            StyleKind::Emphasis => "*",
            StyleKind::Strong => "**",
            StyleKind::ItalicBold => "***",
            StyleKind::Underline => "~",
            StyleKind::Delete => "~~",
            StyleKind::Undercover => "~~~",
            StyleKind::Subscript => "</sub>",
            StyleKind::Superscript => "</sup>",
            _ => "",
        }
    }
}

} // verus!
