//! Parsing and incremental analysis for the notedown markup language: a grammar engine
//! that turns text into a parse tree with byte spans, lowering to a typed syntax tree,
//! a validator, a document store with two-phase collection, and read-only queries over
//! snapshots.

pub mod ast;
pub mod atoms;
pub mod format;
pub mod grammar;
pub mod lower;
pub mod nodes;
pub mod outline;
pub mod parse;
pub mod query;
pub mod snapshot;
pub mod span;
pub mod store;
pub mod style;
pub mod text;
pub mod validate;

pub use crate::ast::{
    ASTKind, ASTNode, CodeNode, CommandNode, Delimiter, ErrorNode, Header, LinkNode, ListNode,
    MathNode, MathStyle, QuoteBlock, StyleNode, TableAlignMode, TableNode, TextKind, Value,
};
pub use crate::atoms::{
    AlignNode, CommandArguments, CommandBody, DisplayMathSpan, IgnoreNode, InlineMathSpan,
    NewlineNode, NoteError, NoteErrorKind, ParagraphSpaceNode, WhitespaceNode,
};
pub use crate::format::Settings;
pub use crate::grammar::RuleTag;
pub use crate::lower::lower;
pub use crate::nodes::NotedownKind;
pub use crate::outline::{table_of_contents, TocEntry};
pub use crate::parse::{parse, parse_program, GrammarError, ParseTree};
pub use crate::query::{
    completion_candidates, completion_class, node_at_offset, path_at_offset, CompletionClass,
};
pub use crate::snapshot::{analyze, DocumentSnapshot};
pub use crate::span::Span;
pub use crate::store::{apply_edit, DocState, DocumentStore, EditError, TextEdit};
pub use crate::style::StyleKind;
pub use crate::validate::{validate, Diagnostic, DiagnosticLevel};
