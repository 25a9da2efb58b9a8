use vstd::prelude::*;

use crate::ast::{CodeNode, CommandNode, Value};
use crate::span::Span;
use crate::text::owned;
use crate::outline::{decimal_str, decimal_string};
use crate::validate::{push_str, DiagnosticLevel};

verus! {

/// A run of spaces.
#[derive(Clone, Copy, Debug, PartialEq, Eq, Structural, Hash)]
pub struct WhitespaceNode {
    pub width: usize,
    pub span: Span,
}

/// A run of newlines.
#[derive(Clone, Copy, Debug, PartialEq, Eq, Structural, Hash)]
pub struct NewlineNode {
    pub count: usize,
    pub span: Span,
}

/// Whitespace that carries no meaning but is kept for exact reproduction.
#[derive(Clone, Copy, Debug, PartialEq, Eq, Structural, Hash)]
pub enum IgnoreNode {
    /// Spaces.
    WS(WhitespaceNode),
    /// Newlines.
    NL(NewlineNode),
}

/// A stretch of blank lines that separates paragraphs.
#[derive(Clone, Copy, Debug, PartialEq, Eq, Structural, Hash)]
pub struct ParagraphSpaceNode {
    pub span: Span,
}

/// An alignment mark.
#[derive(Clone, Copy, Debug, PartialEq, Eq, Structural, Hash)]
pub struct AlignNode {
    pub span: Span,
}

impl WhitespaceNode {
    /// A run of `width` spaces over `span`.
    pub fn new(width: usize, span: Span) -> (r: WhitespaceNode)
        ensures
            r.width == width,
            r.span == span,
    {
        WhitespaceNode { width, span }
    }
}

impl NewlineNode {
    /// A run of `lines` newlines over `span`.
    pub fn new(lines: usize, span: Span) -> (r: NewlineNode)
        ensures
            r.count == lines,
            r.span == span,
    {
        NewlineNode { count: lines, span }
    }
}

/// The argument list of a command, `( ... )`, with the whitespace before it.
#[derive(Clone, Copy, Debug, PartialEq, Eq, Structural, Hash)]
pub struct CommandArguments {
    pub prefill: Option<WhitespaceNode>,
    pub span: Span,
}

/// The body of a command, `{ ... }`.
#[derive(Clone, Copy, Debug, PartialEq, Eq, Structural, Hash)]
pub struct CommandBody {}

impl CommandArguments {
    /// The same arguments with `space` before them.
    pub fn with_prefill(self, space: Option<WhitespaceNode>) -> (r: CommandArguments)
        ensures
            r.prefill == space,
            r.span == self.span,
    {
        CommandArguments { prefill: space, ..self }
    }
}

impl CommandNode {
    /// A command named `name`, without arguments or body.
    pub fn new(name: &str) -> (r: CommandNode)
        ensures
            r.name@ == name@,
            r.arguments@.len() == 0,
            r.body.is_none(),
    {
        CommandNode { name: owned(name), arguments: Vec::new(), body: None }
    }
}

/// `$...$` in running text.
#[derive(Clone, Debug, PartialEq, Eq, Hash)]
pub struct InlineMathSpan {
    pub text: String,
    pub span: Span,
}

/// `$$...$$` in running text.
#[derive(Clone, Debug, PartialEq, Eq, Hash)]
pub struct DisplayMathSpan {
    pub text: String,
    pub span: Span,
}

impl InlineMathSpan {
    /// The code block that stands for this formula: language `tex`, the formula as code.
    pub fn as_hir(&self) -> (r: CodeNode)
        ensures
            r.language@ == "tex"@,
            r.code@ == self.text@,
    {
        CodeNode { language: owned("tex"), code: self.text.clone() }
    }
}

impl DisplayMathSpan {
    /// The code block that stands for this formula: no language, the formula as code.
    pub fn as_hir(&self) -> (r: CodeNode)
        ensures
            r.language@.len() == 0,
            r.code@ == self.text@,
    {
        CodeNode { language: String::new(), code: self.text.clone() }
    }
}

/// The text that reports a failure of each kind.
pub open spec fn error_message(k: NoteErrorKind) -> Seq<char> {
    match k {
        NoteErrorKind::IOError(e) => e@,
        NoteErrorKind::FormatError(e) => e@,
        NoteErrorKind::SyntaxError(m) => "SyntaxError: "@ + m@,
        NoteErrorKind::TypeMismatch(m) => "TypeError: "@ + m@,
        NoteErrorKind::RuntimeError(m) => "RuntimeError: "@ + m@,
        NoteErrorKind::UndefinedVariable { name } => "RuntimeError: Variable "@ + name@ + " not found in scope"@,
        NoteErrorKind::Unreachable => "InternalError: Entered unreachable code!"@,
    }
}

/// The kinds of failure the tool-chain reports.
#[derive(Clone, Debug, PartialEq, Eq)]
pub enum NoteErrorKind {
    /// Reading or writing failed.
    IOError(String),
    /// Formatting a message failed.
    FormatError(String),
    /// The text does not follow the grammar.
    SyntaxError(String),
    /// A value has the wrong type.
    TypeMismatch(String),
    /// Evaluation failed.
    RuntimeError(String),
    /// A variable is not in scope.
    UndefinedVariable { name: String },
    /// A state that cannot occur was reached.
    Unreachable,
}

impl NoteErrorKind {
    /// The text that reports this failure.
    pub fn message(&self) -> (r: String)
        ensures
            r@ == error_message(*self),
    {
        let mut out = String::new();
        match self {
            NoteErrorKind::IOError(e) => push_str(&mut out, e.as_str()),
            NoteErrorKind::FormatError(e) => push_str(&mut out, e.as_str()),
            NoteErrorKind::SyntaxError(m) => {
                push_str(&mut out, "SyntaxError: ");
                push_str(&mut out, m.as_str());
            },
            NoteErrorKind::TypeMismatch(m) => {
                push_str(&mut out, "TypeError: ");
                push_str(&mut out, m.as_str());
            },
            NoteErrorKind::RuntimeError(m) => {
                push_str(&mut out, "RuntimeError: ");
                push_str(&mut out, m.as_str());
            },
            NoteErrorKind::UndefinedVariable { name } => {
                push_str(&mut out, "RuntimeError: Variable ");
                push_str(&mut out, name.as_str());
                push_str(&mut out, " not found in scope");
            },
            NoteErrorKind::Unreachable => push_str(&mut out, "InternalError: Entered unreachable code!"),
        }
        out
    }
}

/// A failure with its level, and the file and byte range where it happened, when known.
#[derive(Clone, Debug, PartialEq, Eq)]
pub struct NoteError {
    pub kind: NoteErrorKind,
    pub level: DiagnosticLevel,
    /// The path of the file.
    pub file: Option<String>,
    pub range: Option<(usize, usize)>,
}

/// The report of a failure: where it happened, on one line, then what happened.
pub open spec fn describe_spec(e: NoteError) -> Seq<char> {
    let path = match e.file {
        Some(f) => f@,
        None => "<Anonymous>"@,
    };
    let place = match e.range {
        Some((a, b)) => "at "@ + "("@ + decimal_str(a as nat) + ", "@ + decimal_str(b as nat) + ") of "@ + path,
        None => "at "@ + path,
    };
    place + "\n"@ + error_message(e.kind)
}

impl NoteError {
    fn with_kind(kind: NoteErrorKind) -> (r: NoteError)
        ensures
            r == (NoteError { kind, level: DiagnosticLevel::Unspecified, file: None, range: None }),
    {
        NoteError { kind, level: DiagnosticLevel::Unspecified, file: None, range: None }
    }

    /// A syntax error.
    pub fn syntax_error(msg: String) -> (r: NoteError)
        ensures
            r == (NoteError { kind: NoteErrorKind::SyntaxError(msg), level: DiagnosticLevel::Unspecified, file: None, range: None }),
    {
        Self::with_kind(NoteErrorKind::SyntaxError(msg))
    }

    /// A type mismatch.
    pub fn type_mismatch(msg: String) -> (r: NoteError)
        ensures
            r == (NoteError { kind: NoteErrorKind::TypeMismatch(msg), level: DiagnosticLevel::Unspecified, file: None, range: None }),
    {
        Self::with_kind(NoteErrorKind::TypeMismatch(msg))
    }

    /// A failure while evaluating.
    pub fn runtime_error(msg: String) -> (r: NoteError)
        ensures
            r == (NoteError { kind: NoteErrorKind::RuntimeError(msg), level: DiagnosticLevel::Unspecified, file: None, range: None }),
    {
        Self::with_kind(NoteErrorKind::RuntimeError(msg))
    }

    /// A variable that is not in scope.
    pub fn undefined_variable(name: String) -> (r: NoteError)
        ensures
            r == (NoteError { kind: NoteErrorKind::UndefinedVariable { name }, level: DiagnosticLevel::Unspecified, file: None, range: None }),
    {
        Self::with_kind(NoteErrorKind::UndefinedVariable { name })
    }

    /// A state that cannot occur was reached.
    pub fn unreachable() -> (r: NoteError)
        ensures
            r == (NoteError { kind: NoteErrorKind::Unreachable, level: DiagnosticLevel::Unspecified, file: None, range: None }),
    {
        Self::with_kind(NoteErrorKind::Unreachable)
    }

    /// Record the file where the failure happened.
    pub fn set_url(&mut self, url: String)
        ensures
            *final(self) == (NoteError { file: Some(url), ..*old(self) }),
    {
        self.file = Some(url);
    }

    /// Record the byte range where the failure happened.
    pub fn set_range(&mut self, start: usize, end: usize)
        ensures
            *final(self) == (NoteError { range: Some((start, end)), ..*old(self) }),
    {
        self.range = Some((start, end));
    }

    /// Failures are never reported as deprecated code.
    pub fn is_deprecated(&self) -> (r: bool)
        ensures
            !r,
    {
        false
    }

    /// Failures are never reported as unnecessary code.
    pub fn is_unnecessary(&self) -> (r: bool)
        ensures
            !r,
    {
        false
    }

    /// The report of this failure: `at (start, end) of path` or `at path` (`<Anonymous>`
    /// without a file), a newline, then the message of its kind.
    pub fn describe(&self) -> (r: String)
        ensures
            r@ == describe_spec(*self),
    {
        let mut out = String::new();
        push_str(&mut out, "at ");
        match self.range {
            Some((a, b)) => {
                push_str(&mut out, "(");
                decimal_string(a, &mut out);
                push_str(&mut out, ", ");
                decimal_string(b, &mut out);
                push_str(&mut out, ") of ");
            },
            None => {},
        }
        match &self.file {
            Some(f) => push_str(&mut out, f.as_str()),
            None => push_str(&mut out, "<Anonymous>"),
        }
        push_str(&mut out, "\n");
        let m = self.kind.message();
        push_str(&mut out, m.as_str());
        assert(out@ =~= describe_spec(*self));
        out
    }
}

impl Value {
    /// The value is a single literal rather than a collection or a command.
    pub open spec fn is_scalar(self) -> bool {
        !(self is List || self is Dict || self is Command)
    }

    /// The written form of a literal: strings and numbers as they are, booleans as `true`
    /// or `false`, nothing as the empty string.
    pub fn to_string(&self) -> (r: String)
        requires
            self.is_scalar(),
        ensures
            r@ == match *self {
                Value::String(s) => s@,
                Value::Integer(s) => s@,
                Value::Decimal(s) => s@,
                Value::Boolean(b) => if b { "true"@ } else { "false"@ },
                _ => Seq::<char>::empty(),
            },
    {
        let mut out = String::new();
        match self {
            Value::String(s) => push_str(&mut out, s.as_str()),
            Value::Integer(s) => push_str(&mut out, s.as_str()),
            Value::Decimal(s) => push_str(&mut out, s.as_str()),
            Value::Boolean(b) => push_str(&mut out, if *b { "true" } else { "false" }),
            _ => {},
        }
        out
    }
}

} // verus!
