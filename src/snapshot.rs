use vstd::prelude::*;

use vstd::utf8::encode_utf8;

use crate::ast::{nodes_model, spans_nested, ASTKind, ASTNode, KindModel, NodeModel};
use crate::grammar::{lemma_program_wf, program};
use crate::lower::{lemma_lower_nested, lower, lower_node};
use crate::outline::{table_of_contents, toc_model, toc_spec, TocEntry};
use crate::parse::parse_program;
use crate::span::Span;
use crate::validate::{diag, diags_model, validate, validate_spec, Diagnostic, DiagnosticLevel};

verus! {

/// The syntax tree of a document's text.
pub open spec fn document_ast(text: Seq<char>) -> NodeModel {
    let t = encode_utf8(text);
    lower_node(t, program(t))
}

/// Parse, lower and validate a text, and take its outline. The results are functions
/// of the text alone.
pub fn analyze(text: &str) -> (r: (ASTNode, Vec<Diagnostic>, Vec<TocEntry>))
    ensures
        r.0@ == document_ast(text@),
        diags_model(r.1@) == validate_spec(r.0@),
        toc_model(r.2@) == toc_spec(r.0@),
{
    let t = text.as_bytes();
    let tree = parse_program(t);
    let ast = lower(&tree, t);
    let diagnostics = validate(&ast);
    let toc = table_of_contents(&ast);
    (ast, diagnostics, toc)
}

/// Every node of a document's tree lies within its parent's span, and sibling spans follow
/// one another in document order without overlap; the root spans the whole text.
pub proof fn span_containment(text: Seq<char>)
    requires
        encode_utf8(text).len() <= usize::MAX,
    ensures
        spans_nested(document_ast(text)),
        document_ast(text).span == (Span { start: 0, end: encode_utf8(text).len() as usize }),
{
    let t = encode_utf8(text);
    lemma_program_wf(t);
    lemma_lower_nested(t, program(t));
}

/// Parsing the same text twice, with no edit between, gives structurally identical trees,
/// diagnostics and outlines: each is a function of the text alone.
pub proof fn reparse_is_identical(first: Seq<char>, second: Seq<char>)
    requires
        first == second,
    ensures
        document_ast(first) == document_ast(second),
        validate_spec(document_ast(first)) == validate_spec(document_ast(second)),
        toc_spec(document_ast(first)) == toc_spec(document_ast(second)),
{
}

/// The tree that stands for a document whose text could not be read.
pub open spec fn unread_ast() -> NodeModel {
    NodeModel { kind: KindModel::Statements(Seq::empty()), span: Span { start: 0, end: 0 } }
}

/// A point-in-time analysis of one document. Its tree, diagnostics and outline are
/// produced together from its text and never change.
#[derive(Debug)]
pub struct DocumentSnapshot {
    pub uri: String,
    pub text: String,
    pub ast: ASTNode,
    pub diagnostics: Vec<Diagnostic>,
    pub toc: Vec<TocEntry>,
    pub version: u64,
    pub last_touched: u64,
    /// Why the text could not be read, when it could not.
    pub read_error: Option<String>,
}

impl DocumentSnapshot {
    /// The tree, diagnostics and outline belong to one analysis of `text`; or, when the
    /// text could not be read, the tree is empty and the one diagnostic names the failure.
    pub open spec fn consistent(&self) -> bool {
        &&& toc_model(self.toc@) == toc_spec(self.ast@)
        &&& match self.read_error {
            None => {
                &&& self.ast@ == document_ast(self.text@)
                &&& diags_model(self.diagnostics@) == validate_spec(self.ast@)
            },
            Some(e) => {
                &&& self.text@ == Seq::<char>::empty()
                &&& self.ast@ == unread_ast()
                &&& diags_model(self.diagnostics@) == seq![
                    diag(DiagnosticLevel::Error, Span { start: 0, end: 0 }, e@),
                ]
            },
        }
    }

    /// The snapshot of a text.
    pub fn from_text(uri: String, text: String, version: u64, now: u64) -> (r: DocumentSnapshot)
        ensures
            r.consistent(),
            r.uri == uri,
            r.text == text,
            r.version == version,
            r.last_touched == now,
            r.read_error.is_none(),
    {
        let (ast, diagnostics, toc) = analyze(text.as_str());
        DocumentSnapshot { uri, text, ast, diagnostics, toc, version, last_touched: now, read_error: None }
    }

    /// The snapshot of a document whose text could not be read.
    pub fn unread(uri: String, reason: String, version: u64, now: u64) -> (r: DocumentSnapshot)
        ensures
            r.consistent(),
            r.uri == uri,
            r.text@ == Seq::<char>::empty(),
            r.version == version,
            r.last_touched == now,
            r.read_error == Some(reason),
    {
        let ast = ASTNode { kind: ASTKind::Statements(Vec::new()), span: Span { start: 0, end: 0 } };
        assert(ast@.kind == KindModel::Statements(nodes_model(Seq::<ASTNode>::empty())));
        assert(nodes_model(Seq::<ASTNode>::empty()) =~= Seq::<NodeModel>::empty());
        let toc = table_of_contents(&ast);
        let mut diagnostics: Vec<Diagnostic> = Vec::new();
        let message = reason.clone();
        diagnostics.push(
            Diagnostic {
                severity: DiagnosticLevel::Error,
                span: Span { start: 0, end: 0 },
                message,
                deprecated: false,
                unnecessary: false,
            },
        );
        assert(diags_model(diagnostics@) =~= seq![diag(DiagnosticLevel::Error, Span { start: 0, end: 0 }, reason@)]);
        DocumentSnapshot {
            uri,
            text: String::new(),
            ast,
            diagnostics,
            toc,
            version,
            last_touched: now,
            read_error: Some(reason),
        }
    }
}

} // verus!
