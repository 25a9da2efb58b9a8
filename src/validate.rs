use vstd::prelude::*;

use crate::ast::{
    lemma_nodes_model_index, node_model, nodes_model, ASTKind, ASTNode, KindModel, NodeModel,
    TextKind, TextModel,
};
use crate::span::Span;
use crate::text::{owned, str_eq};
use vstd::string::StringExecFns;

verus! {

/// How serious a diagnostic is.
#[derive(Clone, Copy, Debug, PartialEq, Eq, Structural, Hash)]
pub enum DiagnosticLevel {
    /// No particular level.
    Unspecified,
    /// Something is wrong.
    Error,
    /// Something is likely wrong.
    Warning,
    /// Worth knowing.
    Information,
    /// A suggestion.
    Hint,
}

/// A finding about a document, anchored at a span of its text.
#[derive(Debug, PartialEq, Eq)]
pub struct Diagnostic {
    pub severity: DiagnosticLevel,
    pub span: Span,
    pub message: String,
    pub deprecated: bool,
    pub unnecessary: bool,
}

/// Model of a diagnostic.
pub struct DiagnosticModel {
    pub severity: DiagnosticLevel,
    pub span: Span,
    pub message: Seq<char>,
    pub deprecated: bool,
    pub unnecessary: bool,
}

impl View for Diagnostic {
    type V = DiagnosticModel;

    open spec fn view(&self) -> DiagnosticModel {
        DiagnosticModel {
            severity: self.severity,
            span: self.span,
            message: self.message@,
            deprecated: self.deprecated,
            unnecessary: self.unnecessary,
        }
    }
}

pub const UNKNOWN_COMMAND: &'static str = "unknown command";
pub const SKIPPED_LEVEL: &'static str = "heading skips a level";
pub const DUPLICATE_ANCHOR: &'static str = "duplicate heading anchor";

/// The anchor that a heading text gets: lower case, punctuation dropped, words joined
/// by `-`.
pub uninterp spec fn slug_of(s: Seq<char>) -> Seq<char>;

/// Relies on `text_utils::slugify` (the `slugify` crate's function, called with no
/// stop words, separator `-` and no length limit): the slug depends on the text alone.
#[verifier::external_body]
pub(crate) fn slugify(s: &str) -> (r: String)
    ensures
        r@ == slug_of(s@),
{
    text_utils::slugify(s, "", "-", None)
}

/// The commands that documents may use without a warning.
pub open spec fn is_known_command(name: Seq<char>) -> bool {
    name == "title"@ || name == "author"@ || name == "date"@ || name == "toc"@ || name
        == "include"@ || name == "image"@ || name == "link"@ || name == "color"@ || name
        == "code"@ || name == "math"@
}

/// The plain text of a node: what a reader sees, without markup.
pub open spec fn plain_text(n: NodeModel) -> Seq<char>
    decreases n,
{
    match n.kind {
        KindModel::Text(TextModel::Normal(s)) => s,
        KindModel::Text(TextModel::Raw(s)) => s,
        KindModel::Text(TextModel::Escaped(c)) => seq![c],
        KindModel::Text(TextModel::Emoji(c)) => seq![c],
        KindModel::Text(TextModel::SoftBreak) => " "@,
        KindModel::Text(TextModel::HardBreak) => " "@,
        KindModel::Style { kind, children } => plain_texts(children),
        KindModel::Math { style, source } => source,
        KindModel::Link { target, label } => match label {
            Some(l) => l,
            None => target,
        },
        _ => Seq::empty(),
    }
}

pub open spec fn plain_texts(s: Seq<NodeModel>) -> Seq<char>
    decreases s,
{
    if s.len() == 0 {
        Seq::empty()
    } else {
        plain_texts(s.drop_last()) + plain_text(s.last())
    }
}

/// What the validator carries along the document.
pub struct ScanState {
    /// Level of the last heading seen.
    pub last_level: Option<u8>,
    /// Anchors of the headings seen.
    pub anchors: Seq<Seq<char>>,
    /// The diagnostics so far, in document order.
    pub found: Seq<DiagnosticModel>,
}

pub open spec fn diag(severity: DiagnosticLevel, span: Span, message: Seq<char>) -> DiagnosticModel {
    DiagnosticModel { severity, span, message, deprecated: false, unnecessary: false }
}

/// The state after a heading of `level` with text `text` at `span`.
pub open spec fn scan_heading(st: ScanState, level: u8, text: Seq<char>, span: Span) -> ScanState {
    let slug = slug_of(text);
    let found1 = match st.last_level {
        Some(p) if level > p + 1 => st.found.push(diag(DiagnosticLevel::Information, span, SKIPPED_LEVEL@)),
        _ => st.found,
    };
    let dup = slug.len() > 0 && st.anchors.contains(slug);
    let found2 = if dup {
        found1.push(diag(DiagnosticLevel::Warning, span, DUPLICATE_ANCHOR@))
    } else {
        found1
    };
    ScanState {
        last_level: Some(level),
        anchors: if slug.len() > 0 { st.anchors.push(slug) } else { st.anchors },
        found: found2,
    }
}

/// The validator's walk over a node, in document order.
pub open spec fn scan_node(st: ScanState, n: NodeModel) -> ScanState
    decreases n,
{
    match n.kind {
        KindModel::Error { message, recovered } => ScanState {
            found: st.found.push(diag(DiagnosticLevel::Error, n.span, message)),
            ..st
        },
        KindModel::Command { name, arguments, body } => {
            let st1 = if is_known_command(name) {
                st
            } else {
                ScanState {
                    found: st.found.push(diag(DiagnosticLevel::Warning, n.span, UNKNOWN_COMMAND@)),
                    ..st
                }
            };
            match body {
                Some(b) => scan_seq(st1, b),
                None => st1,
            }
        },
        KindModel::Header { level, children } => scan_seq(
            scan_heading(st, level, plain_texts(children), n.span),
            children,
        ),
        KindModel::Statements(c) => scan_seq(st, c),
        KindModel::Paragraph(c) => scan_seq(st, c),
        KindModel::List { first, items } => scan_seq(st, items),
        KindModel::Style { kind, children } => scan_seq(st, children),
        KindModel::Quote { style, body } => scan_seq(st, body),
        _ => st,
    }
}

pub open spec fn scan_seq(st: ScanState, s: Seq<NodeModel>) -> ScanState
    decreases s,
{
    if s.len() == 0 {
        st
    } else {
        scan_node(scan_seq(st, s.drop_last()), s.last())
    }
}

/// The diagnostics of a syntax tree, in document order.
pub open spec fn validate_spec(ast: NodeModel) -> Seq<DiagnosticModel> {
    scan_node(ScanState { last_level: None, anchors: Seq::empty(), found: Seq::empty() }, ast).found
}

// ------------------------------------------------------------------ executable

/// Relies on `String::push`: the character is appended.
#[verifier::external_body]
pub(crate) fn push_char(s: &mut String, c: char)
    ensures
        final(s)@ == old(s)@.push(c),
{
    s.push(c)
}

pub(crate) fn push_str(s: &mut String, more: &str)
    ensures
        final(s)@ == old(s)@ + more@,
{
    s.append(more);
}

/// Append the plain text of `n` to `out`.
fn plain_text_x(n: &ASTNode, out: &mut String)
    ensures
        final(out)@ == old(out)@ + plain_text(n@),
    decreases n, 0int,
{
    match &n.kind {
        ASTKind::TextSpan(TextKind::Normal(s)) => push_str(out, s.as_str()),
        ASTKind::TextSpan(TextKind::HTMLRawInline(s)) => push_str(out, s.as_str()),
        ASTKind::TextSpan(TextKind::Escaped(c)) => {
            push_char(out, *c);
            assert(Seq::<char>::empty().push(*c) =~= seq![*c]);
        },
        ASTKind::TextSpan(TextKind::Emoji(c)) => {
            push_char(out, *c);
            assert(Seq::<char>::empty().push(*c) =~= seq![*c]);
        },
        ASTKind::TextSpan(TextKind::SoftNewline) => push_str(out, " "),
        ASTKind::TextSpan(TextKind::HardNewline) => push_str(out, " "),
        ASTKind::StyledSpan(st) => plain_texts_x(&st.children, out),
        ASTKind::MathNode(m) => push_str(out, m.math.as_str()),
        ASTKind::LinkNode(l) => match &l.label {
            Some(x) => push_str(out, x.as_str()),
            None => push_str(out, l.target.as_str()),
        },
        _ => {
            assert(old(out)@ + Seq::<char>::empty() =~= old(out)@);
        },
    }
}

/// Append the plain text of each node of `s` to `out`.
pub(crate) fn plain_texts_x(s: &Vec<ASTNode>, out: &mut String)
    ensures
        final(out)@ == old(out)@ + plain_texts(nodes_model(s@)),
    decreases s@, 1int,
{
    proof {
        lemma_nodes_model_index(s@);
    }
    let mut i: usize = 0;
    let ghost start = out@;
    assert(nodes_model(s@).subrange(0, 0) =~= Seq::<NodeModel>::empty());
    while i < s.len()
        invariant
            0 <= i <= s@.len(),
            nodes_model(s@).len() == s@.len(),
            forall|k: int| 0 <= k < s@.len() ==> #[trigger] nodes_model(s@)[k] == node_model(s@[k]),
            out@ == start + plain_texts(nodes_model(s@).subrange(0, i as int)),
        decreases s@.len() - i,
    {
        assert(decreases_to!(s@ => s@[i as int]));
        plain_text_x(&s[i], out);
        assert(nodes_model(s@).subrange(0, i + 1).drop_last() =~= nodes_model(s@).subrange(0, i as int));
        assert(out@ =~= start + plain_texts(nodes_model(s@).subrange(0, i + 1)));
        i += 1;
    }
    assert(nodes_model(s@).subrange(0, s@.len() as int) =~= nodes_model(s@));
}

/// The validator's state while it walks a tree.
pub struct Scanner {
    pub last_level: Option<u8>,
    pub anchors: Vec<String>,
    pub found: Vec<Diagnostic>,
}

pub open spec fn diags_model(s: Seq<Diagnostic>) -> Seq<DiagnosticModel> {
    Seq::new(s.len(), |i: int| s[i]@)
}

impl View for Scanner {
    type V = ScanState;

    open spec fn view(&self) -> ScanState {
        ScanState {
            last_level: self.last_level,
            anchors: Seq::new(self.anchors@.len(), |i: int| self.anchors@[i]@),
            found: diags_model(self.found@),
        }
    }
}

impl Scanner {
    fn report(&mut self, severity: DiagnosticLevel, span: Span, message: String)
        ensures
            final(self)@ == (ScanState {
                found: old(self)@.found.push(diag(severity, span, message@)),
                ..old(self)@
            }),
    {
        self.found.push(Diagnostic { severity, span, message, deprecated: false, unnecessary: false });
        assert(final(self)@.found =~= old(self)@.found.push(diag(severity, span, message@)));
        assert(final(self)@.anchors =~= old(self)@.anchors);
    }

    fn has_anchor(&self, slug: &String) -> (r: bool)
        ensures
            r == self@.anchors.contains(slug@),
    {
        let mut i: usize = 0;
        while i < self.anchors.len()
            invariant
                0 <= i <= self.anchors@.len(),
                forall|k: int| 0 <= k < i ==> self.anchors@[k]@ != slug@,
            decreases self.anchors@.len() - i,
        {
            if str_eq(self.anchors[i].as_str(), slug.as_str()) {
                assert(self@.anchors[i as int] == slug@);
                return true;
            }
            i += 1;
        }
        assert(!self@.anchors.contains(slug@)) by {
            if self@.anchors.contains(slug@) {
                let k = choose|k: int| 0 <= k < self@.anchors.len() && self@.anchors[k] == slug@;
                assert(self.anchors@[k]@ == slug@);
            }
        }
        false
    }

    fn heading(&mut self, level: u8, text: &String, span: Span)
        ensures
            final(self)@ == scan_heading(old(self)@, level, text@, span),
    {
        let slug = slugify(text.as_str());
        match self.last_level {
            Some(p) => {
                if level as u16 > p as u16 + 1 {
                    self.report(DiagnosticLevel::Information, span, owned(SKIPPED_LEVEL));
                }
            },
            None => {},
        }
        let empty = slug.as_str().is_empty();
        if !empty && self.has_anchor(&slug) {
            self.report(DiagnosticLevel::Warning, span, owned(DUPLICATE_ANCHOR));
        }
        self.last_level = Some(level);
        if !empty {
            let ghost before = self@.anchors;
            self.anchors.push(slug);
            assert(self@.anchors =~= before.push(slug_of(text@)));
        }
    }

    /// Walk a node.
    fn scan_node_x(&mut self, n: &ASTNode)
        ensures
            final(self)@ == scan_node(old(self)@, n@),
        decreases n, 0int,
    {
        match &n.kind {
            ASTKind::Error(e) => {
                self.report(DiagnosticLevel::Error, n.span, owned(e.message.as_str()));
            },
            ASTKind::Command(c) => {
                if !known_command(c.name.as_str()) {
                    self.report(DiagnosticLevel::Warning, n.span, owned(UNKNOWN_COMMAND));
                }
                match &c.body {
                    Some(b) => self.scan_seq_x(b),
                    None => {},
                }
            },
            ASTKind::Header(h) => {
                let mut text = String::new();
                plain_texts_x(&h.children, &mut text);
                assert(text@ =~= plain_texts(nodes_model(h.children@)));
                self.heading(h.level, &text, n.span);
                self.scan_seq_x(&h.children);
            },
            ASTKind::Statements(c) => self.scan_seq_x(c),
            ASTKind::Paragraph(c) => self.scan_seq_x(c),
            ASTKind::ListView(l) => self.scan_seq_x(&l.items),
            ASTKind::StyledSpan(st) => self.scan_seq_x(&st.children),
            ASTKind::Quote(q) => self.scan_seq_x(&q.body),
            _ => {},
        }
    }

    /// Walk the nodes of `s` in order.
    fn scan_seq_x(&mut self, s: &Vec<ASTNode>)
        ensures
            final(self)@ == scan_seq(old(self)@, nodes_model(s@)),
        decreases s@, 1int,
    {
        proof {
            lemma_nodes_model_index(s@);
        }
        let mut i: usize = 0;
        let ghost start = self@;
        assert(nodes_model(s@).subrange(0, 0) =~= Seq::<NodeModel>::empty());
        while i < s.len()
            invariant
                0 <= i <= s@.len(),
                nodes_model(s@).len() == s@.len(),
                forall|k: int| 0 <= k < s@.len() ==> #[trigger] nodes_model(s@)[k] == node_model(s@[k]),
                self@ == scan_seq(start, nodes_model(s@).subrange(0, i as int)),
            decreases s@.len() - i,
        {
            assert(decreases_to!(s@ => s@[i as int]));
            self.scan_node_x(&s[i]);
            assert(nodes_model(s@).subrange(0, i + 1).drop_last() =~= nodes_model(s@).subrange(0, i as int));
            i += 1;
        }
        assert(nodes_model(s@).subrange(0, s@.len() as int) =~= nodes_model(s@));
    }
}

fn known_command(name: &str) -> (r: bool)
    ensures
        r == is_known_command(name@),
{
    str_eq(name, "title") || str_eq(name, "author") || str_eq(name, "date") || str_eq(name, "toc")
        || str_eq(name, "include") || str_eq(name, "image") || str_eq(name, "link") || str_eq(
        name,
        "color",
    ) || str_eq(name, "code") || str_eq(name, "math")
}

/// Validate a syntax tree: one diagnostic for each error node, unknown command,
/// skipped heading level and repeated heading anchor, in document order. The tree is
/// only read.
pub fn validate(ast: &ASTNode) -> (r: Vec<Diagnostic>)
    ensures
        diags_model(r@) == validate_spec(ast@),
{
    let mut scanner = Scanner { last_level: None, anchors: Vec::new(), found: Vec::new() };
    assert(scanner@.anchors =~= Seq::<Seq<char>>::empty());
    assert(scanner@.found =~= Seq::<DiagnosticModel>::empty());
    scanner.scan_node_x(ast);
    scanner.found
}

} // verus!
