use vstd::prelude::*;

use crate::ast::{lemma_nodes_model_index, node_model, nodes_model, ASTKind, ASTNode, KindModel, NodeModel};
use crate::text::owned;
use vstd::string::StringSliceAdditionalSpecFns;
use vstd::utf8::encode_utf8;

verus! {

/// The children of a node, in document order.
pub open spec fn child_nodes(n: NodeModel) -> Seq<NodeModel> {
    match n.kind {
        KindModel::Statements(c) => c,
        KindModel::Paragraph(c) => c,
        KindModel::Header { level, children } => children,
        KindModel::List { first, items } => items,
        KindModel::Style { kind, children } => children,
        KindModel::Quote { style, body } => body,
        KindModel::Command { name, arguments, body: Some(b) } => b,
        _ => Seq::empty(),
    }
}

/// The index of the first of `c[i..]` whose span touches `offset`, or -1.
pub open spec fn first_touching(c: Seq<NodeModel>, offset: int, i: int) -> int
    decreases c.len() - i,
{
    if i < 0 || i >= c.len() {
        -1
    } else if c[i].span.touches(offset) {
        i
    } else {
        first_touching(c, offset, i + 1)
    }
}

pub proof fn lemma_first_touching(c: Seq<NodeModel>, offset: int, i: int)
    requires
        0 <= i,
    ensures
        first_touching(c, offset, i) == -1 || (i <= first_touching(c, offset, i) < c.len()),
    decreases c.len() - i,
{
    if i < c.len() && !c[i].span.touches(offset) {
        lemma_first_touching(c, offset, i + 1);
    }
}

pub proof fn lemma_child_decreases(n: NodeModel, i: int)
    requires
        0 <= i < child_nodes(n).len(),
    ensures
        decreases_to!(n => child_nodes(n)[i]),
{
    match n.kind {
        KindModel::Statements(c) => assert(decreases_to!(n => c[i])),
        KindModel::Paragraph(c) => assert(decreases_to!(n => c[i])),
        KindModel::Header { level, children } => assert(decreases_to!(n => children[i])),
        KindModel::List { first, items } => assert(decreases_to!(n => items[i])),
        KindModel::Style { kind, children } => assert(decreases_to!(n => children[i])),
        KindModel::Quote { style, body } => assert(decreases_to!(n => body[i])),
        KindModel::Command { name, arguments, body } => {
            let b = body->0;
            assert(decreases_to!(n => b[i]));
        },
        _ => {},
    }
}

/// The path, as child indices, from `n` down to the innermost node whose span touches
/// `offset`, choosing at each level the first child that touches it.
pub open spec fn path_to(n: NodeModel, offset: int) -> Seq<int>
    decreases n,
{
    let c = child_nodes(n);
    let i = first_touching(c, offset, 0);
    if 0 <= i < c.len() {
        proof {
            lemma_child_decreases(n, i);
        }
        seq![i] + path_to(c[i], offset)
    } else {
        Seq::empty()
    }
}

/// The node at the end of `path_to`.
pub open spec fn innermost(n: NodeModel, offset: int) -> NodeModel
    decreases n,
{
    let c = child_nodes(n);
    let i = first_touching(c, offset, 0);
    if 0 <= i < c.len() {
        proof {
            lemma_child_decreases(n, i);
        }
        innermost(c[i], offset)
    } else {
        n
    }
}

/// What kind of completion suits a cursor position.
#[derive(Clone, Copy, Debug, PartialEq, Eq, Structural, Hash)]
pub enum CompletionClass {
    /// Inside a command: command names.
    CommandName,
    /// Inside a formula: math snippets.
    MathSnippet,
    /// Inside plain text: style markers.
    StyleMarker,
    /// Nothing to offer.
    Nothing,
}

/// The class of candidates for a cursor at `offset` in the node `n`: command names while
/// the cursor is on the backslash or the name of a command.
pub open spec fn class_of(n: NodeModel, offset: int) -> CompletionClass {
    match n.kind {
        KindModel::Command { name, .. } => if offset <= n.span.start + 1 + encode_utf8(name).len() {
            CompletionClass::CommandName
        } else {
            CompletionClass::Nothing
        },
        KindModel::Math { .. } => CompletionClass::MathSnippet,
        KindModel::Text(_) => CompletionClass::StyleMarker,
        _ => CompletionClass::Nothing,
    }
}

/// The candidates of each class.
pub open spec fn candidates_of(c: CompletionClass) -> Seq<Seq<char>> {
    match c {
        CompletionClass::CommandName => seq![
            "title"@, "author"@, "date"@, "toc"@, "include"@, "image"@, "link"@, "color"@, "code"@, "math"@,
        ],
        CompletionClass::MathSnippet => seq!["\\frac{}{}"@, "\\sqrt{}"@, "\\sum"@, "\\int"@, "^{}"@, "_{}"@],
        CompletionClass::StyleMarker => seq!["*"@, "**"@, "***"@, "~"@, "~~"@, "~~~"@],
        CompletionClass::Nothing => Seq::empty(),
    }
}

// ------------------------------------------------------------------ executable

fn children_x(n: &ASTNode) -> (r: Option<&Vec<ASTNode>>)
    ensures
        match r {
            Some(c) => nodes_model(c@) == child_nodes(n@),
            None => child_nodes(n@) == Seq::<NodeModel>::empty(),
        },
{
    match &n.kind {
        ASTKind::Statements(c) => Some(c),
        ASTKind::Paragraph(c) => Some(c),
        ASTKind::Header(h) => Some(&h.children),
        ASTKind::ListView(l) => Some(&l.items),
        ASTKind::StyledSpan(s) => Some(&s.children),
        ASTKind::Quote(q) => Some(&q.body),
        ASTKind::Command(c) => match &c.body {
            Some(b) => Some(b),
            None => None,
        },
        _ => None,
    }
}

fn first_touching_x(c: &Vec<ASTNode>, offset: usize) -> (r: Option<usize>)
    ensures
        match r {
            Some(i) => first_touching(nodes_model(c@), offset as int, 0) == i && i < c@.len(),
            None => first_touching(nodes_model(c@), offset as int, 0) == -1,
        },
{
    proof {
        lemma_nodes_model_index(c@);
    }
    let mut i: usize = 0;
    while i < c.len()
        invariant
            0 <= i <= c@.len(),
            nodes_model(c@).len() == c@.len(),
            forall|k: int| 0 <= k < c@.len() ==> #[trigger] nodes_model(c@)[k] == node_model(c@[k]),
            first_touching(nodes_model(c@), offset as int, 0) == first_touching(nodes_model(c@), offset as int, i as int),
        decreases c@.len() - i,
    {
        if c[i].span.start <= offset && offset <= c[i].span.end {
            return Some(i);
        }
        i += 1;
    }
    None
}

/// The innermost node whose span touches `offset`: at each level the first child that
/// touches it, so that of two adjacent spans the earlier one wins.
pub fn node_at_offset(ast: &ASTNode, offset: usize) -> (r: &ASTNode)
    ensures
        r@ == innermost(ast@, offset as int),
    decreases ast@,
{
    match children_x(ast) {
        Some(c) => match first_touching_x(c, offset) {
            Some(i) => {
                proof {
                    lemma_nodes_model_index(c@);
                    lemma_child_decreases(ast@, i as int);
                }
                node_at_offset(&c[i], offset)
            },
            None => ast,
        },
        None => ast,
    }
}

/// The path of child indices from the root to `node_at_offset`.
pub fn path_at_offset(ast: &ASTNode, offset: usize) -> (r: Vec<usize>)
    ensures
        r@.len() == path_to(ast@, offset as int).len(),
        forall|k: int| 0 <= k < r@.len() ==> r@[k] as int == #[trigger] path_to(ast@, offset as int)[k],
    decreases ast@,
{
    match children_x(ast) {
        Some(c) => match first_touching_x(c, offset) {
            Some(i) => {
                proof {
                    lemma_nodes_model_index(c@);
                    lemma_child_decreases(ast@, i as int);
                }
                let rest = path_at_offset(&c[i], offset);
                let ghost want = path_to(ast@, offset as int);
                assert(want == seq![i as int] + path_to(c@[i as int]@, offset as int));
                let mut r: Vec<usize> = Vec::new();
                r.push(i);
                let mut k: usize = 0;
                while k < rest.len()
                    invariant
                        0 <= k <= rest@.len(),
                        r@.len() == k + 1,
                        r@[0] == i,
                        forall|j: int| 0 <= j < k ==> r@[j + 1] == rest@[j],
                    decreases rest@.len() - k,
                {
                    r.push(rest[k]);
                    k += 1;
                }
                assert forall|j: int| 0 <= j < r@.len() implies r@[j] as int == #[trigger] want[j] by {
                    if j > 0 {
                        assert(r@[j] == rest@[j - 1]);
                    }
                }
                r
            },
            None => Vec::new(),
        },
        None => Vec::new(),
    }
}

/// The class of completion candidates at `offset`, from the innermost node there.
pub fn completion_class(ast: &ASTNode, offset: usize) -> (r: CompletionClass)
    ensures
        r == class_of(innermost(ast@, offset as int), offset as int),
{
    let n = node_at_offset(ast, offset);
    match &n.kind {
        ASTKind::Command(c) => {
            let name_len = c.name.as_str().as_bytes().len();
            if offset <= n.span.start || offset - n.span.start <= 1 || offset - n.span.start - 1 <= name_len {
                CompletionClass::CommandName
            } else {
                CompletionClass::Nothing
            }
        },
        ASTKind::MathNode(_) => CompletionClass::MathSnippet,
        ASTKind::TextSpan(_) => CompletionClass::StyleMarker,
        _ => CompletionClass::Nothing,
    }
}

/// The completion candidates at `offset`, as an unordered set.
pub fn completion_candidates(ast: &ASTNode, offset: usize) -> (r: Vec<String>)
    ensures
        r@.len() == candidates_of(class_of(innermost(ast@, offset as int), offset as int)).len(),
        forall|k: int| 0 <= k < r@.len() ==> #[trigger] r@[k]@ == candidates_of(class_of(innermost(ast@, offset as int), offset as int))[k],
{
    let class = completion_class(ast, offset);
    let words: Vec<&str> = match class {
        CompletionClass::CommandName => vec![
            "title", "author", "date", "toc", "include", "image", "link", "color", "code", "math",
        ],
        CompletionClass::MathSnippet => vec!["\\frac{}{}", "\\sqrt{}", "\\sum", "\\int", "^{}", "_{}"],
        CompletionClass::StyleMarker => vec!["*", "**", "***", "~", "~~", "~~~"],
        CompletionClass::Nothing => Vec::new(),
    };
    let ghost want = candidates_of(class);
    assert(words@.len() == want.len());
    let mut r: Vec<String> = Vec::new();
    let mut k: usize = 0;
    while k < words.len()
        invariant
            0 <= k <= words@.len(),
            words@.len() == want.len(),
            forall|j: int| 0 <= j < words@.len() ==> #[trigger] words@[j]@ == want[j],
            r@.len() == k,
            forall|j: int| 0 <= j < k ==> #[trigger] r@[j]@ == want[j],
        decreases words@.len() - k,
    {
        r.push(owned(words[k]));
        k += 1;
    }
    r
}

} // verus!
