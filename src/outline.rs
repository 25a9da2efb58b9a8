use vstd::prelude::*;

use crate::ast::{lemma_nodes_model_index, node_model, nodes_model, ASTKind, ASTNode, KindModel, NodeModel};
use crate::span::Span;
use crate::text::str_eq;
use crate::validate::{plain_texts, plain_texts_x, push_char, push_str, slug_of, slugify};

verus! {

/// An entry of a document's outline: one heading.
#[derive(Debug, PartialEq, Eq)]
pub struct TocEntry {
    pub level: u8,
    pub title: String,
    /// The anchor, unique within the outline.
    pub slug: String,
    pub span: Span,
    /// The entry this one nests under: the nearest earlier entry of a lower level.
    pub parent: Option<usize>,
}

/// Model of an outline entry.
pub struct TocModel {
    pub level: u8,
    pub title: Seq<char>,
    pub slug: Seq<char>,
    pub span: Span,
    pub parent: Option<int>,
}

impl View for TocEntry {
    type V = TocModel;

    open spec fn view(&self) -> TocModel {
        TocModel {
            level: self.level,
            title: self.title@,
            slug: self.slug@,
            span: self.span,
            parent: match self.parent {
                Some(p) => Some(p as int),
                None => None,
            },
        }
    }
}

pub open spec fn toc_model(s: Seq<TocEntry>) -> Seq<TocModel> {
    Seq::new(s.len(), |i: int| s[i]@)
}

/// The decimal digits of `k`.
pub open spec fn decimal_str(k: nat) -> Seq<char>
    decreases k,
{
    if k < 10 {
        seq![((48 + k) as u8) as char]
    } else {
        decimal_str(k / 10).push(((48 + k % 10) as u8) as char)
    }
}

/// How many entries of `prev` have a title whose slug is `base`.
pub open spec fn count_base(prev: Seq<TocModel>, base: Seq<char>) -> nat
    decreases prev.len(),
{
    if prev.len() == 0 {
        0
    } else {
        count_base(prev.drop_last(), base) + if slug_of(prev.last().title) == base { 1nat } else { 0nat }
    }
}

/// The anchor of a heading after `prev`: its slug, with `-N` added when `N` earlier
/// headings have the same slug.
pub open spec fn unique_slug(prev: Seq<TocModel>, title: Seq<char>) -> Seq<char> {
    let base = slug_of(title);
    let n = count_base(prev, base);
    if n == 0 {
        base
    } else {
        base + "-"@ + decimal_str(n)
    }
}

/// The nearest entry of `prev` with a level below `level`.
pub open spec fn nearest_parent(prev: Seq<TocModel>, level: u8) -> Option<int>
    decreases prev.len(),
{
    if prev.len() == 0 {
        None
    } else if prev.last().level < level {
        Some(prev.len() - 1)
    } else {
        nearest_parent(prev.drop_last(), level)
    }
}

/// The entry of a heading that follows the entries `prev`.
pub open spec fn toc_entry(prev: Seq<TocModel>, level: u8, title: Seq<char>, span: Span) -> TocModel {
    TocModel { level, title, slug: unique_slug(prev, title), span, parent: nearest_parent(prev, level) }
}

/// The entries `prev`, followed by one entry for each heading in `n`, depth first in
/// document order.
pub open spec fn toc_node(prev: Seq<TocModel>, n: NodeModel) -> Seq<TocModel>
    decreases n,
{
    match n.kind {
        KindModel::Header { level, children } => toc_seq(
            prev.push(toc_entry(prev, level, plain_texts(children), n.span)),
            children,
        ),
        KindModel::Statements(c) => toc_seq(prev, c),
        KindModel::Paragraph(c) => toc_seq(prev, c),
        KindModel::List { first, items } => toc_seq(prev, items),
        KindModel::Style { kind, children } => toc_seq(prev, children),
        KindModel::Quote { style, body } => toc_seq(prev, body),
        KindModel::Command { name, arguments, body: Some(b) } => toc_seq(prev, b),
        _ => prev,
    }
}

pub open spec fn toc_seq(prev: Seq<TocModel>, s: Seq<NodeModel>) -> Seq<TocModel>
    decreases s,
{
    if s.len() == 0 {
        prev
    } else {
        toc_node(toc_seq(prev, s.drop_last()), s.last())
    }
}

/// The outline of a document: one entry per heading anywhere in its tree, in document order.
pub open spec fn toc_spec(ast: NodeModel) -> Seq<TocModel> {
    toc_node(Seq::empty(), ast)
}

// ------------------------------------------------------------------ executable

pub(crate) fn decimal_string(k: usize, out: &mut String)
    ensures
        final(out)@ == old(out)@ + decimal_str(k as nat),
    decreases k,
{
    if k < 10 {
        push_char(out, ((48 + k) as u8) as char);
        assert(old(out)@.push(((48 + k) as u8) as char) =~= old(out)@ + decimal_str(k as nat));
    } else {
        decimal_string(k / 10, out);
        push_char(out, ((48 + k % 10) as u8) as char);
        assert(final(out)@ =~= old(out)@ + decimal_str(k as nat));
    }
}

/// The outline being built, with the plain slug of each entry kept alongside.
struct OutlineBuilder {
    entries: Vec<TocEntry>,
    bases: Vec<String>,
}

impl OutlineBuilder {
    spec fn wf(&self) -> bool {
        &&& self.bases@.len() == self.entries@.len()
        &&& forall|i: int| 0 <= i < self.bases@.len() ==> #[trigger] self.bases@[i]@ == slug_of(self.entries@[i].title@)
    }

    fn count_base_x(&self, base: &String) -> (r: usize)
        requires
            self.wf(),
        ensures
            r == count_base(toc_model(self.entries@), base@),
    {
        let mut n: usize = 0;
        let mut i: usize = 0;
        assert(toc_model(self.entries@).subrange(0, 0) =~= Seq::<TocModel>::empty());
        while i < self.bases.len()
            invariant
                self.wf(),
                0 <= i <= self.bases@.len(),
                n <= i,
                n == count_base(toc_model(self.entries@).subrange(0, i as int), base@),
            decreases self.bases@.len() - i,
        {
            assert(toc_model(self.entries@).subrange(0, i + 1).drop_last() =~= toc_model(self.entries@).subrange(0, i as int));
            if str_eq(self.bases[i].as_str(), base.as_str()) {
                n += 1;
            }
            i += 1;
        }
        assert(toc_model(self.entries@).subrange(0, i as int) =~= toc_model(self.entries@));
        n
    }

    fn parent_x(&self, level: u8) -> (r: Option<usize>)
        ensures
            match r {
                Some(p) => nearest_parent(toc_model(self.entries@), level) == Some(p as int),
                None => nearest_parent(toc_model(self.entries@), level) == None::<int>,
            },
    {
        let mut i = self.entries.len();
        assert(toc_model(self.entries@).subrange(0, i as int) =~= toc_model(self.entries@));
        while i > 0
            invariant
                0 <= i <= self.entries@.len(),
                nearest_parent(toc_model(self.entries@), level) == nearest_parent(toc_model(self.entries@).subrange(0, i as int), level),
            decreases i,
        {
            assert(toc_model(self.entries@).subrange(0, i - 1) =~= toc_model(self.entries@).subrange(0, i as int).drop_last());
            if self.entries[i - 1].level < level {
                return Some(i - 1);
            }
            i -= 1;
        }
        None
    }

    fn add(&mut self, level: u8, title: String, span: Span)
        requires
            old(self).wf(),
        ensures
            final(self).wf(),
            toc_model(final(self).entries@) == toc_model(old(self).entries@).push(
                toc_entry(toc_model(old(self).entries@), level, title@, span),
            ),
    {
        let base = slugify(title.as_str());
        let n = self.count_base_x(&base);
        let parent = self.parent_x(level);
        let mut slug = String::new();
        push_str(&mut slug, base.as_str());
        if n > 0 {
            push_str(&mut slug, "-");
            decimal_string(n, &mut slug);
        }
        assert(slug@ =~= unique_slug(toc_model(self.entries@), title@));
        let ghost before = toc_model(self.entries@);
        self.entries.push(TocEntry { level, title, slug, span, parent });
        self.bases.push(base);
        assert(toc_model(self.entries@) =~= before.push(self.entries@.last()@));
    }
}

impl OutlineBuilder {
    fn walk(&mut self, n: &ASTNode)
        requires
            old(self).wf(),
        ensures
            final(self).wf(),
            toc_model(final(self).entries@) == toc_node(toc_model(old(self).entries@), n@),
        decreases n, 0int,
    {
        match &n.kind {
            ASTKind::Header(h) => {
                let mut title = String::new();
                plain_texts_x(&h.children, &mut title);
                assert(title@ =~= plain_texts(nodes_model(h.children@)));
                self.add(h.level, title, n.span);
                self.walk_seq(&h.children);
            },
            ASTKind::Statements(c) => self.walk_seq(c),
            ASTKind::Paragraph(c) => self.walk_seq(c),
            ASTKind::ListView(l) => self.walk_seq(&l.items),
            ASTKind::StyledSpan(st) => self.walk_seq(&st.children),
            ASTKind::Quote(q) => self.walk_seq(&q.body),
            ASTKind::Command(c) => match &c.body {
                Some(b) => self.walk_seq(b),
                None => {},
            },
            _ => {},
        }
    }

    fn walk_seq(&mut self, s: &Vec<ASTNode>)
        requires
            old(self).wf(),
        ensures
            final(self).wf(),
            toc_model(final(self).entries@) == toc_seq(toc_model(old(self).entries@), nodes_model(s@)),
        decreases s@, 1int,
    {
        proof {
            lemma_nodes_model_index(s@);
        }
        let ghost start = toc_model(self.entries@);
        let mut i: usize = 0;
        assert(nodes_model(s@).subrange(0, 0) =~= Seq::<NodeModel>::empty());
        while i < s.len()
            invariant
                self.wf(),
                0 <= i <= s@.len(),
                nodes_model(s@).len() == s@.len(),
                forall|k: int| 0 <= k < s@.len() ==> #[trigger] nodes_model(s@)[k] == node_model(s@[k]),
                toc_model(self.entries@) == toc_seq(start, nodes_model(s@).subrange(0, i as int)),
            decreases s@.len() - i,
        {
            assert(decreases_to!(s@ => s@[i as int]));
            self.walk(&s[i]);
            assert(nodes_model(s@).subrange(0, i + 1).drop_last() =~= nodes_model(s@).subrange(0, i as int));
            i += 1;
        }
        assert(nodes_model(s@).subrange(0, s@.len() as int) =~= nodes_model(s@));
    }
}

/// The outline of a document: one entry per heading anywhere in its tree, in document
/// order; each nests under the nearest earlier heading of a lower level.
pub fn table_of_contents(ast: &ASTNode) -> (r: Vec<TocEntry>)
    ensures
        toc_model(r@) == toc_spec(ast@),
{
    let mut b = OutlineBuilder { entries: Vec::new(), bases: Vec::new() };
    assert(toc_model(b.entries@) =~= Seq::<TocModel>::empty());
    b.walk(ast);
    b.entries
}

} // verus!
