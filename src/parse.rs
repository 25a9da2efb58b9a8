use vstd::prelude::*;

use crate::grammar::{
    LBRACKET, RBRACKET, LPAREN, RPAREN,
    block_node, blocks, program, lemma_fence_close, lemma_group_end, lemma_block_end,
    item_marker_end, line_kind, lemma_nonblank, LineKind, lemma_line_end, lemma_digits, next_line, fence_close, group_end, cell, cells, trimmed_inlines, group_line, group_lines, HASH, DASH, PLUS, DOT, BACKTICK, GT, PIPE, COLON,
    inline_next, inline_node, inlines, lemma_inline_next, lemma_letters, lemma_run,
    BACKSLASH, CR, DOLLAR, NEWLINE, RuleTag, SPACE, STAR, TAB, TILDE, TreeModel, after, blank_from, digits, find_byte, find_run, is_digit, is_letter, is_space, leaf, letters, line_end, min, run, skip_spaces, text_end, trim_end, utf8_width,
};
use crate::span::Span;
use vstd::string::StringSliceAdditionalSpecFns;

verus! {

/// A node of the concrete parse tree: the rule that matched, its byte range and
/// its sub-matches in document order.
#[derive(Debug)]
pub struct ParseTree {
    pub rule: RuleTag,
    pub span: Span,
    pub children: Vec<ParseTree>,
}

pub open spec fn tree_model(n: ParseTree) -> TreeModel
    decreases n, 1int,
{
    TreeModel {
        rule: n.rule,
        start: n.span.start as int,
        end: n.span.end as int,
        children: trees_model(n.children@),
    }
}

pub open spec fn trees_model(s: Seq<ParseTree>) -> Seq<TreeModel>
    decreases s, 2int,
{
    if s.len() == 0 {
        Seq::empty()
    } else {
        trees_model(s.drop_last()).push(tree_model(s.last()))
    }
}

impl View for ParseTree {
    type V = TreeModel;

    open spec fn view(&self) -> TreeModel {
        tree_model(*self)
    }
}

pub proof fn lemma_trees_model_concat(a: Seq<ParseTree>, b: Seq<ParseTree>)
    ensures
        trees_model(a + b) == trees_model(a) + trees_model(b),
    decreases b.len(),
{
    if b.len() == 0 {
        assert(a + b =~= a);
        assert(trees_model(a) + trees_model(b) =~= trees_model(a));
    } else {
        lemma_trees_model_concat(a, b.drop_last());
        assert((a + b).drop_last() =~= a + b.drop_last());
        assert(trees_model(a) + trees_model(b) =~= (trees_model(a) + trees_model(b.drop_last())).push(
            tree_model(b.last()),
        ));
    }
}

pub proof fn lemma_trees_model_push(a: Seq<ParseTree>, x: ParseTree)
    ensures
        trees_model(a.push(x)) == trees_model(a).push(tree_model(x)),
{
    assert(a.push(x).drop_last() =~= a);
}

pub proof fn lemma_trees_model_index(s: Seq<ParseTree>)
    ensures
        trees_model(s).len() == s.len(),
        forall|i: int| 0 <= i < s.len() ==> #[trigger] trees_model(s)[i] == tree_model(s[i]),
    decreases s.len(),
{
    if s.len() > 0 {
        lemma_trees_model_index(s.drop_last());
    }
}

/// Append `more` to `out`, keeping the models in step.
fn append_trees(out: &mut Vec<ParseTree>, more: Vec<ParseTree>)
    ensures
        trees_model(final(out)@) == trees_model(old(out)@) + trees_model(more@),
{
    let mut more = more;
    proof {
        lemma_trees_model_concat(out@, more@);
    }
    out.append(&mut more);
}

fn leaf_x(rule: RuleTag, start: usize, end: usize) -> (r: ParseTree)
    ensures
        r@ == leaf(rule, start as int, end as int),
{
    let r = ParseTree { rule, span: Span { start, end }, children: Vec::new() };
    assert(r.children@ =~= Seq::<ParseTree>::empty());
    r
}

fn one(x: ParseTree) -> (r: Vec<ParseTree>)
    ensures
        trees_model(r@) == seq![tree_model(x)],
{
    let mut r = Vec::new();
    r.push(x);
    proof {
        lemma_trees_model_push(Seq::empty(), x);
        assert(Seq::<ParseTree>::empty().push(x) =~= r@);
    }
    r
}

pub(crate) fn line_end_x(t: &[u8], p: usize) -> (r: usize)
    requires
        p <= t@.len(),
    ensures
        r == line_end(t@, p as int),
        p <= r <= t@.len(),
{
    let mut i = p;
    while i < t.len() && t[i] != NEWLINE
        invariant
            p <= i <= t@.len(),
            line_end(t@, i as int) == line_end(t@, p as int),
        decreases t@.len() - i,
    {
        i += 1;
    }
    i
}

fn after_x(t: &[u8], e: usize) -> (r: usize)
    requires
        e <= t@.len(),
    ensures
        r == after(t@, e as int),
{
    if e < t.len() {
        e + 1
    } else {
        e
    }
}

pub(crate) fn run_x(t: &[u8], p: usize, e: usize, c: u8) -> (r: usize)
    requires
        p <= e <= t@.len(),
    ensures
        r == run(t@, p as int, e as int, c),
{
    let mut i = p;
    while i < e && t[i] == c
        invariant
            p <= i <= e,
            e <= t@.len(),
            run(t@, p as int, e as int, c) == (i - p) + run(t@, i as int, e as int, c),
        decreases e - i,
    {
        i += 1;
    }
    i - p
}

fn is_letter_x(b: u8) -> (r: bool)
    ensures
        r == is_letter(b),
{
    (65u8 <= b && b <= 90u8) || (97u8 <= b && b <= 122u8)
}

fn is_digit_x(b: u8) -> (r: bool)
    ensures
        r == is_digit(b),
{
    48u8 <= b && b <= 57u8
}

fn is_space_x(b: u8) -> (r: bool)
    ensures
        r == is_space(b),
{
    b == SPACE || b == TAB || b == CR
}

fn letters_x(t: &[u8], p: usize, e: usize) -> (r: usize)
    requires
        p <= e <= t@.len(),
    ensures
        r == letters(t@, p as int, e as int),
{
    let mut i = p;
    while i < e && is_letter_x(t[i])
        invariant
            p <= i <= e,
            e <= t@.len(),
            letters(t@, p as int, e as int) == (i - p) + letters(t@, i as int, e as int),
        decreases e - i,
    {
        i += 1;
    }
    i - p
}

pub(crate) fn digits_x(t: &[u8], p: usize, e: usize) -> (r: usize)
    requires
        p <= e <= t@.len(),
    ensures
        r == digits(t@, p as int, e as int),
{
    let mut i = p;
    while i < e && is_digit_x(t[i])
        invariant
            p <= i <= e,
            e <= t@.len(),
            digits(t@, p as int, e as int) == (i - p) + digits(t@, i as int, e as int),
        decreases e - i,
    {
        i += 1;
    }
    i - p
}

pub(crate) fn blank_from_x(t: &[u8], p: usize, e: usize) -> (r: bool)
    requires
        p <= e <= t@.len(),
    ensures
        r == blank_from(t@, p as int, e as int),
{
    let mut i = p;
    while i < e && is_space_x(t[i])
        invariant
            p <= i <= e,
            e <= t@.len(),
            blank_from(t@, p as int, e as int) == blank_from(t@, i as int, e as int),
        decreases e - i,
    {
        i += 1;
    }
    i >= e
}

pub(crate) fn skip_spaces_x(t: &[u8], p: usize, e: usize) -> (r: usize)
    requires
        p <= e <= t@.len(),
    ensures
        r == skip_spaces(t@, p as int, e as int),
        p <= r <= e,
{
    let mut i = p;
    while i < e && is_space_x(t[i])
        invariant
            p <= i <= e,
            e <= t@.len(),
            skip_spaces(t@, p as int, e as int) == skip_spaces(t@, i as int, e as int),
        decreases e - i,
    {
        i += 1;
    }
    i
}

pub(crate) fn trim_end_x(t: &[u8], s: usize, e: usize) -> (r: usize)
    requires
        s <= e <= t@.len(),
    ensures
        r == trim_end(t@, s as int, e as int),
        s <= r <= e,
{
    let mut i = e;
    while i > s && is_space_x(t[i - 1])
        invariant
            s <= i <= e,
            e <= t@.len(),
            trim_end(t@, s as int, e as int) == trim_end(t@, s as int, i as int),
        decreases i - s,
    {
        i -= 1;
    }
    i
}

pub(crate) fn find_byte_x(t: &[u8], p: usize, e: usize, c: u8) -> (r: usize)
    requires
        p <= e <= t@.len(),
    ensures
        r == find_byte(t@, p as int, e as int, c),
        p <= r <= e,
{
    let mut i = p;
    while i < e && t[i] != c
        invariant
            p <= i <= e,
            e <= t@.len(),
            find_byte(t@, p as int, e as int, c) == find_byte(t@, i as int, e as int, c),
        decreases e - i,
    {
        i += 1;
    }
    i
}

fn find_run_x(t: &[u8], p: usize, e: usize, c: u8, n: usize) -> (r: usize)
    requires
        p <= e <= t@.len(),
    ensures
        r == find_run(t@, p as int, e as int, c, n as int),
        p <= r <= e,
{
    let mut i = p;
    while i <= e && e - i >= n && run_x(t, i, e, c) < n
        invariant
            p <= i <= e,
            e <= t@.len(),
            find_run(t@, p as int, e as int, c, n as int) == find_run(
                t@,
                i as int,
                e as int,
                c,
                n as int,
            ),
        decreases e - i,
    {
        i += 1;
    }
    if e - i < n {
        e
    } else {
        i
    }
}

fn text_end_x(t: &[u8], p: usize, e: usize) -> (r: usize)
    requires
        p <= e <= t@.len(),
    ensures
        r == text_end(t@, p as int, e as int),
        p <= r <= e,
{
    let mut i = p;
    while i < e && !(t[i] == NEWLINE || t[i] == BACKSLASH || t[i] == DOLLAR || t[i] == STAR
        || t[i] == TILDE || t[i] == LBRACKET)
        invariant
            p <= i <= e,
            e <= t@.len(),
            text_end(t@, p as int, e as int) == text_end(t@, i as int, e as int),
        decreases e - i,
    {
        i += 1;
    }
    i
}

fn utf8_width_x(b: u8) -> (r: usize)
    ensures
        r == utf8_width(b),
{
    if b >= 240u8 {
        4
    } else if b >= 224u8 {
        3
    } else if b >= 192u8 {
        2
    } else {
        1
    }
}

fn min_x(a: usize, b: usize) -> (r: usize)
    ensures
        r == min(a as int, b as int),
{
    if a <= b {
        a
    } else {
        b
    }
}

/// The inline construct that starts at `p`, and where it ends.
fn inline_node_x(t: &[u8], p: usize, e: usize) -> (r: (ParseTree, usize))
    requires
        p < e <= t@.len(),
    ensures
        r.0@ == inline_node(t@, p as int, e as int),
        r.1 == inline_next(t@, p as int, e as int),
    decreases e - p, 0int,
{
    proof {
        lemma_inline_next(t@, p as int, e as int);
    }
    let b = t[p];
    if b == NEWLINE {
        (leaf_x(RuleTag::SoftBreak, p, p + 1), p + 1)
    } else if b == BACKSLASH {
        if p + 1 >= e {
            (leaf_x(RuleTag::Escape, p, e), e)
        } else if is_letter_x(t[p + 1]) {
            let k = letters_x(t, p + 1, e);
            proof {
                lemma_letters(t@, p + 1, e as int);
            }
            (leaf_x(RuleTag::InlineCommand, p, p + 1 + k), p + 1 + k)
        } else {
            let w = utf8_width_x(t[p + 1]);
            let n = if e - (p + 1) <= w {
                e
            } else {
                p + 1 + w
            };
            (leaf_x(RuleTag::Escape, p, n), n)
        }
    } else if b == DOLLAR {
        let k = run_x(t, p, e, DOLLAR);
        proof {
            lemma_run(t@, p as int, e as int, DOLLAR);
        }
        let n = min_x(k, 2);
        let j = find_run_x(t, p + n, e, DOLLAR, n);
        if e - j >= n {
            let rule = if n == 2 {
                RuleTag::DisplayMath
            } else {
                RuleTag::InlineMath
            };
            let children = one(leaf_x(RuleTag::MathText, p + n, j));
            (ParseTree { rule, span: Span { start: p, end: j + n }, children }, j + n)
        } else {
            (leaf_x(RuleTag::Unclosed, p, e), e)
        }
    } else if b == STAR || b == TILDE {
        let k = run_x(t, p, e, b);
        proof {
            lemma_run(t@, p as int, e as int, b);
        }
        let n = min_x(k, 3);
        let j = find_run_x(t, p + n, e, b, n);
        if e - j >= n && n >= 1 && p + n <= j {
            let mut children = one(leaf_x(RuleTag::StyleMarker, p, p + n));
            let inner = inlines_x(t, p + n, j);
            append_trees(&mut children, inner);
            append_trees(&mut children, one(leaf_x(RuleTag::StyleMarker, j, j + n)));
            (ParseTree { rule: RuleTag::Style, span: Span { start: p, end: j + n }, children }, j + n)
        } else {
            (leaf_x(RuleTag::Unclosed, p, e), e)
        }
    } else {
        if b == LBRACKET {
            let k = find_byte_x(t, p + 1, e, RBRACKET);
            if e - k > 1 && t[k + 1] == LPAREN {
                let m = find_byte_x(t, k + 2, e, RPAREN);
                if m < e {
                    let mut children = one(leaf_x(RuleTag::LinkLabel, p + 1, k));
                    append_trees(&mut children, one(leaf_x(RuleTag::LinkTarget, k + 2, m)));
                    assert(trees_model(children@) =~= seq![
                        leaf(RuleTag::LinkLabel, p + 1, k as int),
                        leaf(RuleTag::LinkTarget, k + 2, m as int),
                    ]);
                    return (ParseTree { rule: RuleTag::Link, span: Span { start: p, end: m + 1 }, children }, m + 1);
                }
            }
        }
        let q = text_end_x(t, p + 1, e);
        (leaf_x(RuleTag::Text, p, q), q)
    }
}

/// The inline constructs of `[p, e)`.
fn inlines_x(t: &[u8], p: usize, e: usize) -> (r: Vec<ParseTree>)
    requires
        p <= e <= t@.len(),
    ensures
        trees_model(r@) == inlines(t@, p as int, e as int),
    decreases e - p, 1int,
{
    let mut out: Vec<ParseTree> = Vec::new();
    let mut i = p;
    while i < e
        invariant
            p <= i <= e,
            e <= t@.len(),
            trees_model(out@) + inlines(t@, i as int, e as int) == inlines(t@, p as int, e as int),
        decreases e - i,
    {
        let (node, q) = inline_node_x(t, i, e);
        proof {
            lemma_inline_next(t@, i as int, e as int);
            lemma_trees_model_push(out@, node);
            assert(inlines(t@, i as int, e as int) == seq![node@] + inlines(t@, q as int, e as int));
            assert(trees_model(out@) + inlines(t@, i as int, e as int) =~= trees_model(out@).push(node@)
                + inlines(t@, q as int, e as int));
        }
        out.push(node);
        i = q;
    }
    assert(trees_model(out@) + inlines(t@, i as int, e as int) =~= trees_model(out@));
    out
}

fn item_marker_end_x(t: &[u8], p: usize, e: usize) -> (r: usize)
    requires
        p <= e <= t@.len(),
    ensures
        r == item_marker_end(t@, p as int, e as int),
{
    let d = digits_x(t, p, e);
    proof {
        lemma_digits(t@, p as int, e as int);
    }
    if e - p > 1 && (t[p] == DASH || t[p] == PLUS) && t[p + 1] == SPACE {
        p + 1
    } else if 1 <= d && d <= 9 && e - p > d + 1 && t[p + d] == DOT && t[p + d + 1] == SPACE {
        p + d + 1
    } else {
        p
    }
}

/// The kind of the line that starts at `p`.
fn line_kind_x(t: &[u8], p: usize) -> (r: LineKind)
    requires
        p <= t@.len(),
    ensures
        r == line_kind(t@, p as int),
{
    let e = line_end_x(t, p);
    proof {
        lemma_line_end(t@, p as int);
    }
    if blank_from_x(t, p, e) {
        return LineKind::Blank;
    }
    let h = run_x(t, p, e, HASH);
    proof {
        lemma_run(t@, p as int, e as int, HASH);
        lemma_run(t@, p as int, e as int, DASH);
        lemma_letters(t@, p + 1, e as int);
    }
    if h >= 1 && (p + h == e || is_space_x(t[p + h])) {
        LineKind::Header
    } else if run_x(t, p, e, DASH) >= 3 && p + run_x(t, p, e, DASH) == e {
        LineKind::Rule
    } else if run_x(t, p, e, BACKTICK) >= 3 {
        LineKind::Fence
    } else if t[p] == GT {
        LineKind::Quote
    } else if item_marker_end_x(t, p, e) > p {
        LineKind::Item
    } else if t[p] == PIPE {
        LineKind::Table
    } else if t[p] == BACKSLASH && p + 1 + letters_x(t, p + 1, e) < e && t[p + 1 + letters_x(
        t,
        p + 1,
        e,
    )] == COLON {
        LineKind::CommandLine
    } else {
        LineKind::Text
    }
}

fn next_line_x(t: &[u8], p: usize) -> (r: usize)
    requires
        p <= t@.len(),
    ensures
        r == next_line(t@, p as int),
        p <= r <= t@.len(),
        p < t@.len() ==> p < r,
{
    let e = line_end_x(t, p);
    proof {
        lemma_line_end(t@, p as int);
    }
    after_x(t, e)
}

fn fence_close_x(t: &[u8], q: usize) -> (r: usize)
    requires
        q <= t@.len(),
    ensures
        r == fence_close(t@, q as int),
{
    let mut i = q;
    while i < t.len() && run_x(t, i, line_end_x(t, i), BACKTICK) < 3
        invariant
            q <= i <= t@.len(),
            fence_close(t@, q as int) == fence_close(t@, i as int),
        decreases t@.len() - i,
    {
        proof {
            lemma_line_end(t@, i as int);
        }
        i = next_line_x(t, i);
    }
    if i >= t.len() {
        t.len()
    } else {
        i
    }
}

fn group_end_x(t: &[u8], p: usize, k: LineKind) -> (r: usize)
    requires
        p <= t@.len(),
    ensures
        r == group_end(t@, p as int, k),
{
    let mut i = p;
    let mut e = line_end_x(t, i);
    proof {
        lemma_line_end(t@, i as int);
    }
    while e < t.len() && line_kind_x(t, e + 1) == k
        invariant
            p <= i <= e <= t@.len(),
            e == line_end(t@, i as int),
            group_end(t@, p as int, k) == group_end(t@, i as int, k),
        decreases t@.len() - i,
    {
        i = e + 1;
        e = line_end_x(t, i);
        proof {
            lemma_line_end(t@, i as int);
        }
    }
    e
}

fn cell_x(t: &[u8], a: usize, b: usize) -> (r: ParseTree)
    requires
        a <= b <= t@.len(),
    ensures
        r@ == cell(t@, a as int, b as int),
{
    let s = skip_spaces_x(t, a, b);
    leaf_x(RuleTag::TableCell, s, trim_end_x(t, s, b))
}

fn cells_x(t: &[u8], q: usize, e: usize) -> (r: Vec<ParseTree>)
    requires
        q <= e <= t@.len(),
    ensures
        trees_model(r@) == cells(t@, q as int, e as int),
{
    let mut out: Vec<ParseTree> = Vec::new();
    let mut i = q;
    while i < e
        invariant
            q <= i <= e,
            e <= t@.len(),
            trees_model(out@) + cells(t@, i as int, e as int) == cells(t@, q as int, e as int),
        decreases e - i,
    {
        let k = find_byte_x(t, i, e, PIPE);
        if k >= e {
            if !blank_from_x(t, i, e) {
                let c = cell_x(t, i, e);
                proof {
                    lemma_trees_model_push(out@, c);
                    assert(trees_model(out@) + cells(t@, i as int, e as int) =~= trees_model(
                        out@,
                    ).push(c@));
                }
                out.push(c);
            } else {
                assert(trees_model(out@) + cells(t@, i as int, e as int) =~= trees_model(out@));
            }
            i = e;
        } else {
            let c = cell_x(t, i, k);
            proof {
                lemma_trees_model_push(out@, c);
                assert(trees_model(out@) + cells(t@, i as int, e as int) =~= trees_model(out@).push(
                    c@,
                ) + cells(t@, k + 1, e as int));
            }
            out.push(c);
            i = k + 1;
        }
    }
    assert(trees_model(out@) + cells(t@, i as int, e as int) =~= trees_model(out@));
    out
}

fn trimmed_inlines_x(t: &[u8], a: usize, e: usize) -> (r: Vec<ParseTree>)
    requires
        a <= e <= t@.len(),
    ensures
        trees_model(r@) == trimmed_inlines(t@, a as int, e as int),
{
    let s = skip_spaces_x(t, a, e);
    inlines_x(t, s, trim_end_x(t, s, e))
}

fn group_line_x(t: &[u8], p: usize, k: LineKind) -> (r: Vec<ParseTree>)
    requires
        p < t@.len(),
        line_kind(t@, p as int) == k,
        k != LineKind::Blank,
    ensures
        trees_model(r@) == group_line(t@, p as int, k),
{
    let e = line_end_x(t, p);
    proof {
        lemma_nonblank(t@, p as int);
    }
    if k == LineKind::Quote {
        trimmed_inlines_x(t, p + 1, e)
    } else if k == LineKind::Item {
        let m = item_marker_end_x(t, p, e);
        let mut children = one(leaf_x(RuleTag::ListMarker, p, m));
        append_trees(&mut children, trimmed_inlines_x(t, m, e));
        one(ParseTree { rule: RuleTag::ListItem, span: Span { start: p, end: e }, children })
    } else {
        let children = cells_x(t, p + 1, e);
        one(ParseTree { rule: RuleTag::TableRow, span: Span { start: p, end: e }, children })
    }
}

fn group_lines_x(t: &[u8], p: usize, k: LineKind) -> (r: Vec<ParseTree>)
    requires
        p < t@.len(),
        line_kind(t@, p as int) == k,
        k != LineKind::Blank,
    ensures
        trees_model(r@) == group_lines(t@, p as int, k),
{
    let mut out: Vec<ParseTree> = Vec::new();
    let mut i = p;
    let mut e = line_end_x(t, i);
    proof {
        lemma_line_end(t@, i as int);
    }
    while e < t.len() && line_kind_x(t, e + 1) == k
        invariant
            p <= i <= e <= t@.len(),
            i < t@.len(),
            k != LineKind::Blank,
            line_kind(t@, i as int) == k,
            e == line_end(t@, i as int),
            trees_model(out@) + group_lines(t@, i as int, k) == group_lines(t@, p as int, k),
        decreases t@.len() - i,
    {
        let line = group_line_x(t, i, k);
        proof {
            assert(group_lines(t@, i as int, k) == group_line(t@, i as int, k) + group_lines(
                t@,
                e + 1,
                k,
            ));
            assert(trees_model(out@) + group_lines(t@, i as int, k) =~= trees_model(out@)
                + group_line(t@, i as int, k) + group_lines(t@, e + 1, k));
        }
        append_trees(&mut out, line);
        i = e + 1;
        e = line_end_x(t, i);
        proof {
            lemma_nonblank(t@, i as int);
        }
    }
    let line = group_line_x(t, i, k);
    append_trees(&mut out, line);
    out
}

fn block_node_x(t: &[u8], p: usize) -> (r: ParseTree)
    requires
        p < t@.len(),
        line_kind(t@, p as int) != LineKind::Blank,
    ensures
        r@ == block_node(t@, p as int),
{
    let e = line_end_x(t, p);
    proof {
        lemma_nonblank(t@, p as int);
    }
    let k = line_kind_x(t, p);
    if k == LineKind::Header {
        let h = run_x(t, p, e, HASH);
        proof {
            lemma_run(t@, p as int, e as int, HASH);
        }
        let mut children = one(leaf_x(RuleTag::HeaderMarker, p, p + h));
        append_trees(&mut children, trimmed_inlines_x(t, p + h, e));
        ParseTree { rule: RuleTag::Header, span: Span { start: p, end: e }, children }
    } else if k == LineKind::Rule {
        leaf_x(RuleTag::HorizontalRule, p, e)
    } else if k == LineKind::Fence {
        let ticks = run_x(t, p, e, BACKTICK);
        proof {
            lemma_run(t@, p as int, e as int, BACKTICK);
        }
        let ls = skip_spaces_x(t, p + ticks, e);
        let lang = leaf_x(RuleTag::CodeLanguage, ls, trim_end_x(t, ls, e));
        let body = after_x(t, e);
        let c = fence_close_x(t, body);
        proof {
            lemma_fence_close(t@, body as int);
        }
        let mut children = one(lang);
        if c < t.len() {
            let ce = line_end_x(t, c);
            let text_end = if c > body {
                c - 1
            } else {
                c
            };
            append_trees(&mut children, one(leaf_x(RuleTag::CodeText, body, text_end)));
            assert(trees_model(children@) =~= seq![lang@, leaf(RuleTag::CodeText, body as int, text_end as int)]);
            ParseTree { rule: RuleTag::CodeBlock, span: Span { start: p, end: ce }, children }
        } else {
            append_trees(&mut children, one(leaf_x(RuleTag::CodeText, body, t.len())));
            assert(trees_model(children@) =~= seq![lang@, leaf(RuleTag::CodeText, body as int, t@.len() as int)]);
            ParseTree {
                rule: RuleTag::UnclosedCode,
                span: Span { start: p, end: t.len() },
                children,
            }
        }
    } else if k == LineKind::CommandLine {
        let colon = p + 1 + letters_x(t, p + 1, e);
        proof {
            lemma_letters(t@, p + 1, e as int);
        }
        let rs = skip_spaces_x(t, colon + 1, e);
        let re = trim_end_x(t, rs, e);
        let mut children = one(leaf_x(RuleTag::CommandName, p + 1, colon));
        append_trees(&mut children, one(leaf_x(RuleTag::CommandRest, rs, re)));
        assert(trees_model(children@) =~= seq![
            leaf(RuleTag::CommandName, p + 1, colon as int),
            leaf(RuleTag::CommandRest, rs as int, re as int),
        ]);
        ParseTree { rule: RuleTag::CommandLine, span: Span { start: p, end: e }, children }
    } else if k == LineKind::Text {
        let pe = group_end_x(t, p, LineKind::Text);
        proof {
            lemma_group_end(t@, p as int, LineKind::Text);
        }
        let children = trimmed_inlines_x(t, p, pe);
        ParseTree { rule: RuleTag::Paragraph, span: Span { start: p, end: pe }, children }
    } else {
        let rule = if k == LineKind::Quote {
            RuleTag::Quote
        } else if k == LineKind::Item {
            RuleTag::List
        } else {
            RuleTag::Table
        };
        let end = group_end_x(t, p, k);
        let children = group_lines_x(t, p, k);
        ParseTree { rule, span: Span { start: p, end }, children }
    }
}

/// The blocks of the text from the line `p` on.
fn blocks_x(t: &[u8], p: usize) -> (r: Vec<ParseTree>)
    requires
        p <= t@.len(),
    ensures
        trees_model(r@) == blocks(t@, p as int),
{
    let mut out: Vec<ParseTree> = Vec::new();
    let mut i = p;
    while i < t.len()
        invariant
            p <= i <= t@.len(),
            trees_model(out@) + blocks(t@, i as int) == blocks(t@, p as int),
        decreases t@.len() - i,
    {
        if line_kind_x(t, i) == LineKind::Blank {
            let q = next_line_x(t, i);
            i = q;
        } else {
            let node = block_node_x(t, i);
            proof {
                lemma_block_end(t@, i as int);
            }
            let q = after_x(t, node.span.end);
            proof {
                lemma_trees_model_push(out@, node);
                assert(trees_model(out@) + blocks(t@, i as int) =~= trees_model(out@).push(node@)
                    + blocks(t@, q as int));
            }
            out.push(node);
            i = q;
        }
    }
    assert(trees_model(out@) + blocks(t@, i as int) =~= trees_model(out@));
    out
}

/// The parse tree of a whole document.
pub fn parse_program(t: &[u8]) -> (r: ParseTree)
    ensures
        r@ == program(t@),
{
    let children = blocks_x(t, 0);
    ParseTree { rule: RuleTag::Program, span: Span { start: 0, end: t.len() }, children }
}

/// Why a text is not one construct of a rule: the rule, and the offset where the match
/// stopped.
#[derive(Clone, Copy, Debug, PartialEq, Eq, Structural)]
pub struct GrammarError {
    pub rule: RuleTag,
    pub offset: usize,
}

/// The rules that a whole block matches.
pub open spec fn is_block_rule(r: RuleTag) -> bool {
    r == RuleTag::Header || r == RuleTag::HorizontalRule || r == RuleTag::CodeBlock || r
        == RuleTag::UnclosedCode || r == RuleTag::Quote || r == RuleTag::List || r == RuleTag::Table
        || r == RuleTag::CommandLine || r == RuleTag::Paragraph
}

/// The text read as one construct of `rule`: a whole document for `Program`, else exactly
/// one block of that rule. A failure names the rule and the offset where the match stopped:
/// the end of a text with no block, the start of a block of another rule, or the start of a
/// second block. Rules below the block level are not entry points and fail at 0.
pub open spec fn parse_spec(rule: RuleTag, t: Seq<u8>) -> Result<TreeModel, (RuleTag, int)> {
    let bs = blocks(t, 0);
    if rule == RuleTag::Program {
        Ok(program(t))
    } else if !is_block_rule(rule) {
        Err((rule, 0))
    } else if bs.len() == 0 {
        Err((rule, t.len() as int))
    } else if bs[0].rule != rule {
        Err((rule, bs[0].start))
    } else if bs.len() > 1 {
        Err((rule, bs[1].start))
    } else {
        Ok(bs[0])
    }
}

/// Parse `text` as one construct of `rule`.
pub fn parse(rule: RuleTag, text: &str) -> (r: Result<ParseTree, GrammarError>)
    ensures
        match r {
            Ok(tree) => parse_spec(rule, text.spec_bytes()) == Ok::<TreeModel, (RuleTag, int)>(tree@),
            Err(e) => parse_spec(rule, text.spec_bytes()) == Err::<TreeModel, (RuleTag, int)>((e.rule, e.offset as int)),
        },
{
    let t = text.as_bytes();
    let tree = parse_program(t);
    if rule == RuleTag::Program {
        return Ok(tree);
    }
    let is_block = rule == RuleTag::Header || rule == RuleTag::HorizontalRule || rule == RuleTag::CodeBlock
        || rule == RuleTag::UnclosedCode || rule == RuleTag::Quote || rule == RuleTag::List || rule
        == RuleTag::Table || rule == RuleTag::CommandLine || rule == RuleTag::Paragraph;
    if !is_block {
        return Err(GrammarError { rule, offset: 0 });
    }
    let mut blocks = tree.children;
    proof {
        lemma_trees_model_index(blocks@);
    }
    if blocks.len() == 0 {
        return Err(GrammarError { rule, offset: t.len() });
    }
    if blocks[0].rule != rule {
        return Err(GrammarError { rule, offset: blocks[0].span.start });
    }
    if blocks.len() > 1 {
        return Err(GrammarError { rule, offset: blocks[1].span.start });
    }
    let first = blocks.remove(0);
    Ok(first)
}

} // verus!
