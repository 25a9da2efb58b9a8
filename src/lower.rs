use vstd::prelude::*;

use crate::ast::{
    kind_model, value_model, nodes_nested, spans_nested, lemma_nodes_model_push, lemma_values_model_push,
    entries_model, lemma_entries_model_index, nodes_model, rows_model, strs_model, values_model, ASTKind, ASTNode, CodeNode, CommandNode,
    Delimiter, ErrorNode, Header, KindModel, LinkNode, ListNode, MathNode, MathStyle, NodeModel, QuoteBlock,
    StyleNode, TableAlignMode, TableNode, TextKind, TextModel, Value, ValueModel,
};
use crate::grammar::{
    blank_from, digits, find_byte, is_digit, laid_out, lemma_skip_spaces, lemma_trim_end, skip_spaces, trim_end, lemma_digits, lemma_laid_out_at, lemma_laid_out_sub, well_formed,
    RuleTag, TreeModel, COLON, COMMA, DASH, DOT, LBRACE, LBRACKET, PLUS, RBRACE, RBRACKET,
};
use crate::parse::{lemma_trees_model_index, tree_model, trees_model, ParseTree};
use crate::style::StyleKind;
use crate::text::{decode_lossy, owned, str_eq};
use crate::span::Span;
use crate::style::style_of;
use crate::text::utf8_lossy;

verus! {


pub const BAD_HEADING: &'static str = "heading level must be between 1 and 6";
pub const BAD_CODE: &'static str = "malformed code block";
pub const UNCLOSED_CODE: &'static str = "unterminated code block";
pub const BAD_ITEM: &'static str = "malformed list item";
pub const BAD_TABLE: &'static str = "malformed table";
pub const EMPTY_COMMAND: &'static str = "command name is empty";
pub const BAD_COMMAND: &'static str = "malformed command";
pub const BAD_MATH: &'static str = "malformed formula";
pub const BAD_STYLE: &'static str = "malformed styled span";
pub const UNCLOSED_MARKUP: &'static str = "unterminated inline markup";
pub const UNEXPECTED: &'static str = "unexpected syntax";
pub const BAD_LINK: &'static str = "malformed link";

/// The text of the bytes `[a, b)`, or nothing when the range is not within the text.
pub open spec fn text_at(t: Seq<u8>, a: int, b: int) -> Seq<char> {
    if 0 <= a <= b <= t.len() {
        utf8_lossy(t.subrange(a, b))
    } else {
        Seq::empty()
    }
}

pub open spec fn node_text(t: Seq<u8>, n: TreeModel) -> Seq<char> {
    text_at(t, n.start, n.end)
}

pub open spec fn span_of(n: TreeModel) -> Span {
    Span { start: n.start as usize, end: n.end as usize }
}

/// Value of the decimal digits `[a, b)`.
pub open spec fn decimal(t: Seq<u8>, a: int, b: int) -> nat
    decreases b - a,
{
    if b <= a || a < 0 || b > t.len() {
        0
    } else {
        decimal(t, a, b - 1) * 10 + (t[b - 1] - 48u8) as nat
    }
}

/// The number of the first item of a list, when its marker is a number.
pub open spec fn list_number(t: Seq<u8>, n: TreeModel) -> Option<usize> {
    if n.children.len() >= 1 && n.children[0].children.len() >= 1 {
        let m = n.children[0].children[0];
        let d = digits(t, m.start, m.end);
        if 0 <= m.start <= m.end <= t.len() && 1 <= d <= 9 {
            Some(decimal(t, m.start, m.start + d) as usize)
        } else {
            None
        }
    } else {
        None
    }
}

/// `[a, b)` is a cell of the alignment row of a table: `-` signs, optionally with a
/// colon at either end.
pub open spec fn is_align_cell(t: Seq<u8>, a: int, b: int) -> bool {
    let s = if a < b && t[a] == COLON { a + 1 } else { a };
    let e = if s < b && t[b - 1] == COLON { b - 1 } else { b };
    0 <= a <= b <= t.len() && s < e && forall|i: int| s <= i < e ==> t[i] == DASH
}

pub open spec fn align_of(t: Seq<u8>, a: int, b: int) -> TableAlignMode {
    if !(0 <= a <= b <= t.len()) {
        TableAlignMode::Left
    } else if b - a >= 2 && t[a] == COLON && t[b - 1] == COLON {
        TableAlignMode::Center
    } else if b - a >= 1 && t[b - 1] == COLON {
        TableAlignMode::Right
    } else {
        TableAlignMode::Left
    }
}

/// The texts of the cells of a table row.
pub open spec fn row_texts(t: Seq<u8>, row: TreeModel) -> Seq<Seq<char>> {
    Seq::new(row.children.len(), |i: int| node_text(t, row.children[i]))
}

/// The row is an alignment row: it has cells and each is an alignment cell.
pub open spec fn is_align_row(t: Seq<u8>, row: TreeModel) -> bool {
    row.children.len() > 0 && forall|i: int|
        0 <= i < row.children.len() ==> is_align_cell(t, #[trigger] row.children[i].start, row.children[i].end)
}

/// The table that a group of table rows lowers to.
pub open spec fn table_model(t: Seq<u8>, n: TreeModel) -> KindModel {
    let rows = n.children;
    let has_align = rows.len() >= 2 && is_align_row(t, rows[1]);
    let body_from: int = if has_align { 2 } else { 1 };
    KindModel::Table {
        titles: if rows.len() >= 1 { row_texts(t, rows[0]) } else { Seq::empty() },
        aligns: if has_align {
            Seq::new(rows[1].children.len(), |i: int| align_of(t, rows[1].children[i].start, rows[1].children[i].end))
        } else {
            Seq::empty()
        },
        rows: if rows.len() > body_from {
            Seq::new((rows.len() - body_from) as nat, |i: int| row_texts(t, rows[i + body_from]))
        } else {
            Seq::empty()
        },
    }
}

/// The character that an escape stands for: the one after the backslash.
pub open spec fn escaped_char(t: Seq<u8>, n: TreeModel) -> char {
    let s = text_at(t, n.start + 1, n.end);
    if s.len() > 0 {
        s[0]
    } else {
        '\\'
    }
}

/// `[a, b)` holds only ASCII digits.
pub open spec fn all_digits(t: Seq<u8>, a: int, b: int) -> bool {
    forall|i: int| a <= i < b ==> is_digit(#[trigger] t[i])
}

/// Where the digits of a number start: after an optional sign.
pub open spec fn after_sign(t: Seq<u8>, a: int, b: int) -> int {
    if a < b && (t[a] == DASH || t[a] == PLUS) { a + 1 } else { a }
}

/// `[a, b)` is an integer literal: an optional sign and one or more digits.
pub open spec fn is_integer(t: Seq<u8>, a: int, b: int) -> bool {
    let s = after_sign(t, a, b);
    0 <= a <= b <= t.len() && s < b && all_digits(t, s, b)
}

/// `[a, b)` is a decimal literal: an optional sign, digits, a point and digits.
pub open spec fn is_decimal(t: Seq<u8>, a: int, b: int) -> bool {
    let s = after_sign(t, a, b);
    let d = find_byte(t, s, b, DOT);
    0 <= a <= b <= t.len() && s < d && d + 1 < b && all_digits(t, s, d) && all_digits(t, d + 1, b)
}

/// The value of a single literal written as `[a, b)`. Numbers keep their written form.
pub open spec fn scalar_of(t: Seq<u8>, a: int, b: int) -> ValueModel {
    let s = text_at(t, a, b);
    if !(0 <= a < b <= t.len()) {
        ValueModel::String(Seq::empty())
    } else if is_integer(t, a, b) {
        ValueModel::Integer(s)
    } else if is_decimal(t, a, b) {
        ValueModel::Decimal(s)
    } else if s == "true"@ {
        ValueModel::Boolean(true)
    } else if s == "false"@ {
        ValueModel::Boolean(false)
    } else {
        ValueModel::String(s)
    }
}

/// The first byte `c` of `[p, e)` outside brackets and braces, or `e`; `depth` counts the
/// brackets and braces open at `p`.
pub open spec fn top_level(t: Seq<u8>, p: int, e: int, c: u8, depth: int) -> int
    decreases e - p,
{
    if p >= e || p < 0 || e > t.len() {
        e
    } else if t[p] == c && depth == 0 {
        p
    } else if t[p] == LBRACKET || t[p] == LBRACE {
        top_level(t, p + 1, e, c, depth + 1)
    } else if (t[p] == RBRACKET || t[p] == RBRACE) && depth > 0 {
        top_level(t, p + 1, e, c, depth - 1)
    } else {
        top_level(t, p + 1, e, c, depth)
    }
}

pub proof fn lemma_top_level(t: Seq<u8>, p: int, e: int, c: u8, depth: int)
    requires
        0 <= p <= e <= t.len(),
    ensures
        p <= top_level(t, p, e, c, depth) <= e,
    decreases e - p,
{
    if p < e && !(t[p] == c && depth == 0) {
        if t[p] == LBRACKET || t[p] == LBRACE {
            lemma_top_level(t, p + 1, e, c, depth + 1);
        } else if (t[p] == RBRACKET || t[p] == RBRACE) && depth > 0 {
            lemma_top_level(t, p + 1, e, c, depth - 1);
        } else {
            lemma_top_level(t, p + 1, e, c, depth);
        }
    }
}

/// The value of a command argument written as `[a, b)`, spaces around it aside: a list
/// `[x, y, ...]`, a record `{key: value, ...}`, a single literal, or nothing when blank.
pub open spec fn literal_of(t: Seq<u8>, a: int, b: int) -> ValueModel
    decreases b - a, 0int,
{
    if !(0 <= a <= b <= t.len()) {
        ValueModel::Null
    } else {
        let s = skip_spaces(t, a, b);
        let f = trim_end(t, s, b);
        proof {
            lemma_skip_spaces(t, a, b);
            lemma_trim_end(t, s, b);
        }
        if s >= f {
            ValueModel::Null
        } else if f - s >= 2 && t[s] == LBRACKET && t[f - 1] == RBRACKET {
            ValueModel::List(list_items(t, s + 1, f - 1))
        } else if f - s >= 2 && t[s] == LBRACE && t[f - 1] == RBRACE {
            ValueModel::Dict(latest_only(record_entries(t, s + 1, f - 1)))
        } else {
            scalar_of(t, s, f)
        }
    }
}

/// The items of a list written as `[p, e)`, separated by top-level commas.
pub open spec fn list_items(t: Seq<u8>, p: int, e: int) -> Seq<ValueModel>
    decreases e - p, 1int,
{
    if p < 0 || p >= e || e > t.len() || blank_from(t, p, e) {
        Seq::empty()
    } else {
        let c = top_level(t, p, e, COMMA, 0);
        proof {
            lemma_top_level(t, p, e, COMMA, 0);
        }
        if c < e {
            seq![literal_of(t, p, c)] + list_items(t, c + 1, e)
        } else {
            seq![literal_of(t, p, e)]
        }
    }
}

/// Some entry of `s` has the key `k`.
pub open spec fn has_key(s: Seq<(Seq<char>, ValueModel)>, k: Seq<char>) -> bool {
    exists|i: int| 0 <= i < s.len() && (#[trigger] s[i]).0 == k
}

/// The entries of `s` whose key does not come again later: one entry per key, the last
/// written, in the order of those last entries.
pub open spec fn latest_only(s: Seq<(Seq<char>, ValueModel)>) -> Seq<(Seq<char>, ValueModel)>
    decreases s.len(),
{
    if s.len() == 0 {
        Seq::empty()
    } else if has_key(s.drop_first(), s[0].0) {
        latest_only(s.drop_first())
    } else {
        seq![s[0]] + latest_only(s.drop_first())
    }
}

/// One entry `key: value` of a record, written as `[p, c)`.
pub open spec fn record_key(t: Seq<u8>, p: int, c: int) -> Seq<char> {
    let k = top_level(t, p, c, COLON, 0);
    let s = skip_spaces(t, p, k);
    text_at(t, s, trim_end(t, s, k))
}

/// The entries of a record written as `[p, e)`, separated by top-level commas; an entry
/// without a colon has no value.
pub open spec fn record_entries(t: Seq<u8>, p: int, e: int) -> Seq<(Seq<char>, ValueModel)>
    decreases e - p, 1int,
{
    if p < 0 || p >= e || e > t.len() || blank_from(t, p, e) {
        Seq::empty()
    } else {
        let c = top_level(t, p, e, COMMA, 0);
        proof {
            lemma_top_level(t, p, e, COMMA, 0);
            lemma_top_level(t, p, c, COLON, 0);
        }
        let k = top_level(t, p, c, COLON, 0);
        let entry = (record_key(t, p, c), if k < c { literal_of(t, k + 1, c) } else { ValueModel::Null });
        if c < e {
            seq![entry] + record_entries(t, c + 1, e)
        } else {
            seq![entry]
        }
    }
}

/// A link: its target, and its label unless that is empty.
pub open spec fn link_kind(t: Seq<u8>, n: TreeModel) -> KindModel {
    let c = n.children;
    if c.len() == 2 {
        KindModel::Link {
            target: node_text(t, c[1]),
            label: if c[0].start < c[0].end { Some(node_text(t, c[0])) } else { None },
        }
    } else {
        KindModel::Error { message: BAD_LINK@, recovered: node_text(t, n) }
    }
}

pub open spec fn code_kind(t: Seq<u8>, n: TreeModel) -> KindModel {
    if n.children.len() == 2 {
        KindModel::Code { language: node_text(t, n.children[0]), code: node_text(t, n.children[1]) }
    } else {
        KindModel::Error { message: BAD_CODE@, recovered: node_text(t, n) }
    }
}

pub open spec fn table_kind(t: Seq<u8>, n: TreeModel) -> KindModel {
    if forall|i: int| 0 <= i < n.children.len() ==> (#[trigger] n.children[i]).rule == RuleTag::TableRow {
        table_model(t, n)
    } else {
        KindModel::Error { message: BAD_TABLE@, recovered: node_text(t, n) }
    }
}

pub open spec fn command_line_kind(t: Seq<u8>, n: TreeModel) -> KindModel {
    let c = n.children;
    if c.len() == 2 && c[0].rule == RuleTag::CommandName && c[1].rule == RuleTag::CommandRest {
        if c[0].start >= c[0].end {
            KindModel::Error { message: EMPTY_COMMAND@, recovered: node_text(t, n) }
        } else {
            KindModel::Command {
                name: node_text(t, c[0]),
                arguments: if c[1].start < c[1].end { seq![literal_of(t, c[1].start, c[1].end)] } else { Seq::empty() },
                body: None,
            }
        }
    } else {
        KindModel::Error { message: BAD_COMMAND@, recovered: node_text(t, n) }
    }
}

pub open spec fn inline_command_kind(t: Seq<u8>, n: TreeModel) -> KindModel {
    if n.end > n.start + 1 {
        KindModel::Command { name: text_at(t, n.start + 1, n.end), arguments: Seq::empty(), body: None }
    } else {
        KindModel::Error { message: EMPTY_COMMAND@, recovered: node_text(t, n) }
    }
}

pub open spec fn math_kind(t: Seq<u8>, n: TreeModel) -> KindModel {
    if n.children.len() == 1 {
        KindModel::Math {
            style: if n.rule == RuleTag::DisplayMath { MathStyle::Display } else { MathStyle::Inline },
            source: node_text(t, n.children[0]),
        }
    } else {
        KindModel::Error { message: BAD_MATH@, recovered: node_text(t, n) }
    }
}

/// The typed node that a parse-tree node lowers to. Every node lowers: what cannot be
/// read becomes an error node over the same span.
pub open spec fn lower_node(t: Seq<u8>, n: TreeModel) -> NodeModel
    decreases n,
{
    let c = n.children;
    let kind = match n.rule {
        RuleTag::Program => KindModel::Statements(lower_seq(t, c)),
        RuleTag::Paragraph => KindModel::Paragraph(lower_seq(t, c)),
        RuleTag::Quote => KindModel::Quote { style: None, body: lower_seq(t, c) },
        RuleTag::Header => {
            if c.len() >= 1 && c[0].rule == RuleTag::HeaderMarker && 1 <= c[0].end - c[0].start <= 6 {
                KindModel::Header { level: (c[0].end - c[0].start) as u8, children: lower_seq(t, c.drop_first()) }
            } else {
                KindModel::Error { message: BAD_HEADING@, recovered: node_text(t, n) }
            }
        },
        RuleTag::HorizontalRule => KindModel::Delimiter(Delimiter::HorizontalRule),
        RuleTag::CodeBlock => code_kind(t, n),
        RuleTag::UnclosedCode => KindModel::Error { message: UNCLOSED_CODE@, recovered: node_text(t, n) },
        RuleTag::List => KindModel::List { first: list_number(t, n), items: lower_seq(t, c) },
        RuleTag::ListItem => {
            if c.len() >= 1 && c[0].rule == RuleTag::ListMarker {
                KindModel::Paragraph(lower_seq(t, c.drop_first()))
            } else {
                KindModel::Error { message: BAD_ITEM@, recovered: node_text(t, n) }
            }
        },
        RuleTag::Table => table_kind(t, n),
        RuleTag::CommandLine => command_line_kind(t, n),
        RuleTag::Text => KindModel::Text(TextModel::Normal(node_text(t, n))),
        RuleTag::SoftBreak => KindModel::Text(TextModel::SoftBreak),
        RuleTag::Escape => KindModel::Text(TextModel::Escaped(escaped_char(t, n))),
        RuleTag::InlineCommand => inline_command_kind(t, n),
        RuleTag::InlineMath | RuleTag::DisplayMath => math_kind(t, n),
        RuleTag::Style => {
            if c.len() >= 2 && c[0].rule == RuleTag::StyleMarker && c.last().rule == RuleTag::StyleMarker {
                KindModel::Style {
                    kind: style_of(node_text(t, c[0])),
                    children: lower_seq(t, c.subrange(1, c.len() - 1)),
                }
            } else {
                KindModel::Error { message: BAD_STYLE@, recovered: node_text(t, n) }
            }
        },
        RuleTag::Unclosed => KindModel::Error { message: UNCLOSED_MARKUP@, recovered: node_text(t, n) },
        RuleTag::Link => link_kind(t, n),
        _ => KindModel::Error { message: UNEXPECTED@, recovered: node_text(t, n) },
    };
    NodeModel { kind, span: span_of(n) }
}

/// The nodes that a sequence of parse-tree nodes lowers to, one for one.
pub open spec fn lower_seq(t: Seq<u8>, s: Seq<TreeModel>) -> Seq<NodeModel>
    decreases s,
{
    if s.len() == 0 {
        Seq::empty()
    } else {
        lower_seq(t, s.drop_last()).push(lower_node(t, s.last()))
    }
}

// ------------------------------------------------------------------ span layout

/// Lowering keeps the span of a well-formed tree and nests every node within its parent.
pub proof fn lemma_lower_nested(t: Seq<u8>, n: TreeModel)
    requires
        well_formed(n),
        n.end <= usize::MAX,
    ensures
        spans_nested(lower_node(t, n)),
        lower_node(t, n).span == span_of(n),
    decreases n,
{
    let c = n.children;
    let lo = n.start;
    let hi = n.end;
    match n.rule {
        RuleTag::Program | RuleTag::Paragraph | RuleTag::Quote | RuleTag::List => {
            lemma_lower_seq_nested(t, c, lo, hi);
        },
        RuleTag::Header | RuleTag::ListItem => {
            if c.len() >= 1 {
                lemma_laid_out_sub(c, lo, hi, 1, c.len() as int);
                assert(c.drop_first() =~= c.subrange(1, c.len() as int));
                lemma_lower_seq_nested(t, c.drop_first(), lo, hi);
            }
        },
        RuleTag::Style => {
            if c.len() >= 2 {
                lemma_laid_out_sub(c, lo, hi, 1, c.len() - 1);
                lemma_lower_seq_nested(t, c.subrange(1, c.len() - 1), lo, hi);
            }
        },
        _ => {},
    }
}

/// Lowering a laid-out sequence gives nodes nested in the same bounds, one for one.
pub proof fn lemma_lower_seq_nested(t: Seq<u8>, s: Seq<TreeModel>, lo: int, hi: int)
    requires
        laid_out(s, lo, hi),
        0 <= lo <= hi <= usize::MAX,
    ensures
        lower_seq(t, s).len() == s.len(),
        forall|i: int| 0 <= i < s.len() ==> #[trigger] lower_seq(t, s)[i] == lower_node(t, s[i]),
        nodes_nested(lower_seq(t, s), Span { start: lo as usize, end: hi as usize }),
    decreases s,
{
    if s.len() > 0 {
        let init = s.drop_last();
        lemma_laid_out_sub(s, lo, hi, 0, s.len() - 1);
        assert(init =~= s.subrange(0, s.len() - 1));
        lemma_lower_seq_nested(t, init, lo, hi);
        lemma_laid_out_at(s, lo, hi, s.len() - 1);
        lemma_lower_nested(t, s.last());
        let r = lower_seq(t, s);
        let prev = lower_seq(t, init);
        assert(r == prev.push(lower_node(t, s.last())));
        let span = Span { start: lo as usize, end: hi as usize };
        assert forall|i: int| 0 <= i < s.len() implies #[trigger] r[i] == lower_node(t, s[i]) by {
            if i < s.len() - 1 {
                assert(init[i] == s[i]);
            }
        }
        assert forall|i: int| 0 <= i < r.len() implies span.start <= #[trigger] r[i].span.start && r[i].span.end <= span.end by {
            lemma_laid_out_at(s, lo, hi, i);
            lemma_lower_span(t, s[i]);
        }
        assert forall|i: int| 0 <= i < r.len() - 1 implies #[trigger] r[i].span.end <= r[i + 1].span.start by {
            lemma_laid_out_at(s, lo, hi, i);
            lemma_laid_out_at(s, lo, hi, i + 1);
            lemma_lower_span(t, s[i]);
            lemma_lower_span(t, s[i + 1]);
        }
        assert forall|i: int| 0 <= i < r.len() implies spans_nested(#[trigger] r[i]) by {
            if i < s.len() - 1 {
                assert(prev[i] == r[i]);
            }
        }
    }
}

/// Lowering keeps the span of every node.
pub proof fn lemma_lower_span(t: Seq<u8>, n: TreeModel)
    ensures
        lower_node(t, n).span == span_of(n),
{
}

// ------------------------------------------------------------------ executable

fn text_at_x(t: &[u8], a: usize, b: usize) -> (r: String)
    ensures
        r@ == text_at(t@, a as int, b as int),
{
    if a <= b && b <= t.len() {
        let part = vstd::slice::slice_subrange(t, a, b);
        decode_lossy(part)
    } else {
        String::new()
    }
}

fn node_text_x(t: &[u8], n: &ParseTree) -> (r: String)
    ensures
        r@ == node_text(t@, n@),
{
    text_at_x(t, n.span.start, n.span.end)
}

fn error_x(t: &[u8], n: &ParseTree, message: &str) -> (r: ASTKind)
    ensures
        kind_model(r) == (KindModel::Error { message: message@, recovered: node_text(t@, n@) }),
{
    ASTKind::Error(ErrorNode { message: owned(message), recovered_text: node_text_x(t, n) })
}

pub open spec fn pow10(k: nat) -> nat
    decreases k,
{
    if k == 0 {
        1
    } else {
        10 * pow10((k - 1) as nat)
    }
}

proof fn lemma_decimal_bound(t: Seq<u8>, a: int, b: int)
    requires
        0 <= a <= b <= t.len(),
        forall|i: int| a <= i < b ==> is_digit(t[i]),
    ensures
        decimal(t, a, b) < pow10((b - a) as nat),
    decreases b - a,
{
    if a < b {
        lemma_decimal_bound(t, a, b - 1);
        let v = decimal(t, a, b - 1);
        let d = (t[b - 1] - 48u8) as nat;
        let p = pow10((b - 1 - a) as nat);
        assert(d <= 9);
        assert(v * 10 + d < 10 * p) by (nonlinear_arith)
            requires
                v < p,
                d <= 9,
        ;
    }
}

proof fn lemma_pow10_mono(j: nat, k: nat)
    requires
        j <= k,
    ensures
        pow10(j) <= pow10(k),
    decreases k,
{
    if j < k {
        lemma_pow10_mono(j, (k - 1) as nat);
    }
}

proof fn lemma_digit_run(t: Seq<u8>, p: int, e: int)
    requires
        0 <= p <= e <= t.len(),
    ensures
        forall|i: int| p <= i < p + digits(t, p, e) ==> is_digit(t[i]),
    decreases e - p,
{
    if p < e && is_digit(t[p]) {
        lemma_digit_run(t, p + 1, e);
    }
}

fn decimal_x(t: &[u8], a: usize, b: usize) -> (r: usize)
    requires
        a <= b <= t@.len(),
        b - a <= 9,
        forall|i: int| a <= i < b ==> is_digit(t@[i]),
    ensures
        r == decimal(t@, a as int, b as int),
{
    let mut v: usize = 0;
    let mut i = a;
    proof {
        reveal_with_fuel(pow10, 10);
    }
    while i < b
        invariant
            a <= i <= b <= t@.len(),
            b - a <= 9,
            forall|j: int| a <= j < b ==> is_digit(t@[j]),
            v == decimal(t@, a as int, i as int),
            pow10(8) == 100000000,
        decreases b - i,
    {
        proof {
            lemma_decimal_bound(t@, a as int, i as int);
            lemma_pow10_mono((i - a) as nat, 8);
        }
        v = v * 10 + (t[i] - 48u8) as usize;
        i += 1;
    }
    v
}

fn list_number_x(t: &[u8], n: &ParseTree) -> (r: Option<usize>)
    ensures
        r == list_number(t@, n@),
{
    proof {
        lemma_trees_model_index(n.children@);
    }
    if n.children.len() >= 1 && n.children[0].children.len() >= 1 {
        proof {
            lemma_trees_model_index(n.children@[0].children@);
        }
        let m = &n.children[0].children[0];
        let (s, e) = (m.span.start, m.span.end);
        if s <= e && e <= t.len() {
            let d = crate::parse::digits_x(t, s, e);
            proof {
                lemma_digits(t@, s as int, e as int);
                lemma_digit_run(t@, s as int, e as int);
            }
            if 1 <= d && d <= 9 {
                return Some(decimal_x(t, s, s + d));
            }
        }
    }
    None
}

fn is_align_cell_x(t: &[u8], a: usize, b: usize) -> (r: bool)
    ensures
        r == is_align_cell(t@, a as int, b as int),
{
    if !(a <= b && b <= t.len()) {
        return false;
    }
    let s = if a < b && t[a] == COLON {
        a + 1
    } else {
        a
    };
    let e = if s < b && t[b - 1] == COLON {
        b - 1
    } else {
        b
    };
    if s >= e {
        return false;
    }
    let ghost ss = if a < b && t@[a as int] == COLON { a + 1 } else { a as int };
    let ghost ee = if ss < b && t@[b - 1] == COLON { b - 1 } else { b as int };
    assert(s == ss && e == ee);
    let mut i = s;
    while i < e
        invariant
            a <= s <= i <= e <= b <= t@.len(),
            s == ss,
            e == ee,
            ss == (if a < b && t@[a as int] == COLON { a + 1 } else { a as int }),
            ee == (if ss < b && t@[b - 1] == COLON { b - 1 } else { b as int }),
            forall|j: int| s <= j < i ==> t@[j] == DASH,
        decreases e - i,
    {
        if t[i] != DASH {
            assert(!(forall|j: int| ss <= j < ee ==> t@[j] == DASH));
            return false;
        }
        i += 1;
    }
    true
}

fn align_of_x(t: &[u8], a: usize, b: usize) -> (r: TableAlignMode)
    requires
        a <= b <= t@.len(),
    ensures
        r == align_of(t@, a as int, b as int),
{
    if b - a >= 2 && t[a] == COLON && t[b - 1] == COLON {
        TableAlignMode::Center
    } else if b - a >= 1 && t[b - 1] == COLON {
        TableAlignMode::Right
    } else {
        TableAlignMode::Left
    }
}

fn row_texts_x(t: &[u8], row: &ParseTree) -> (r: Vec<String>)
    ensures
        strs_model(r@) == row_texts(t@, row@),
{
    proof {
        lemma_trees_model_index(row.children@);
    }
    let mut out: Vec<String> = Vec::new();
    let mut i: usize = 0;
    assert(row@.children == trees_model(row.children@));
    while i < row.children.len()
        invariant
            0 <= i <= row.children@.len(),
            row@.children == trees_model(row.children@),
            trees_model(row.children@).len() == row.children@.len(),
            forall|k: int| 0 <= k < row.children@.len() ==> #[trigger] trees_model(row.children@)[k] == tree_model(row.children@[k]),
            strs_model(out@) =~= Seq::new(i as nat, |k: int| node_text(t@, row@.children[k])),
        decreases row.children@.len() - i,
    {
        let s = node_text_x(t, &row.children[i]);
        assert(row@.children[i as int] == tree_model(row.children@[i as int]));
        assert(s@ == node_text(t@, row@.children[i as int]));
        let ghost old_out = out@;
        out.push(s);
        assert(strs_model(out@) == strs_model(old_out).push(s@));
        i += 1;
        assert(strs_model(out@) =~= Seq::new(i as nat, |k: int| node_text(t@, row@.children[k])));
    }
    out
}

fn is_align_row_x(t: &[u8], row: &ParseTree) -> (r: bool)
    ensures
        r == is_align_row(t@, row@),
{
    proof {
        lemma_trees_model_index(row.children@);
    }
    if row.children.len() == 0 {
        return false;
    }
    let mut i: usize = 0;
    assert(row@.children == trees_model(row.children@));
    while i < row.children.len()
        invariant
            0 <= i <= row.children@.len(),
            row@.children == trees_model(row.children@),
            trees_model(row.children@).len() == row.children@.len(),
            forall|k: int| 0 <= k < row.children@.len() ==> #[trigger] trees_model(row.children@)[k] == tree_model(row.children@[k]),
            forall|k: int| 0 <= k < i ==> is_align_cell(t@, #[trigger] row@.children[k].start, row@.children[k].end),
        decreases row.children@.len() - i,
    {
        if !is_align_cell_x(t, row.children[i].span.start, row.children[i].span.end) {
            assert(!is_align_cell(t@, row@.children[i as int].start, row@.children[i as int].end));
            return false;
        }
        i += 1;
    }
    true
}

fn table_x(t: &[u8], n: &ParseTree) -> (r: ASTKind)
    ensures
        kind_model(r) == table_model(t@, n@),
{
    proof {
        lemma_trees_model_index(n.children@);
    }
    let rows = &n.children;
    assert(n@.children == trees_model(rows@));
    let has_align = rows.len() >= 2 && is_align_row_x(t, &rows[1]);
    let body_from: usize = if has_align {
        2
    } else {
        1
    };
    let title = if rows.len() >= 1 {
        row_texts_x(t, &rows[0])
    } else {
        Vec::new()
    };
    let mut align: Vec<TableAlignMode> = Vec::new();
    if has_align {
        let cells = &rows[1].children;
        proof {
            lemma_trees_model_index(cells@);
        }
        let mut i: usize = 0;
        while i < cells.len()
            invariant
                0 <= i <= cells@.len(),
                has_align,
                rows@.len() >= 2,
                n@.children[1].children == trees_model(cells@),
                trees_model(cells@).len() == cells@.len(),
                forall|k: int| 0 <= k < cells@.len() ==> #[trigger] trees_model(cells@)[k] == tree_model(cells@[k]),
                align@ =~= Seq::new(i as nat, |k: int| align_of(t@, n@.children[1].children[k].start, n@.children[1].children[k].end)),
            decreases cells@.len() - i,
        {
            let (a, b) = (cells[i].span.start, cells[i].span.end);
            assert(n@.children[1].children[i as int] == tree_model(cells@[i as int]));
            let m = if a <= b && b <= t.len() {
                align_of_x(t, a, b)
            } else {
                TableAlignMode::Left
            };
            let ghost old_align = align@;
            align.push(m);
            assert(align@ == old_align.push(m));
            i += 1;
            assert(align@ =~= Seq::new(i as nat, |k: int| align_of(t@, n@.children[1].children[k].start, n@.children[1].children[k].end)));
        }
    }
    let mut content: Vec<Vec<String>> = Vec::new();
    let mut i: usize = body_from;
    while i < rows.len()
        invariant
            body_from <= i,
            i <= rows@.len() || i == body_from,
            n@.children == trees_model(rows@),
            trees_model(rows@).len() == rows@.len(),
            forall|k: int| 0 <= k < rows@.len() ==> #[trigger] trees_model(rows@)[k] == tree_model(rows@[k]),
            rows_model(content@) =~= Seq::new((i - body_from) as nat, |k: int| row_texts(t@, n@.children[k + body_from])),
        decreases rows@.len() - i,
    {
        let row = row_texts_x(t, &rows[i]);
        assert(n@.children[i as int] == tree_model(rows@[i as int]));
        let ghost old_content = content@;
        let ghost row_view = strs_model(row@);
        content.push(row);
        assert(rows_model(content@) == rows_model(old_content).push(row_view));
        i += 1;
        assert(rows_model(content@) =~= Seq::new((i - body_from) as nat, |k: int| row_texts(t@, n@.children[k + body_from])));
    }
    assert(rows_model(content@) =~= (if rows@.len() > body_from {
        Seq::new((rows@.len() - body_from) as nat, |k: int| row_texts(t@, n@.children[k + body_from]))
    } else {
        Seq::empty()
    }));
    assert(!has_align ==> align@ =~= Seq::<TableAlignMode>::empty());
    assert(rows@.len() < 1 ==> strs_model(title@) =~= Seq::<Seq<char>>::empty());
    ASTKind::TableView(TableNode { title, align, content })
}

fn escaped_char_x(t: &[u8], n: &ParseTree) -> (r: char)
    ensures
        r == escaped_char(t@, n@),
{
    if n.span.start < n.span.end {
        let s = text_at_x(t, n.span.start + 1, n.span.end);
        let mut chars = s.as_str().chars();
        match chars.next() {
            Some(c) => {
                assert(c == s@[0]);
                c
            },
            None => '\\',
        }
    } else {
        '\\'
    }
}

fn link_x(t: &[u8], n: &ParseTree) -> (r: ASTKind)
    ensures
        kind_model(r) == link_kind(t@, n@),
{
    proof {
        lemma_trees_model_index(n.children@);
    }
    if n.children.len() == 2 {
        let target = node_text_x(t, &n.children[1]);
        let label = if n.children[0].span.start < n.children[0].span.end {
            Some(node_text_x(t, &n.children[0]))
        } else {
            None
        };
        ASTKind::LinkNode(LinkNode { target, label })
    } else {
        error_x(t, n, BAD_LINK)
    }
}

fn code_x(t: &[u8], n: &ParseTree) -> (r: ASTKind)
    ensures
        kind_model(r) == code_kind(t@, n@),
{
    proof {
        lemma_trees_model_index(n.children@);
    }
    if n.children.len() == 2 {
        ASTKind::CodeNode(CodeNode { language: node_text_x(t, &n.children[0]), code: node_text_x(t, &n.children[1]) })
    } else {
        error_x(t, n, BAD_CODE)
    }
}

fn table_kind_x(t: &[u8], n: &ParseTree) -> (r: ASTKind)
    ensures
        kind_model(r) == table_kind(t@, n@),
{
    let c = &n.children;
    proof {
        lemma_trees_model_index(c@);
    }
    assert(n@.children == trees_model(c@));
    let mut i: usize = 0;
    while i < c.len()
        invariant
            0 <= i <= c@.len(),
            n@.children == trees_model(c@),
            trees_model(c@).len() == c@.len(),
            forall|k: int| 0 <= k < c@.len() ==> #[trigger] trees_model(c@)[k] == tree_model(c@[k]),
            forall|k: int| 0 <= k < i ==> (#[trigger] n@.children[k]).rule == RuleTag::TableRow,
        decreases c@.len() - i,
    {
        assert(n@.children[i as int] == tree_model(c@[i as int]));
        if c[i].rule != RuleTag::TableRow {
            return error_x(t, n, BAD_TABLE);
        }
        i += 1;
    }
    table_x(t, n)
}

fn all_digits_x(t: &[u8], a: usize, b: usize) -> (r: bool)
    requires
        a <= b <= t@.len(),
    ensures
        r == all_digits(t@, a as int, b as int),
{
    let mut i = a;
    while i < b
        invariant
            a <= i <= b <= t@.len(),
            all_digits(t@, a as int, i as int),
        decreases b - i,
    {
        if !(48u8 <= t[i] && t[i] <= 57u8) {
            return false;
        }
        i += 1;
    }
    true
}

fn scalar_x(t: &[u8], a: usize, b: usize) -> (r: Value)
    requires
        a < b <= t@.len(),
    ensures
        value_model(r) == scalar_of(t@, a as int, b as int),
{
    let s = text_at_x(t, a, b);
    let start = if t[a] == DASH || t[a] == PLUS {
        a + 1
    } else {
        a
    };
    if start < b && all_digits_x(t, start, b) {
        return Value::Integer(s);
    }
    let d = crate::parse::find_byte_x(t, start, b, DOT);
    if start < d && b - d > 1 && all_digits_x(t, start, d) && all_digits_x(t, d + 1, b) {
        return Value::Decimal(s);
    }
    if str_eq(s.as_str(), "true") {
        Value::Boolean(true)
    } else if str_eq(s.as_str(), "false") {
        Value::Boolean(false)
    } else {
        Value::String(s)
    }
}

fn top_level_x(t: &[u8], p: usize, e: usize, c: u8) -> (r: usize)
    requires
        p <= e <= t@.len(),
    ensures
        r == top_level(t@, p as int, e as int, c, 0),
        p <= r <= e,
{
    proof {
        lemma_top_level(t@, p as int, e as int, c, 0);
    }
    let mut i = p;
    let mut depth: usize = 0;
    while i < e
        invariant
            p <= i <= e <= t@.len(),
            depth <= i - p,
            top_level(t@, p as int, e as int, c, 0) == top_level(t@, i as int, e as int, c, depth as int),
        decreases e - i,
    {
        let b = t[i];
        if b == c && depth == 0 {
            return i;
        } else if b == LBRACKET || b == LBRACE {
            depth += 1;
        } else if (b == RBRACKET || b == RBRACE) && depth > 0 {
            depth -= 1;
        }
        i += 1;
    }
    e
}

/// The value of a command argument written as `[a, b)`.
fn literal_x(t: &[u8], a: usize, b: usize) -> (r: Value)
    ensures
        value_model(r) == literal_of(t@, a as int, b as int),
    decreases b - a, 0int,
{
    if !(a <= b && b <= t.len()) {
        return Value::Null;
    }
    let s = crate::parse::skip_spaces_x(t, a, b);
    let f = crate::parse::trim_end_x(t, s, b);
    if s >= f {
        Value::Null
    } else if f - s >= 2 && t[s] == LBRACKET && t[f - 1] == RBRACKET {
        Value::List(list_items_x(t, s + 1, f - 1))
    } else if f - s >= 2 && t[s] == LBRACE && t[f - 1] == RBRACE {
        Value::Dict(keep_latest(record_entries_x(t, s + 1, f - 1)))
    } else {
        scalar_x(t, s, f)
    }
}

fn list_items_x(t: &[u8], p: usize, e: usize) -> (r: Vec<Value>)
    requires
        p <= e <= t@.len(),
    ensures
        values_model(r@) == list_items(t@, p as int, e as int),
    decreases e - p, 1int,
{
    let mut out: Vec<Value> = Vec::new();
    let mut i = p;
    assert(values_model(out@) =~= Seq::<ValueModel>::empty());
    while i < e && !crate::parse::blank_from_x(t, i, e)
        invariant
            p <= i <= e <= t@.len(),
            values_model(out@) + list_items(t@, i as int, e as int) == list_items(t@, p as int, e as int),
        decreases e - i,
    {
        let c = top_level_x(t, i, e, COMMA);
        let v = literal_x(t, i, c);
        proof {
            lemma_values_model_push(out@, v);
        }
        let ghost before = values_model(out@);
        out.push(v);
        if c < e {
            assert(before + list_items(t@, i as int, e as int) =~= values_model(out@) + list_items(t@, c + 1, e as int));
            i = c + 1;
        } else {
            assert(list_items(t@, e as int, e as int) =~= Seq::<ValueModel>::empty());
            assert(before + list_items(t@, i as int, e as int) =~= values_model(out@) + list_items(t@, e as int, e as int));
            i = e;
        }
    }
    assert(list_items(t@, i as int, e as int) =~= Seq::<ValueModel>::empty());
    assert(values_model(out@) + list_items(t@, i as int, e as int) =~= values_model(out@));
    out
}

/// Keep, for each key, only its last entry.
fn keep_latest(raw: Vec<(String, Value)>) -> (r: Vec<(String, Value)>)
    ensures
        entries_model(r@) == latest_only(entries_model(raw@)),
{
    let ghost orig = entries_model(raw@);
    let mut raw = raw;
    let mut out: Vec<(String, Value)> = Vec::new();
    assert(entries_model(out@) =~= Seq::<(Seq<char>, ValueModel)>::empty());
    while raw.len() > 0
        invariant
            entries_model(out@) + latest_only(entries_model(raw@)) == latest_only(orig),
        decreases raw@.len(),
    {
        proof {
            lemma_entries_model_index(raw@);
        }
        let ghost rm = entries_model(raw@);
        let e = raw.remove(0);
        proof {
            lemma_entries_model_index(raw@);
            assert(entries_model(raw@) =~= rm.drop_first());
        }
        let mut later = false;
        let mut j: usize = 0;
        while j < raw.len()
            invariant
                0 <= j <= raw@.len(),
                entries_model(raw@) == rm.drop_first(),
                entries_model(raw@).len() == raw@.len(),
                forall|i: int| 0 <= i < raw@.len() ==> #[trigger] entries_model(raw@)[i] == (raw@[i].0@, value_model(raw@[i].1)),
                later == (exists|i: int| 0 <= i < j && (#[trigger] raw@[i]).0@ == e.0@),
            decreases raw@.len() - j,
        {
            if str_eq(raw[j].0.as_str(), e.0.as_str()) {
                later = true;
            }
            j += 1;
        }
        assert(later == has_key(rm.drop_first(), rm[0].0)) by {
            if later {
                let i = choose|i: int| 0 <= i < raw@.len() && (#[trigger] raw@[i]).0@ == e.0@;
                assert(rm.drop_first()[i].0 == rm[0].0);
            }
            if has_key(rm.drop_first(), rm[0].0) {
                let i = choose|i: int| 0 <= i < rm.drop_first().len() && (#[trigger] rm.drop_first()[i]).0 == rm[0].0;
                assert(raw@[i].0@ == e.0@);
            }
        }
        if !later {
            let ghost before = entries_model(out@);
            let ghost prev = out@;
            let ghost em = (e.0@, value_model(e.1));
            out.push(e);
            assert(out@.drop_last() =~= prev);
            assert(entries_model(out@) =~= before.push(em));
            assert(before + latest_only(rm) =~= entries_model(out@) + latest_only(rm.drop_first()));
        }
    }
    assert(entries_model(out@) + latest_only(entries_model(raw@)) =~= entries_model(out@));
    out
}

fn record_entries_x(t: &[u8], p: usize, e: usize) -> (r: Vec<(String, Value)>)
    requires
        p <= e <= t@.len(),
    ensures
        entries_model(r@) == record_entries(t@, p as int, e as int),
    decreases e - p, 1int,
{
    let mut out: Vec<(String, Value)> = Vec::new();
    let mut i = p;
    assert(entries_model(out@) =~= Seq::<(Seq<char>, ValueModel)>::empty());
    while i < e && !crate::parse::blank_from_x(t, i, e)
        invariant
            p <= i <= e <= t@.len(),
            entries_model(out@) + record_entries(t@, i as int, e as int) == record_entries(t@, p as int, e as int),
        decreases e - i,
    {
        let c = top_level_x(t, i, e, COMMA);
        let k = top_level_x(t, i, c, COLON);
        let ks = crate::parse::skip_spaces_x(t, i, k);
        let key = text_at_x(t, ks, crate::parse::trim_end_x(t, ks, k));
        let value = if k < c {
            literal_x(t, k + 1, c)
        } else {
            Value::Null
        };
        let entry = (key, value);
        let ghost before = entries_model(out@);
        let ghost prev = out@;
        out.push(entry);
        assert(out@.drop_last() =~= prev);
        assert(entries_model(out@) =~= before.push((entry.0@, value_model(entry.1))));
        if c < e {
            assert(before + record_entries(t@, i as int, e as int) =~= entries_model(out@) + record_entries(t@, c + 1, e as int));
            i = c + 1;
        } else {
            assert(record_entries(t@, e as int, e as int) =~= Seq::<(Seq<char>, ValueModel)>::empty());
            assert(before + record_entries(t@, i as int, e as int) =~= entries_model(out@) + record_entries(t@, e as int, e as int));
            i = e;
        }
    }
    assert(record_entries(t@, i as int, e as int) =~= Seq::<(Seq<char>, ValueModel)>::empty());
    assert(entries_model(out@) + record_entries(t@, i as int, e as int) =~= entries_model(out@));
    out
}

fn command_line_x(t: &[u8], n: &ParseTree) -> (r: ASTKind)
    ensures
        kind_model(r) == command_line_kind(t@, n@),
{
    let c = &n.children;
    proof {
        lemma_trees_model_index(c@);
    }
    if c.len() == 2 && c[0].rule == RuleTag::CommandName && c[1].rule == RuleTag::CommandRest {
        if c[0].span.start >= c[0].span.end {
            error_x(t, n, EMPTY_COMMAND)
        } else {
            let mut arguments: Vec<Value> = Vec::new();
            let (ra, rb) = (c[1].span.start, c[1].span.end);
            if ra < rb && rb <= t.len() {
                let arg = literal_x(t, ra, rb);
                proof {
                    lemma_values_model_push(arguments@, arg);
                }
                arguments.push(arg);
                assert(values_model(arguments@) =~= seq![literal_of(t@, ra as int, rb as int)]);
            } else if ra < rb {
                let arg = Value::Null;
                proof {
                    lemma_values_model_push(arguments@, arg);
                }
                arguments.push(arg);
                assert(values_model(arguments@) =~= seq![literal_of(t@, ra as int, rb as int)]);
            } else {
                assert(values_model(arguments@) =~= Seq::<ValueModel>::empty());
            }
            ASTKind::Command(CommandNode { name: node_text_x(t, &c[0]), arguments, body: None })
        }
    } else {
        error_x(t, n, BAD_COMMAND)
    }
}

fn inline_command_x(t: &[u8], n: &ParseTree) -> (r: ASTKind)
    ensures
        kind_model(r) == inline_command_kind(t@, n@),
{
    if n.span.end > n.span.start && n.span.end - n.span.start > 1 {
        let arguments: Vec<Value> = Vec::new();
        assert(values_model(arguments@) =~= Seq::<ValueModel>::empty());
        let name = text_at_x(t, n.span.start + 1, n.span.end);
        ASTKind::Command(CommandNode { name, arguments, body: None })
    } else {
        error_x(t, n, EMPTY_COMMAND)
    }
}

fn math_x(t: &[u8], n: &ParseTree) -> (r: ASTKind)
    ensures
        kind_model(r) == math_kind(t@, n@),
{
    proof {
        lemma_trees_model_index(n.children@);
    }
    if n.children.len() == 1 {
        let style = if n.rule == RuleTag::DisplayMath {
            MathStyle::Display
        } else {
            MathStyle::Inline
        };
        ASTKind::MathNode(MathNode { style, math: node_text_x(t, &n.children[0]) })
    } else {
        error_x(t, n, BAD_MATH)
    }
}

/// Lower the nodes `s[from..to]`.
fn lower_seq_x(t: &[u8], s: &Vec<ParseTree>, from: usize, to: usize) -> (r: Vec<ASTNode>)
    requires
        from <= to <= s@.len(),
    ensures
        nodes_model(r@) == lower_seq(t@, trees_model(s@).subrange(from as int, to as int)),
    decreases s@, 0int,
{
    proof {
        lemma_trees_model_index(s@);
    }
    let mut out: Vec<ASTNode> = Vec::new();
    let mut i = from;
    assert(trees_model(s@).subrange(from as int, from as int) =~= Seq::<TreeModel>::empty());
    while i < to
        invariant
            from <= i <= to <= s@.len(),
            trees_model(s@).len() == s@.len(),
            forall|k: int| 0 <= k < s@.len() ==> #[trigger] trees_model(s@)[k] == tree_model(s@[k]),
            nodes_model(out@) == lower_seq(t@, trees_model(s@).subrange(from as int, i as int)),
        decreases to - i,
    {
        assert(decreases_to!(s@ => s@[i as int]));
        let x = lower_node_x(t, &s[i]);
        proof {
            lemma_nodes_model_push(out@, x);
            assert(trees_model(s@).subrange(from as int, i + 1).drop_last() =~= trees_model(
                s@,
            ).subrange(from as int, i as int));
        }
        out.push(x);
        i += 1;
    }
    out
}

/// Lower one parse-tree node.
fn lower_node_x(t: &[u8], n: &ParseTree) -> (r: ASTNode)
    ensures
        r@ == lower_node(t@, n@),
    decreases n.children@, 1int,
{
    let c = &n.children;
    proof {
        lemma_trees_model_index(c@);
    }
    let ghost cm = trees_model(c@);
    assert(n@.children == cm);
    assert(cm.subrange(0, c@.len() as int) =~= cm);
    let len = c.len();
    let kind = match n.rule {
        RuleTag::Program => ASTKind::Statements(lower_seq_x(t, c, 0, len)),
        RuleTag::Paragraph => ASTKind::Paragraph(lower_seq_x(t, c, 0, len)),
        RuleTag::Quote => ASTKind::Quote(QuoteBlock { style: None, body: lower_seq_x(t, c, 0, len) }),
        RuleTag::Header => {
            if len >= 1 && c[0].rule == RuleTag::HeaderMarker && c[0].span.start <= c[0].span.end
                && 1 <= c[0].span.end - c[0].span.start && c[0].span.end - c[0].span.start <= 6 {
                assert(cm.drop_first() =~= cm.subrange(1, len as int));
                let level = (c[0].span.end - c[0].span.start) as u8;
                ASTKind::Header(Header { level, children: lower_seq_x(t, c, 1, len) })
            } else {
                error_x(t, n, BAD_HEADING)
            }
        },
        RuleTag::HorizontalRule => ASTKind::Delimiter(Delimiter::HorizontalRule),
        RuleTag::CodeBlock => code_x(t, n),
        RuleTag::UnclosedCode => error_x(t, n, UNCLOSED_CODE),
        RuleTag::List => {
            let first_item_number = list_number_x(t, n);
            ASTKind::ListView(ListNode { first_item_number, items: lower_seq_x(t, c, 0, len) })
        },
        RuleTag::ListItem => {
            if len >= 1 && c[0].rule == RuleTag::ListMarker {
                assert(cm.drop_first() =~= cm.subrange(1, len as int));
                ASTKind::Paragraph(lower_seq_x(t, c, 1, len))
            } else {
                error_x(t, n, BAD_ITEM)
            }
        },
        RuleTag::Table => table_kind_x(t, n),
        RuleTag::CommandLine => command_line_x(t, n),
        RuleTag::Text => ASTKind::TextSpan(TextKind::Normal(node_text_x(t, n))),
        RuleTag::SoftBreak => ASTKind::TextSpan(TextKind::SoftNewline),
        RuleTag::Escape => ASTKind::TextSpan(TextKind::Escaped(escaped_char_x(t, n))),
        RuleTag::InlineCommand => inline_command_x(t, n),
        RuleTag::InlineMath | RuleTag::DisplayMath => math_x(t, n),
        RuleTag::Style => {
            if len >= 2 && c[0].rule == RuleTag::StyleMarker && c[len - 1].rule == RuleTag::StyleMarker {
                let marker = node_text_x(t, &c[0]);
                let kind = StyleKind::from_marker(marker.as_str());
                ASTKind::StyledSpan(StyleNode { kind, children: lower_seq_x(t, c, 1, len - 1) })
            } else {
                error_x(t, n, BAD_STYLE)
            }
        },
        RuleTag::Unclosed => error_x(t, n, UNCLOSED_MARKUP),
        RuleTag::Link => link_x(t, n),
        _ => error_x(t, n, UNEXPECTED),
    };
    ASTNode { kind, span: n.span }
}

/// Lower a parse tree to the typed syntax tree. Lowering is total: it accepts every
/// tree, well formed or not, and keeps the span of each node it lowers.
pub fn lower(tree: &ParseTree, text: &[u8]) -> (r: ASTNode)
    ensures
        r@ == lower_node(text@, tree@),
        r.span == tree.span,
{
    lower_node_x(text, tree)
}

} // verus!
