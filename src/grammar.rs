use vstd::prelude::*;

verus! {

pub const BACKSLASH: u8 = 92;
pub const BACKTICK: u8 = 96;
pub const LBRACKET: u8 = 91;
pub const RBRACKET: u8 = 93;
pub const LPAREN: u8 = 40;
pub const RPAREN: u8 = 41;
pub const COLON: u8 = 58;
pub const COMMA: u8 = 44;
pub const LBRACE: u8 = 123;
pub const RBRACE: u8 = 125;
pub const CR: u8 = 13;
pub const DASH: u8 = 45;
pub const DOLLAR: u8 = 36;
pub const DOT: u8 = 46;
pub const GT: u8 = 62;
pub const HASH: u8 = 35;
pub const NEWLINE: u8 = 10;
pub const PIPE: u8 = 124;
pub const PLUS: u8 = 43;
pub const SPACE: u8 = 32;
pub const STAR: u8 = 42;
pub const TAB: u8 = 9;
pub const TILDE: u8 = 126;

/// The grammar rule that produced a parse-tree node.
#[derive(Clone, Copy, Debug, PartialEq, Eq, Structural, Hash)]
pub enum RuleTag {
    Program,
    Header,
    HeaderMarker,
    HorizontalRule,
    CodeBlock,
    UnclosedCode,
    CodeLanguage,
    CodeText,
    Quote,
    List,
    ListItem,
    ListMarker,
    Table,
    TableRow,
    TableCell,
    CommandLine,
    CommandName,
    CommandRest,
    Paragraph,
    Text,
    SoftBreak,
    Escape,
    InlineCommand,
    InlineMath,
    DisplayMath,
    MathText,
    Style,
    StyleMarker,
    Link,
    LinkLabel,
    LinkTarget,
    Unclosed,
}

/// How a line of text begins, which decides the block it opens.
#[derive(Clone, Copy, Debug, PartialEq, Eq, Structural)]
pub enum LineKind {
    Blank,
    Header,
    Rule,
    Fence,
    Quote,
    Item,
    Table,
    CommandLine,
    Text,
}

/// Model of a parse-tree node, with integer offsets.
pub struct TreeModel {
    pub rule: RuleTag,
    pub start: int,
    pub end: int,
    pub children: Seq<TreeModel>,
}

pub open spec fn leaf(rule: RuleTag, start: int, end: int) -> TreeModel {
    TreeModel { rule, start, end, children: Seq::empty() }
}

pub open spec fn is_space(b: u8) -> bool {
    b == SPACE || b == TAB || b == CR
}

pub open spec fn is_letter(b: u8) -> bool {
    (65u8 <= b && b <= 90u8) || (97u8 <= b && b <= 122u8)
}

pub open spec fn is_digit(b: u8) -> bool {
    48u8 <= b && b <= 57u8
}

/// Bytes that may open an inline construct or end a run of text.
pub open spec fn is_inline_special(b: u8) -> bool {
    b == NEWLINE || b == BACKSLASH || b == DOLLAR || b == STAR || b == TILDE || b == LBRACKET
}

/// The end of the line that holds `p`: the next newline, or the end of the text.
pub open spec fn line_end(t: Seq<u8>, p: int) -> int
    decreases t.len() - p,
{
    if p >= t.len() || t[p] == NEWLINE {
        p
    } else {
        line_end(t, p + 1)
    }
}

/// Where the text goes on after a line that ends at `e`.
pub open spec fn after(t: Seq<u8>, e: int) -> int {
    if e < t.len() {
        e + 1
    } else {
        e
    }
}

pub open spec fn next_line(t: Seq<u8>, p: int) -> int {
    after(t, line_end(t, p))
}

/// Length of the run of byte `c` that starts at `p` and stops before `e`.
pub open spec fn run(t: Seq<u8>, p: int, e: int, c: u8) -> int
    decreases e - p,
{
    if p < e && t[p] == c {
        1 + run(t, p + 1, e, c)
    } else {
        0
    }
}

/// Length of the run of ASCII letters that starts at `p`.
pub open spec fn letters(t: Seq<u8>, p: int, e: int) -> int
    decreases e - p,
{
    if p < e && is_letter(t[p]) {
        1 + letters(t, p + 1, e)
    } else {
        0
    }
}

/// Length of the run of ASCII digits that starts at `p`.
pub open spec fn digits(t: Seq<u8>, p: int, e: int) -> int
    decreases e - p,
{
    if p < e && is_digit(t[p]) {
        1 + digits(t, p + 1, e)
    } else {
        0
    }
}

/// `[p, e)` holds only spaces and tabs.
pub open spec fn blank_from(t: Seq<u8>, p: int, e: int) -> bool
    decreases e - p,
{
    p >= e || (is_space(t[p]) && blank_from(t, p + 1, e))
}

/// The first position at or after `p` that is not a space.
pub open spec fn skip_spaces(t: Seq<u8>, p: int, e: int) -> int
    decreases e - p,
{
    if p < e && is_space(t[p]) {
        skip_spaces(t, p + 1, e)
    } else {
        p
    }
}

/// `e` with the spaces before it, down to `s`, taken off.
pub open spec fn trim_end(t: Seq<u8>, s: int, e: int) -> int
    decreases e - s,
{
    if s < e && is_space(t[e - 1]) {
        trim_end(t, s, e - 1)
    } else {
        e
    }
}

/// The first position of byte `c` in `[p, e)`, or `e`.
pub open spec fn find_byte(t: Seq<u8>, p: int, e: int, c: u8) -> int
    decreases e - p,
{
    if p >= e || t[p] == c {
        p
    } else {
        find_byte(t, p + 1, e, c)
    }
}

/// The first `j` in `[p, e - n]` where `n` bytes `c` start, or `e` if there is none.
pub open spec fn find_run(t: Seq<u8>, p: int, e: int, c: u8, n: int) -> int
    decreases e - p,
{
    if p + n > e {
        e
    } else if run(t, p, e, c) >= n {
        p
    } else {
        find_run(t, p + 1, e, c, n)
    }
}

/// The first position in `[p, e)` that ends a run of text.
pub open spec fn text_end(t: Seq<u8>, p: int, e: int) -> int
    decreases e - p,
{
    if p >= e || is_inline_special(t[p]) {
        p
    } else {
        text_end(t, p + 1, e)
    }
}

/// The number of bytes of the UTF-8 sequence that the byte `b` leads.
pub open spec fn utf8_width(b: u8) -> int {
    if b >= 240u8 {
        4
    } else if b >= 224u8 {
        3
    } else if b >= 192u8 {
        2
    } else {
        1
    }
}

pub open spec fn min(a: int, b: int) -> int {
    if a <= b {
        a
    } else {
        b
    }
}

/// Where the marker of a list item ends, or `p` when the line is no list item.
pub open spec fn item_marker_end(t: Seq<u8>, p: int, e: int) -> int {
    let d = digits(t, p, e);
    if p + 1 < e && (t[p] == DASH || t[p] == PLUS) && t[p + 1] == SPACE {
        p + 1
    } else if 1 <= d && d <= 9 && p + d + 1 < e && t[p + d] == DOT && t[p + d + 1] == SPACE {
        p + d + 1
    } else {
        p
    }
}

/// The kind of the line that starts at `p`.
pub open spec fn line_kind(t: Seq<u8>, p: int) -> LineKind {
    let e = line_end(t, p);
    let h = run(t, p, e, HASH);
    if blank_from(t, p, e) {
        LineKind::Blank
    } else if h >= 1 && (p + h == e || is_space(t[p + h])) {
        LineKind::Header
    } else if run(t, p, e, DASH) >= 3 && p + run(t, p, e, DASH) == e {
        LineKind::Rule
    } else if run(t, p, e, BACKTICK) >= 3 {
        LineKind::Fence
    } else if t[p] == GT {
        LineKind::Quote
    } else if item_marker_end(t, p, e) > p {
        LineKind::Item
    } else if t[p] == PIPE {
        LineKind::Table
    } else if t[p] == BACKSLASH && p + 1 + letters(t, p + 1, e) < e && t[p + 1 + letters(t, p + 1, e)]
        == COLON {
        LineKind::CommandLine
    } else {
        LineKind::Text
    }
}

// ---------------------------------------------------------------- inline rules

/// Length of the marker that a run of `*` or `~` at `p` opens: the longest defined one.
pub open spec fn style_width(t: Seq<u8>, p: int, e: int) -> int {
    min(run(t, p, e, t[p]), 3)
}

/// Length of the marker that a run of `$` at `p` opens.
pub open spec fn math_width(t: Seq<u8>, p: int, e: int) -> int {
    min(run(t, p, e, DOLLAR), 2)
}

/// Where the closing bracket of a link that opens at `p` stands, or `e`.
pub open spec fn link_close(t: Seq<u8>, p: int, e: int) -> int {
    find_byte(t, p + 1, e, RBRACKET)
}

/// Where the closing parenthesis of the target of a link that opens at `p` stands, or `e`.
pub open spec fn link_target_end(t: Seq<u8>, p: int, e: int) -> int {
    find_byte(t, link_close(t, p, e) + 2, e, RPAREN)
}

/// `[label](target)` starts at `p`.
pub open spec fn is_link(t: Seq<u8>, p: int, e: int) -> bool {
    let k = link_close(t, p, e);
    k + 1 < e && t[k + 1] == LPAREN && link_target_end(t, p, e) < e
}

/// Where the inline construct that starts at `p` ends.
pub open spec fn inline_next(t: Seq<u8>, p: int, e: int) -> int {
    let b = t[p];
    if b == NEWLINE {
        p + 1
    } else if b == BACKSLASH {
        if p + 1 >= e {
            e
        } else if is_letter(t[p + 1]) {
            p + 1 + letters(t, p + 1, e)
        } else {
            min(p + 1 + utf8_width(t[p + 1]), e)
        }
    } else if b == DOLLAR {
        let n = math_width(t, p, e);
        let j = find_run(t, p + n, e, DOLLAR, n);
        if j + n <= e {
            j + n
        } else {
            e
        }
    } else if b == STAR || b == TILDE {
        let n = style_width(t, p, e);
        let j = find_run(t, p + n, e, b, n);
        if j + n <= e {
            j + n
        } else {
            e
        }
    } else if b == LBRACKET && is_link(t, p, e) {
        link_target_end(t, p, e) + 1
    } else {
        text_end(t, p + 1, e)
    }
}

/// The inline constructs of `[p, e)`, in order.
pub open spec fn inlines(t: Seq<u8>, p: int, e: int) -> Seq<TreeModel>
    decreases e - p, 1int,
{
    if p >= e || e > t.len() || p < 0 {
        Seq::empty()
    } else {
        let q = inline_next(t, p, e);
        if p < q && q <= e {
            seq![inline_node(t, p, e)] + inlines(t, q, e)
        } else {
            seq![inline_node(t, p, e)]
        }
    }
}

/// The inline construct that starts at `p`.
pub open spec fn inline_node(t: Seq<u8>, p: int, e: int) -> TreeModel
    decreases e - p, 0int,
{
    if p >= e || e > t.len() || p < 0 {
        leaf(RuleTag::Unclosed, p, p)
    } else {
        let b = t[p];
        let next = inline_next(t, p, e);
        if b == NEWLINE {
            leaf(RuleTag::SoftBreak, p, next)
        } else if b == BACKSLASH {
            if p + 1 < e && is_letter(t[p + 1]) {
                leaf(RuleTag::InlineCommand, p, next)
            } else {
                leaf(RuleTag::Escape, p, next)
            }
        } else if b == DOLLAR {
            let n = math_width(t, p, e);
            let j = find_run(t, p + n, e, DOLLAR, n);
            if j + n <= e {
                TreeModel {
                    rule: if n == 2 { RuleTag::DisplayMath } else { RuleTag::InlineMath },
                    start: p,
                    end: next,
                    children: seq![leaf(RuleTag::MathText, p + n, j)],
                }
            } else {
                leaf(RuleTag::Unclosed, p, e)
            }
        } else if b == STAR || b == TILDE {
            let n = style_width(t, p, e);
            let j = find_run(t, p + n, e, b, n);
            if j + n <= e && n >= 1 && p + n <= j {
                TreeModel {
                    rule: RuleTag::Style,
                    start: p,
                    end: next,
                    children: seq![leaf(RuleTag::StyleMarker, p, p + n)] + inlines(t, p + n, j)
                        + seq![leaf(RuleTag::StyleMarker, j, j + n)],
                }
            } else {
                leaf(RuleTag::Unclosed, p, e)
            }
        } else if b == LBRACKET && is_link(t, p, e) {
            let k = link_close(t, p, e);
            TreeModel {
                rule: RuleTag::Link,
                start: p,
                end: next,
                children: seq![
                    leaf(RuleTag::LinkLabel, p + 1, k),
                    leaf(RuleTag::LinkTarget, k + 2, link_target_end(t, p, e)),
                ],
            }
        } else {
            leaf(RuleTag::Text, p, next)
        }
    }
}

/// A line ends at or after where it is read from, and within the text.
pub proof fn lemma_line_end(t: Seq<u8>, p: int)
    requires
        0 <= p <= t.len(),
    ensures
        p <= line_end(t, p) <= t.len(),
        line_end(t, p) < t.len() ==> t[line_end(t, p)] == NEWLINE,
        forall|i: int| p <= i < line_end(t, p) ==> t[i] != NEWLINE,
    decreases t.len() - p,
{
    if p < t.len() && t[p] != NEWLINE {
        lemma_line_end(t, p + 1);
    }
}

// ---------------------------------------------------------------- scan bounds

pub proof fn lemma_run(t: Seq<u8>, p: int, e: int, c: u8)
    requires
        0 <= p <= e <= t.len(),
    ensures
        0 <= run(t, p, e, c) <= e - p,
        forall|i: int| p <= i < p + run(t, p, e, c) ==> t[i] == c,
    decreases e - p,
{
    if p < e && t[p] == c {
        lemma_run(t, p + 1, e, c);
    }
}

pub proof fn lemma_letters(t: Seq<u8>, p: int, e: int)
    requires
        0 <= p <= e <= t.len(),
    ensures
        0 <= letters(t, p, e) <= e - p,
    decreases e - p,
{
    if p < e && is_letter(t[p]) {
        lemma_letters(t, p + 1, e);
    }
}

pub proof fn lemma_digits(t: Seq<u8>, p: int, e: int)
    requires
        0 <= p <= e <= t.len(),
    ensures
        0 <= digits(t, p, e) <= e - p,
    decreases e - p,
{
    if p < e && is_digit(t[p]) {
        lemma_digits(t, p + 1, e);
    }
}

pub proof fn lemma_skip_spaces(t: Seq<u8>, p: int, e: int)
    requires
        0 <= p <= e <= t.len(),
    ensures
        p <= skip_spaces(t, p, e) <= e,
    decreases e - p,
{
    if p < e && is_space(t[p]) {
        lemma_skip_spaces(t, p + 1, e);
    }
}

pub proof fn lemma_trim_end(t: Seq<u8>, s: int, e: int)
    requires
        0 <= s <= e <= t.len(),
    ensures
        s <= trim_end(t, s, e) <= e,
    decreases e - s,
{
    if s < e && is_space(t[e - 1]) {
        lemma_trim_end(t, s, e - 1);
    }
}

pub proof fn lemma_find_byte(t: Seq<u8>, p: int, e: int, c: u8)
    requires
        0 <= p <= e <= t.len(),
    ensures
        p <= find_byte(t, p, e, c) <= e,
    decreases e - p,
{
    if !(p >= e || t[p] == c) {
        lemma_find_byte(t, p + 1, e, c);
    }
}

pub proof fn lemma_find_run(t: Seq<u8>, p: int, e: int, c: u8, n: int)
    requires
        0 <= p <= e <= t.len(),
    ensures
        p <= find_run(t, p, e, c, n) <= e,
    decreases e - p,
{
    if !(p + n > e) && !(run(t, p, e, c) >= n) {
        lemma_find_run(t, p + 1, e, c, n);
    }
}

pub proof fn lemma_text_end(t: Seq<u8>, p: int, e: int)
    requires
        0 <= p <= e <= t.len(),
    ensures
        p <= text_end(t, p, e) <= e,
    decreases e - p,
{
    if !(p >= e || is_inline_special(t[p])) {
        lemma_text_end(t, p + 1, e);
    }
}

/// Each inline construct takes at least one byte and stays within its range.
pub proof fn lemma_inline_next(t: Seq<u8>, p: int, e: int)
    requires
        0 <= p < e <= t.len(),
    ensures
        p < inline_next(t, p, e) <= e,
{
    let b = t[p];
    if b == BACKSLASH && p + 1 < e {
        lemma_letters(t, p + 1, e);
    } else if b == DOLLAR {
        lemma_run(t, p + 1, e, DOLLAR);
        assert(run(t, p, e, DOLLAR) == 1 + run(t, p + 1, e, DOLLAR));
        let n = math_width(t, p, e);
        lemma_find_run(t, p + n, e, DOLLAR, n);
    } else if b == STAR || b == TILDE {
        lemma_run(t, p + 1, e, b);
        assert(run(t, p, e, b) == 1 + run(t, p + 1, e, b));
        let n = style_width(t, p, e);
        lemma_find_run(t, p + n, e, b, n);
    } else if b == LBRACKET && is_link(t, p, e) {
        lemma_find_byte(t, p + 1, e, RBRACKET);
        lemma_find_byte(t, link_close(t, p, e) + 2, e, RPAREN);
    } else if b != NEWLINE && b != BACKSLASH {
        lemma_text_end(t, p + 1, e);
    }
}

/// A line that is not blank holds at least one byte.
pub proof fn lemma_nonblank(t: Seq<u8>, p: int)
    requires
        0 <= p <= t.len(),
        line_kind(t, p) != LineKind::Blank,
    ensures
        p < line_end(t, p) <= t.len(),
        p < t.len(),
{
    lemma_line_end(t, p);
}

pub proof fn lemma_fence_close(t: Seq<u8>, q: int)
    requires
        0 <= q <= t.len(),
    ensures
        q <= fence_close(t, q) <= t.len(),
    decreases t.len() - q,
{
    if q < t.len() && run(t, q, line_end(t, q), BACKTICK) < 3 {
        lemma_line_end(t, q);
        lemma_fence_close(t, next_line(t, q));
    }
}

pub proof fn lemma_group_end(t: Seq<u8>, p: int, k: LineKind)
    requires
        0 <= p <= t.len(),
    ensures
        line_end(t, p) <= group_end(t, p, k) <= t.len(),
        group_end(t, p, k) < t.len() ==> t[group_end(t, p, k)] == NEWLINE,
    decreases t.len() - p,
{
    lemma_line_end(t, p);
    let e = line_end(t, p);
    if e < t.len() && line_kind(t, e + 1) == k {
        lemma_group_end(t, e + 1, k);
        lemma_line_end(t, e + 1);
    }
}

/// A block that starts at a line takes at least one byte and ends within the text,
/// at a newline or at the end.
pub proof fn lemma_block_end(t: Seq<u8>, p: int)
    requires
        0 <= p < t.len(),
        line_kind(t, p) != LineKind::Blank,
    ensures
        p < block_end(t, p) <= t.len(),
        block_end(t, p) < t.len() ==> t[block_end(t, p)] == NEWLINE,
{
    lemma_nonblank(t, p);
    lemma_line_end(t, p);
    let k = line_kind(t, p);
    if k == LineKind::Fence {
        let e = line_end(t, p);
        let body = after(t, e);
        lemma_fence_close(t, body);
        let c = fence_close(t, body);
        if c < t.len() {
            lemma_line_end(t, c);
        }
    } else if k != LineKind::Header && k != LineKind::Rule && k != LineKind::CommandLine {
        lemma_group_end(t, p, k);
    }
}

// ----------------------------------------------------------------- block rules

/// The start of the line that closes a code fence, searching from the line at `q`;
/// the end of the text when no line does.
pub open spec fn fence_close(t: Seq<u8>, q: int) -> int
    decreases t.len() - q,
{
    if q < 0 || q >= t.len() {
        t.len() as int
    } else if run(t, q, line_end(t, q), BACKTICK) >= 3 {
        q
    } else {
        proof {
            lemma_line_end(t, q);
        }
        fence_close(t, next_line(t, q))
    }
}

/// The end of the last line, from the line at `p` on, that has kind `k` with no
/// other line between.
pub open spec fn group_end(t: Seq<u8>, p: int, k: LineKind) -> int
    decreases t.len() - p,
{
    let e = line_end(t, p);
    if 0 <= p && p <= t.len() && e < t.len() && line_kind(t, e + 1) == k {
        proof {
            lemma_line_end(t, p);
        }
        group_end(t, e + 1, k)
    } else {
        e
    }
}

/// A cell of a table row: the trimmed text of `[a, b)`.
pub open spec fn cell(t: Seq<u8>, a: int, b: int) -> TreeModel {
    let s = skip_spaces(t, a, b);
    leaf(RuleTag::TableCell, s, trim_end(t, s, b))
}

/// The cells of a table row from `q`, just after a `|`, to the line end `e`.
pub open spec fn cells(t: Seq<u8>, q: int, e: int) -> Seq<TreeModel>
    decreases e - q,
{
    let k = find_byte(t, q, e, PIPE);
    if q >= e {
        Seq::empty()
    } else if k >= e {
        if blank_from(t, q, e) {
            Seq::empty()
        } else {
            seq![cell(t, q, e)]
        }
    } else if q <= k {
        seq![cell(t, q, k)] + cells(t, k + 1, e)
    } else {
        Seq::empty()
    }
}

/// The inline content of a line from `a` to `e`, spaces trimmed off both ends.
pub open spec fn trimmed_inlines(t: Seq<u8>, a: int, e: int) -> Seq<TreeModel> {
    let s = skip_spaces(t, a, e);
    inlines(t, s, trim_end(t, s, e))
}

/// One line of a group: a quote line, a list item or a table row.
pub open spec fn group_line(t: Seq<u8>, p: int, k: LineKind) -> Seq<TreeModel> {
    let e = line_end(t, p);
    if k == LineKind::Quote {
        trimmed_inlines(t, p + 1, e)
    } else if k == LineKind::Item {
        let m = item_marker_end(t, p, e);
        seq![
            TreeModel {
                rule: RuleTag::ListItem,
                start: p,
                end: e,
                children: seq![leaf(RuleTag::ListMarker, p, m)] + trimmed_inlines(t, m, e),
            },
        ]
    } else {
        seq![TreeModel { rule: RuleTag::TableRow, start: p, end: e, children: cells(t, p + 1, e) }]
    }
}

/// The lines of a group, from the line at `p` on.
pub open spec fn group_lines(t: Seq<u8>, p: int, k: LineKind) -> Seq<TreeModel>
    decreases t.len() - p,
{
    let e = line_end(t, p);
    if 0 <= p && p <= t.len() && e < t.len() && line_kind(t, e + 1) == k {
        proof {
            lemma_line_end(t, p);
        }
        group_line(t, p, k) + group_lines(t, e + 1, k)
    } else {
        group_line(t, p, k)
    }
}

/// The rule of a group of lines of kind `k`.
pub open spec fn group_rule(k: LineKind) -> RuleTag {
    if k == LineKind::Quote {
        RuleTag::Quote
    } else if k == LineKind::Item {
        RuleTag::List
    } else if k == LineKind::Table {
        RuleTag::Table
    } else {
        RuleTag::Paragraph
    }
}

/// The block that starts at the line `p`, which is not blank.
pub open spec fn block_node(t: Seq<u8>, p: int) -> TreeModel {
    let e = line_end(t, p);
    let k = line_kind(t, p);
    if k == LineKind::Header {
        let h = run(t, p, e, HASH);
        TreeModel {
            rule: RuleTag::Header,
            start: p,
            end: e,
            children: seq![leaf(RuleTag::HeaderMarker, p, p + h)] + trimmed_inlines(t, p + h, e),
        }
    } else if k == LineKind::Rule {
        leaf(RuleTag::HorizontalRule, p, e)
    } else if k == LineKind::Fence {
        let ls = skip_spaces(t, p + run(t, p, e, BACKTICK), e);
        let lang = leaf(RuleTag::CodeLanguage, ls, trim_end(t, ls, e));
        let body = after(t, e);
        let c = fence_close(t, body);
        if c < t.len() {
            TreeModel {
                rule: RuleTag::CodeBlock,
                start: p,
                end: line_end(t, c),
                children: seq![lang, leaf(RuleTag::CodeText, body, if c > body { c - 1 } else { c })],
            }
        } else {
            TreeModel {
                rule: RuleTag::UnclosedCode,
                start: p,
                end: t.len() as int,
                children: seq![lang, leaf(RuleTag::CodeText, body, t.len() as int)],
            }
        }
    } else if k == LineKind::CommandLine {
        let colon = p + 1 + letters(t, p + 1, e);
        let rs = skip_spaces(t, colon + 1, e);
        TreeModel {
            rule: RuleTag::CommandLine,
            start: p,
            end: e,
            children: seq![
                leaf(RuleTag::CommandName, p + 1, colon),
                leaf(RuleTag::CommandRest, rs, trim_end(t, rs, e)),
            ],
        }
    } else if k == LineKind::Text {
        let pe = group_end(t, p, LineKind::Text);
        TreeModel {
            rule: RuleTag::Paragraph,
            start: p,
            end: pe,
            children: trimmed_inlines(t, p, pe),
        }
    } else {
        TreeModel {
            rule: group_rule(k),
            start: p,
            end: group_end(t, p, k),
            children: group_lines(t, p, k),
        }
    }
}

/// The end of the block that starts at the line `p`.
pub open spec fn block_end(t: Seq<u8>, p: int) -> int {
    block_node(t, p).end
}

/// The blocks from the line `p` on; blank lines separate them.
pub open spec fn blocks(t: Seq<u8>, p: int) -> Seq<TreeModel>
    decreases t.len() - p,
{
    if p < 0 || p >= t.len() {
        Seq::empty()
    } else if line_kind(t, p) == LineKind::Blank {
        let q = next_line(t, p);
        if p < q && q <= t.len() {
            blocks(t, q)
        } else {
            Seq::empty()
        }
    } else {
        let q = after(t, block_end(t, p));
        if p < q && q <= t.len() {
            seq![block_node(t, p)] + blocks(t, q)
        } else {
            seq![block_node(t, p)]
        }
    }
}

/// The parse tree of a whole document.
pub open spec fn program(t: Seq<u8>) -> TreeModel {
    TreeModel { rule: RuleTag::Program, start: 0, end: t.len() as int, children: blocks(t, 0) }
}

} // verus!

verus! {

// ---------------------------------------------------------------- tree layout

/// Each node of `s` lies within `[lo, hi]` and is well formed, and each ends before the
/// next begins.
pub open spec fn laid_out(s: Seq<TreeModel>, lo: int, hi: int) -> bool
    decreases s,
{
    &&& forall|i: int| 0 <= i < s.len() ==> lo <= #[trigger] s[i].start && s[i].end <= hi && well_formed(s[i])
    &&& forall|i: int| 0 <= i < s.len() - 1 ==> #[trigger] s[i].end <= s[i + 1].start
}

/// A node's range is in order and its children are laid out within it.
pub open spec fn well_formed(n: TreeModel) -> bool
    decreases n,
{
    0 <= n.start <= n.end && laid_out(n.children, n.start, n.end)
}

pub proof fn lemma_laid_out_one(x: TreeModel, lo: int, hi: int)
    requires
        well_formed(x),
        lo <= x.start,
        x.end <= hi,
    ensures
        laid_out(seq![x], lo, hi),
{
}

pub proof fn lemma_laid_out_at(s: Seq<TreeModel>, lo: int, hi: int, i: int)
    requires
        laid_out(s, lo, hi),
        0 <= i < s.len(),
    ensures
        lo <= s[i].start,
        s[i].end <= hi,
        well_formed(s[i]),
        i < s.len() - 1 ==> s[i].end <= s[i + 1].start,
{
}

pub proof fn lemma_laid_out_concat(a: Seq<TreeModel>, b: Seq<TreeModel>, lo: int, mid: int, hi: int)
    requires
        laid_out(a, lo, mid),
        laid_out(b, mid, hi),
        lo <= mid <= hi,
    ensures
        laid_out(a + b, lo, hi),
{
    let s = a + b;
    assert forall|i: int| 0 <= i < s.len() implies lo <= #[trigger] s[i].start && s[i].end <= hi && well_formed(s[i]) by {
        if i < a.len() {
            assert(s[i] == a[i]);
            lemma_laid_out_at(a, lo, mid, i);
        } else {
            assert(s[i] == b[i - a.len()]);
            assert(mid <= b[i - a.len()].start && b[i - a.len()].end <= hi && well_formed(b[i - a.len()]));
        }
    }
    assert forall|i: int| 0 <= i < s.len() - 1 implies #[trigger] s[i].end <= s[i + 1].start by {
        if i < a.len() - 1 {
            assert(s[i] == a[i] && s[i + 1] == a[i + 1]);
            assert(a[i].end <= a[i + 1].start);
        } else if i == a.len() - 1 {
            assert(s[i] == a[i] && s[i + 1] == b[0]);
            lemma_laid_out_at(a, lo, mid, i);
            assert(mid <= b[0].start);
        } else {
            let j = i - a.len();
            assert(s[i] == b[j] && s[i + 1] == b[j + 1]);
            assert(b[j].end <= b[j + 1].start);
        }
    }
}

pub proof fn lemma_laid_out_widen(s: Seq<TreeModel>, lo: int, hi: int, lo2: int, hi2: int)
    requires
        laid_out(s, lo, hi),
        lo2 <= lo,
        hi <= hi2,
    ensures
        laid_out(s, lo2, hi2),
{
}

pub proof fn lemma_laid_out_sub(s: Seq<TreeModel>, lo: int, hi: int, a: int, b: int)
    requires
        laid_out(s, lo, hi),
        0 <= a <= b <= s.len(),
    ensures
        laid_out(s.subrange(a, b), lo, hi),
{
    let r = s.subrange(a, b);
    assert forall|i: int| 0 <= i < r.len() - 1 implies #[trigger] r[i].end <= r[i + 1].start by {
        assert(r[i] == s[i + a] && r[i + 1] == s[i + a + 1]);
    }
}

/// An inline construct starts where it is read, ends where the next one starts, and is
/// well formed.
pub proof fn lemma_inline_node_wf(t: Seq<u8>, p: int, e: int)
    requires
        0 <= p < e <= t.len(),
    ensures
        well_formed(inline_node(t, p, e)),
        inline_node(t, p, e).start == p,
        inline_node(t, p, e).end == inline_next(t, p, e),
    decreases e - p, 0int,
{
    lemma_inline_next(t, p, e);
    let b = t[p];
    if b == DOLLAR {
        lemma_run(t, p + 1, e, DOLLAR);
        assert(run(t, p, e, DOLLAR) == 1 + run(t, p + 1, e, DOLLAR));
        let n = math_width(t, p, e);
        lemma_find_run(t, p + n, e, DOLLAR, n);
        let j = find_run(t, p + n, e, DOLLAR, n);
        if j + n <= e {
            lemma_laid_out_one(leaf(RuleTag::MathText, p + n, j), p, j + n);
        }
    } else if b == STAR || b == TILDE {
        lemma_run(t, p + 1, e, b);
        assert(run(t, p, e, b) == 1 + run(t, p + 1, e, b));
        let n = style_width(t, p, e);
        lemma_find_run(t, p + n, e, b, n);
        let j = find_run(t, p + n, e, b, n);
        if j + n <= e && n >= 1 && p + n <= j {
            let open = seq![leaf(RuleTag::StyleMarker, p, p + n)];
            let close = seq![leaf(RuleTag::StyleMarker, j, j + n)];
            lemma_laid_out_one(open[0], p, p + n);
            lemma_inlines_wf(t, p + n, j);
            lemma_laid_out_one(close[0], j, j + n);
            lemma_laid_out_concat(open, inlines(t, p + n, j), p, p + n, j);
            lemma_laid_out_concat(open + inlines(t, p + n, j), close, p, j, j + n);
        }
    } else if b == LBRACKET && is_link(t, p, e) {
        lemma_find_byte(t, p + 1, e, RBRACKET);
        let k = link_close(t, p, e);
        lemma_find_byte(t, k + 2, e, RPAREN);
        let m = link_target_end(t, p, e);
        let label = leaf(RuleTag::LinkLabel, p + 1, k);
        let target = leaf(RuleTag::LinkTarget, k + 2, m);
        lemma_laid_out_one(label, p, k);
        lemma_laid_out_one(target, k, m + 1);
        lemma_laid_out_concat(seq![label], seq![target], p, k, m + 1);
        assert(seq![label] + seq![target] =~= inline_node(t, p, e).children);
    }
}

/// The inline constructs of `[p, e)` are laid out within it.
pub proof fn lemma_inlines_wf(t: Seq<u8>, p: int, e: int)
    requires
        0 <= p <= e <= t.len(),
    ensures
        laid_out(inlines(t, p, e), p, e),
    decreases e - p, 1int,
{
    if p < e {
        lemma_inline_node_wf(t, p, e);
        lemma_inline_next(t, p, e);
        let q = inline_next(t, p, e);
        lemma_inlines_wf(t, q, e);
        lemma_laid_out_one(inline_node(t, p, e), p, q);
        lemma_laid_out_concat(seq![inline_node(t, p, e)], inlines(t, q, e), p, q, e);
    }
}

pub proof fn lemma_trimmed_inlines_wf(t: Seq<u8>, a: int, e: int)
    requires
        0 <= a <= e <= t.len(),
    ensures
        laid_out(trimmed_inlines(t, a, e), a, e),
{
    lemma_skip_spaces(t, a, e);
    let s = skip_spaces(t, a, e);
    lemma_trim_end(t, s, e);
    lemma_inlines_wf(t, s, trim_end(t, s, e));
    lemma_laid_out_widen(inlines(t, s, trim_end(t, s, e)), s, trim_end(t, s, e), a, e);
}

pub proof fn lemma_cells_wf(t: Seq<u8>, q: int, e: int)
    requires
        0 <= q <= e <= t.len(),
    ensures
        laid_out(cells(t, q, e), q, e),
    decreases e - q,
{
    lemma_find_byte(t, q, e, PIPE);
    let k = find_byte(t, q, e, PIPE);
    if q < e {
        if k >= e {
            if !blank_from(t, q, e) {
                lemma_skip_spaces(t, q, e);
                lemma_trim_end(t, skip_spaces(t, q, e), e);
                lemma_laid_out_one(cell(t, q, e), q, e);
            }
        } else {
            lemma_skip_spaces(t, q, k);
            lemma_trim_end(t, skip_spaces(t, q, k), k);
            lemma_laid_out_one(cell(t, q, k), q, k);
            lemma_cells_wf(t, k + 1, e);
            lemma_laid_out_concat(seq![cell(t, q, k)], cells(t, k + 1, e), q, k, e);
        }
    }
}

pub proof fn lemma_group_line_wf(t: Seq<u8>, p: int, k: LineKind)
    requires
        0 <= p <= t.len(),
        line_kind(t, p) == k,
        k == LineKind::Quote || k == LineKind::Item || k == LineKind::Table,
    ensures
        laid_out(group_line(t, p, k), p, line_end(t, p)),
{
    lemma_nonblank(t, p);
    let e = line_end(t, p);
    if k == LineKind::Quote {
        lemma_trimmed_inlines_wf(t, p + 1, e);
        lemma_laid_out_widen(trimmed_inlines(t, p + 1, e), p + 1, e, p, e);
    } else if k == LineKind::Item {
        lemma_digits(t, p, e);
        let m = item_marker_end(t, p, e);
        lemma_trimmed_inlines_wf(t, m, e);
        lemma_laid_out_one(leaf(RuleTag::ListMarker, p, m), p, m);
        lemma_laid_out_concat(seq![leaf(RuleTag::ListMarker, p, m)], trimmed_inlines(t, m, e), p, m, e);
        lemma_laid_out_one(group_line(t, p, k)[0], p, e);
    } else {
        lemma_cells_wf(t, p + 1, e);
        lemma_laid_out_widen(cells(t, p + 1, e), p + 1, e, p, e);
        lemma_laid_out_one(group_line(t, p, k)[0], p, e);
    }
}

pub proof fn lemma_group_lines_wf(t: Seq<u8>, p: int, k: LineKind)
    requires
        0 <= p <= t.len(),
        line_kind(t, p) == k,
        k == LineKind::Quote || k == LineKind::Item || k == LineKind::Table,
    ensures
        laid_out(group_lines(t, p, k), p, group_end(t, p, k)),
    decreases t.len() - p,
{
    lemma_line_end(t, p);
    lemma_group_line_wf(t, p, k);
    lemma_group_end(t, p, k);
    let e = line_end(t, p);
    if e < t.len() && line_kind(t, e + 1) == k {
        lemma_group_lines_wf(t, e + 1, k);
        lemma_laid_out_widen(group_lines(t, e + 1, k), e + 1, group_end(t, e + 1, k), e, group_end(t, e + 1, k));
        lemma_group_end(t, e + 1, k);
        lemma_line_end(t, e + 1);
        lemma_laid_out_concat(group_line(t, p, k), group_lines(t, e + 1, k), p, e, group_end(t, p, k));
    }
}

/// A block starts at its line, ends at `block_end`, and is well formed.
pub proof fn lemma_block_node_wf(t: Seq<u8>, p: int)
    requires
        0 <= p < t.len(),
        line_kind(t, p) != LineKind::Blank,
    ensures
        well_formed(block_node(t, p)),
        block_node(t, p).start == p,
{
    lemma_nonblank(t, p);
    lemma_block_end(t, p);
    let e = line_end(t, p);
    let k = line_kind(t, p);
    if k == LineKind::Header {
        lemma_run(t, p, e, HASH);
        let h = run(t, p, e, HASH);
        lemma_trimmed_inlines_wf(t, p + h, e);
        lemma_laid_out_one(leaf(RuleTag::HeaderMarker, p, p + h), p, p + h);
        lemma_laid_out_concat(seq![leaf(RuleTag::HeaderMarker, p, p + h)], trimmed_inlines(t, p + h, e), p, p + h, e);
    } else if k == LineKind::Fence {
        lemma_run(t, p, e, BACKTICK);
        let ls = skip_spaces(t, p + run(t, p, e, BACKTICK), e);
        lemma_skip_spaces(t, p + run(t, p, e, BACKTICK), e);
        lemma_trim_end(t, ls, e);
        let lang = leaf(RuleTag::CodeLanguage, ls, trim_end(t, ls, e));
        let body = after(t, e);
        lemma_fence_close(t, body);
        let c = fence_close(t, body);
        if c < t.len() {
            lemma_line_end(t, c);
            let te = if c > body { c - 1 } else { c };
            lemma_laid_out_one(lang, p, e);
            lemma_laid_out_one(leaf(RuleTag::CodeText, body, te), e, line_end(t, c));
            lemma_laid_out_concat(seq![lang], seq![leaf(RuleTag::CodeText, body, te)], p, e, line_end(t, c));
            assert(seq![lang] + seq![leaf(RuleTag::CodeText, body, te)] =~= block_node(t, p).children);
        } else {
            lemma_laid_out_one(lang, p, e);
            lemma_laid_out_one(leaf(RuleTag::CodeText, body, t.len() as int), e, t.len() as int);
            lemma_laid_out_concat(seq![lang], seq![leaf(RuleTag::CodeText, body, t.len() as int)], p, e, t.len() as int);
            assert(seq![lang] + seq![leaf(RuleTag::CodeText, body, t.len() as int)] =~= block_node(t, p).children);
        }
    } else if k == LineKind::CommandLine {
        lemma_letters(t, p + 1, e);
        let colon = p + 1 + letters(t, p + 1, e);
        lemma_skip_spaces(t, colon + 1, e);
        let rs = skip_spaces(t, colon + 1, e);
        lemma_trim_end(t, rs, e);
        let a = leaf(RuleTag::CommandName, p + 1, colon);
        let b = leaf(RuleTag::CommandRest, rs, trim_end(t, rs, e));
        lemma_laid_out_one(a, p, colon);
        lemma_laid_out_one(b, colon, e);
        lemma_laid_out_concat(seq![a], seq![b], p, colon, e);
        assert(seq![a] + seq![b] =~= block_node(t, p).children);
    } else if k == LineKind::Text {
        lemma_group_end(t, p, LineKind::Text);
        lemma_trimmed_inlines_wf(t, p, group_end(t, p, LineKind::Text));
    } else if k != LineKind::Rule {
        lemma_group_end(t, p, k);
        lemma_group_lines_wf(t, p, k);
    }
}

/// The blocks from the line `p` on are laid out within `[p, len]`.
pub proof fn lemma_blocks_wf(t: Seq<u8>, p: int)
    requires
        0 <= p <= t.len(),
    ensures
        laid_out(blocks(t, p), p, t.len() as int),
    decreases t.len() - p,
{
    if p < t.len() {
        if line_kind(t, p) == LineKind::Blank {
            lemma_line_end(t, p);
            let q = next_line(t, p);
            lemma_blocks_wf(t, q);
            lemma_laid_out_widen(blocks(t, q), q, t.len() as int, p, t.len() as int);
        } else {
            lemma_block_node_wf(t, p);
            lemma_block_end(t, p);
            let q = after(t, block_end(t, p));
            lemma_blocks_wf(t, q);
            lemma_laid_out_widen(blocks(t, q), q, t.len() as int, block_end(t, p), t.len() as int);
            lemma_laid_out_one(block_node(t, p), p, block_end(t, p));
            lemma_laid_out_concat(seq![block_node(t, p)], blocks(t, q), p, block_end(t, p), t.len() as int);
        }
    }
}

/// The parse tree of a document is well formed.
pub proof fn lemma_program_wf(t: Seq<u8>)
    ensures
        well_formed(program(t)),
{
    lemma_blocks_wf(t, 0);
}

} // verus!
