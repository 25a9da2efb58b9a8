use vstd::prelude::*;

use vstd::string::StringSliceAdditionalSpecFns;
use vstd::std_specs::iter::IteratorSpec;
use vstd::utf8::encode_utf8;

use crate::grammar::{
    is_space, lemma_line_end, line_end, program, run, skip_spaces, trim_end, RuleTag, TreeModel, BACKTICK, CR,
    NEWLINE, SPACE, TAB,
};
use crate::lower::{node_text, text_at};
use crate::parse::{lemma_trees_model_index, parse_program, tree_model, trees_model, ParseTree};
use crate::text::decode_lossy;
use crate::validate::push_str;

verus! {

/// Text with a space put between CJK characters and half-width letters, digits and
/// symbols.
pub uninterp spec fn pangu_spacing(s: Seq<char>) -> Seq<char>;

/// Relies on `pangu::spacing`: its result depends on the text alone.
#[verifier::external_body]
fn spacing(s: &str) -> (r: String)
    ensures
        r@ == pangu_spacing(s@),
{
    pangu::spacing(s).into_owned()
}

/// The number of spaces that `s` starts with.
pub open spec fn leading_spaces(s: Seq<char>) -> nat
    decreases s.len(),
{
    if s.len() > 0 && s[0] == ' ' {
        1 + leading_spaces(s.drop_first())
    } else {
        0
    }
}

/// Relies on `text_utils::indent_count`: it counts the spaces that start the text.
#[verifier::external_body]
fn count_indent(s: &str) -> (r: usize)
    ensures
        r == leading_spaces(s@),
{
    text_utils::indent_count(s)
}

/// Each non-blank line of `s` with `n` spaces put before it.
pub uninterp spec fn indented(s: Seq<char>, n: nat) -> Seq<char>;

/// Relies on `text_utils::indent` (`textwrap::indent` with `n` spaces as the prefix): the
/// result depends on the text and `n` alone, and with no spaces the text comes back as it is.
#[verifier::external_body]
fn indent_lines(s: &str, n: usize) -> (r: String)
    ensures
        r@ == indented(s@, n as nat),
        n == 0 ==> r@ == s@,
{
    text_utils::indent(s, n)
}

/// Each line of `s` with at most `n` leading white-space characters taken off.
pub uninterp spec fn dedented(s: Seq<char>, n: nat) -> Seq<char>;

/// Relies on `text_utils::dedent_less_than`: the result depends on the text and `n` alone.
#[verifier::external_body]
fn dedent_lines(s: &str, n: usize) -> (r: String)
    ensures
        r@ == dedented(s@, n as nat),
{
    text_utils::dedent_less_than(s, n)
}

/// A paragraph's formatted text, laid out at the indent `k` of its first line: the other
/// lines lose at most `k` leading spaces, then every non-blank line gets `k`.
pub open spec fn indent_paragraph(text: Seq<char>, k: nat) -> Seq<char> {
    if k == 0 {
        text
    } else {
        indented(dedented(text, k), k)
    }
}

/// How text is re-written.
#[derive(Clone, Copy, Debug, PartialEq, Eq, Structural)]
pub struct Settings {
    /// Spaces that stand for one tab.
    pub tab_size: usize,
    /// Put spaces between CJK and half-width text.
    pub pangu_space: bool,
}

impl Default for Settings {
    fn default() -> (r: Settings)
        ensures
            r.tab_size == 2,
            r.pangu_space,
    {
        Settings { tab_size: 2, pangu_space: true }
    }
}

/// The text with each tab widened to `n` spaces and each `\n\r` made `\n`.
pub open spec fn normalized(s: Seq<char>, n: nat) -> Seq<char>
    decreases s.len(),
{
    if s.len() == 0 {
        Seq::empty()
    } else if s[0] == '\t' {
        Seq::new(n, |i: int| ' ') + normalized(s.drop_first(), n)
    } else if s.len() >= 2 && s[0] == '\n' && s[1] == '\r' {
        seq!['\n'] + normalized(s.subrange(2, s.len() as int), n)
    } else {
        seq![s[0]] + normalized(s.drop_first(), n)
    }
}

/// `normalized` of the rest of a text whose last character read was a newline.
pub open spec fn normalized_after_newline(s: Seq<char>, n: nat) -> Seq<char> {
    if s.len() > 0 && s[0] == '\r' {
        normalized(s.drop_first(), n)
    } else {
        normalized(s, n)
    }
}

/// The written form of an inline construct.
pub open spec fn inline_text(st: Settings, t: Seq<u8>, n: TreeModel) -> Seq<char>
    decreases n, 0int,
{
    let c = n.children;
    if n.rule == RuleTag::Text {
        if st.pangu_space { pangu_spacing(node_text(t, n)) } else { node_text(t, n) }
    } else if n.rule == RuleTag::SoftBreak {
        "\n"@
    } else if n.rule == RuleTag::Style && c.len() >= 2 {
        node_text(t, c[0]) + inlines_text(st, t, c.subrange(1, c.len() - 1)) + node_text(t, c.last())
    } else {
        node_text(t, n)
    }
}

pub open spec fn inlines_text(st: Settings, t: Seq<u8>, s: Seq<TreeModel>) -> Seq<char>
    decreases s, 1int,
{
    if s.len() == 0 {
        Seq::empty()
    } else {
        inlines_text(st, t, s.drop_last()) + inline_text(st, t, s.last())
    }
}

/// ASCII white space, newlines included.
pub open spec fn is_ws(b: u8) -> bool {
    is_space(b) || b == NEWLINE
}

/// The first position at or after `p` that is not white space.
pub open spec fn skip_ws(t: Seq<u8>, p: int, e: int) -> int
    decreases e - p,
{
    if 0 <= p < e && e <= t.len() && is_ws(t[p]) {
        skip_ws(t, p + 1, e)
    } else {
        p
    }
}

/// `e` with the white space before it, down to `s`, taken off.
pub open spec fn trim_ws(t: Seq<u8>, s: int, e: int) -> int
    decreases e - s,
{
    if 0 <= s < e && e <= t.len() && is_ws(t[e - 1]) {
        trim_ws(t, s, e - 1)
    } else {
        e
    }
}

/// The text of `[a, b)` with white space trimmed off both ends.
pub open spec fn trimmed_text(t: Seq<u8>, a: int, b: int) -> Seq<char> {
    let s = skip_ws(t, a, b);
    text_at(t, s, trim_ws(t, s, b))
}

/// The fence of a code block that starts at `p`: as many backticks as open it.
pub open spec fn fence(t: Seq<u8>, p: int) -> Seq<char> {
    Seq::new(run(t, p, line_end(t, p), BACKTICK) as nat, |i: int| '`')
}

/// One line of a quote that starts at `p` and ends at `e`: `> ` and its content.
pub open spec fn quote_line(st: Settings, t: Seq<u8>, p: int, e: int) -> Seq<char> {
    let a = if p < e { p + 1 } else { p };
    let s = skip_spaces(t, a, e);
    let content = text_at(t, s, trim_end(t, s, e));
    "> "@ + if st.pangu_space { pangu_spacing(content) } else { content }
}

/// The lines of a quote from the line `p` to `end`, each as `quote_line`.
pub open spec fn quote_text(st: Settings, t: Seq<u8>, p: int, end: int) -> Seq<char>
    decreases end - p,
{
    if p < 0 || p > end || end > t.len() {
        Seq::empty()
    } else {
        let e = line_end(t, p);
        proof {
            lemma_line_end(t, p);
        }
        if e < end {
            quote_line(st, t, p, e) + "\n"@ + quote_text(st, t, e + 1, end)
        } else {
            quote_line(st, t, p, end)
        }
    }
}

/// The written form of a block.
pub open spec fn block_text(st: Settings, t: Seq<u8>, b: TreeModel) -> Seq<char> {
    let c = b.children;
    if b.rule == RuleTag::Header && c.len() >= 1 {
        let level: nat = if c[0].start <= c[0].end { (c[0].end - c[0].start) as nat } else { 0 };
        Seq::new(level, |i: int| '#') + " "@ + inlines_text(st, t, c.drop_first())
    } else if b.rule == RuleTag::Paragraph {
        indent_paragraph(inlines_text(st, t, c), leading_spaces(node_text(t, b)))
    } else if b.rule == RuleTag::CodeBlock && c.len() == 2 {
        fence(t, b.start) + node_text(t, c[0]) + "\n"@ + trimmed_text(t, c[1].start, c[1].end) + "\n"@
            + fence(t, b.start)
    } else if b.rule == RuleTag::Quote {
        quote_text(st, t, b.start, b.end)
    } else if b.rule == RuleTag::CommandLine && c.len() == 2 {
        "\\"@ + node_text(t, c[0]) + ": "@ + node_text(t, c[1])
    } else {
        node_text(t, b)
    }
}

/// Whether a blank line stands in `[a, b)`: two newlines or more.
pub open spec fn newlines(t: Seq<u8>, a: int, b: int) -> nat
    decreases b - a,
{
    if a >= b || a < 0 || b > t.len() {
        0
    } else {
        newlines(t, a, b - 1) + if t[b - 1] == NEWLINE { 1nat } else { 0nat }
    }
}

/// What stands between two blocks: a blank line when there was one, else a newline.
pub open spec fn separator(t: Seq<u8>, a: int, b: int) -> Seq<char> {
    if newlines(t, a, b) >= 2 { "\n\n"@ } else { "\n"@ }
}

/// The written form of the blocks `s`, each after the separator from the one before.
pub open spec fn blocks_text(st: Settings, t: Seq<u8>, s: Seq<TreeModel>) -> Seq<char>
    decreases s.len(),
{
    if s.len() == 0 {
        Seq::empty()
    } else if s.len() == 1 {
        block_text(st, t, s[0])
    } else {
        blocks_text(st, t, s.drop_last()) + separator(t, s[s.len() - 2].end, s.last().start)
            + block_text(st, t, s.last())
    }
}

/// `s` ending with a newline, unless it is empty.
pub open spec fn with_final_newline(s: Seq<char>) -> Seq<char> {
    if s.len() > 0 && s.last() != '\n' { s.push('\n') } else { s }
}

/// The formatted text of a document.
pub open spec fn program_text(st: Settings, t: Seq<u8>) -> Seq<char> {
    with_final_newline(blocks_text(st, t, program(t).children))
}

// ------------------------------------------------------------------ executable

fn node_text_x(t: &[u8], n: &ParseTree) -> (r: String)
    ensures
        r@ == node_text(t@, n@),
{
    let (a, b) = (n.span.start, n.span.end);
    if a <= b && b <= t.len() {
        decode_lossy(vstd::slice::slice_subrange(t, a, b))
    } else {
        String::new()
    }
}

fn push_repeat(out: &mut String, c: char, n: usize)
    ensures
        final(out)@ == old(out)@ + Seq::new(n as nat, |i: int| c),
{
    let mut k: usize = 0;
    while k < n
        invariant
            0 <= k <= n,
            out@ == old(out)@ + Seq::new(k as nat, |i: int| c),
        decreases n - k,
    {
        crate::validate::push_char(out, c);
        k += 1;
        assert(out@ =~= old(out)@ + Seq::new(k as nat, |i: int| c));
    }
}

fn skip_ws_x(t: &[u8], p: usize, e: usize) -> (r: usize)
    ensures
        r == skip_ws(t@, p as int, e as int),
{
    if !(e <= t.len()) {
        return p;
    }
    let mut i = p;
    while i < e && (t[i] == SPACE || t[i] == TAB || t[i] == CR || t[i] == NEWLINE)
        invariant
            p <= i,
            e <= t@.len(),
            i <= e || i == p,
            skip_ws(t@, p as int, e as int) == skip_ws(t@, i as int, e as int),
        decreases e - i,
    {
        i += 1;
    }
    i
}

fn trim_ws_x(t: &[u8], s: usize, e: usize) -> (r: usize)
    ensures
        r == trim_ws(t@, s as int, e as int),
{
    if !(e <= t.len()) {
        return e;
    }
    let mut i = e;
    while i > s && (t[i - 1] == SPACE || t[i - 1] == TAB || t[i - 1] == CR || t[i - 1] == NEWLINE)
        invariant
            i <= e <= t@.len(),
            trim_ws(t@, s as int, e as int) == trim_ws(t@, s as int, i as int),
        decreases i,
    {
        i -= 1;
    }
    i
}

fn text_at_x(t: &[u8], a: usize, b: usize) -> (r: String)
    ensures
        r@ == text_at(t@, a as int, b as int),
{
    if a <= b && b <= t.len() {
        decode_lossy(vstd::slice::slice_subrange(t, a, b))
    } else {
        String::new()
    }
}

fn push_fence(t: &[u8], p: usize, out: &mut String)
    ensures
        final(out)@ == old(out)@ + fence(t@, p as int),
{
    let n = if p <= t.len() {
        let e = crate::parse::line_end_x(t, p);
        crate::parse::run_x(t, p, e, BACKTICK)
    } else {
        0
    };
    push_repeat(out, '`', n);
}


impl Settings {
    fn inline_x(&self, t: &[u8], n: &ParseTree, out: &mut String)
        ensures
            final(out)@ == old(out)@ + inline_text(*self, t@, n@),
        decreases n.children@, 1int,
    {
        let c = &n.children;
        proof {
            lemma_trees_model_index(c@);
        }
        assert(n@.children == trees_model(c@));
        if n.rule == RuleTag::Text {
            let s = node_text_x(t, n);
            if self.pangu_space {
                let spaced = spacing(s.as_str());
                push_str(out, spaced.as_str());
            } else {
                push_str(out, s.as_str());
            }
        } else if n.rule == RuleTag::SoftBreak {
            push_str(out, "\n");
        } else if n.rule == RuleTag::Style && c.len() >= 2 {
            let open = node_text_x(t, &c[0]);
            push_str(out, open.as_str());
            let ghost mid = out@;
            self.inlines_x(t, c, 1, c.len() - 1, out);
            let close = node_text_x(t, &c[c.len() - 1]);
            push_str(out, close.as_str());
            assert(out@ =~= old(out)@ + inline_text(*self, t@, n@));
        } else {
            let s = node_text_x(t, n);
            push_str(out, s.as_str());
        }
    }

    fn inlines_x(&self, t: &[u8], s: &Vec<ParseTree>, from: usize, to: usize, out: &mut String)
        requires
            from <= to <= s@.len(),
        ensures
            final(out)@ == old(out)@ + inlines_text(*self, t@, trees_model(s@).subrange(from as int, to as int)),
        decreases s@, 0int,
    {
        proof {
            lemma_trees_model_index(s@);
        }
        let ghost start = out@;
        let mut i = from;
        assert(trees_model(s@).subrange(from as int, from as int) =~= Seq::<TreeModel>::empty());
        assert(start =~= start + inlines_text(*self, t@, Seq::<TreeModel>::empty()));
        while i < to
            invariant
                from <= i <= to <= s@.len(),
                trees_model(s@).len() == s@.len(),
                forall|k: int| 0 <= k < s@.len() ==> #[trigger] trees_model(s@)[k] == tree_model(s@[k]),
                out@ == start + inlines_text(*self, t@, trees_model(s@).subrange(from as int, i as int)),
            decreases to - i,
        {
            assert(decreases_to!(s@ => s@[i as int]));
            self.inline_x(t, &s[i], out);
            assert(trees_model(s@).subrange(from as int, i + 1).drop_last() =~= trees_model(s@).subrange(from as int, i as int));
            assert(out@ =~= start + inlines_text(*self, t@, trees_model(s@).subrange(from as int, i + 1)));
            i += 1;
        }
    }

    fn quote_line_x(&self, t: &[u8], p: usize, e: usize, out: &mut String)
        requires
            p <= e <= t@.len(),
        ensures
            final(out)@ == old(out)@ + quote_line(*self, t@, p as int, e as int),
    {
        let a = if p < e {
            p + 1
        } else {
            p
        };
        let s = crate::parse::skip_spaces_x(t, a, e);
        let content = text_at_x(t, s, crate::parse::trim_end_x(t, s, e));
        push_str(out, "> ");
        if self.pangu_space {
            let spaced = spacing(content.as_str());
            push_str(out, spaced.as_str());
        } else {
            push_str(out, content.as_str());
        }
        assert(out@ =~= old(out)@ + quote_line(*self, t@, p as int, e as int));
    }

    fn quote_x(&self, t: &[u8], p: usize, end: usize, out: &mut String)
        ensures
            final(out)@ == old(out)@ + quote_text(*self, t@, p as int, end as int),
    {
        if !(p <= end && end <= t.len()) {
            assert(old(out)@ + quote_text(*self, t@, p as int, end as int) =~= old(out)@);
            return;
        }
        let ghost start = out@;
        let mut i = p;
        loop
            invariant_except_break
                start + quote_text(*self, t@, p as int, end as int) == out@ + quote_text(*self, t@, i as int, end as int),
            invariant
                p <= i <= end <= t@.len(),
            ensures
                start + quote_text(*self, t@, p as int, end as int) == out@,
            decreases end - i,
        {
            let e = crate::parse::line_end_x(t, i);
            let ghost before = out@;
            if e < end {
                self.quote_line_x(t, i, e, out);
                push_str(out, "\n");
                assert(before + quote_text(*self, t@, i as int, end as int) =~= out@ + quote_text(*self, t@, e + 1, end as int));
                i = e + 1;
            } else {
                self.quote_line_x(t, i, end, out);
                assert(before + quote_text(*self, t@, i as int, end as int) =~= out@);
                break;
            }
        }
    }

    fn block_x(&self, t: &[u8], b: &ParseTree, out: &mut String)
        ensures
            final(out)@ == old(out)@ + block_text(*self, t@, b@),
    {
        let c = &b.children;
        proof {
            lemma_trees_model_index(c@);
        }
        assert(b@.children == trees_model(c@));
        assert(trees_model(c@).subrange(0, c@.len() as int) =~= trees_model(c@));
        if b.rule == RuleTag::Header && c.len() >= 1 {
            let level = if c[0].span.start <= c[0].span.end {
                c[0].span.end - c[0].span.start
            } else {
                0
            };
            assert(c@[0]@ == trees_model(c@)[0]);
            push_repeat(out, '#', level);
            push_str(out, " ");
            assert(trees_model(c@).drop_first() =~= trees_model(c@).subrange(1, c@.len() as int));
            self.inlines_x(t, c, 1, c.len(), out);
            assert(out@ =~= old(out)@ + block_text(*self, t@, b@));
        } else if b.rule == RuleTag::Paragraph {
            let mut body = String::new();
            self.inlines_x(t, c, 0, c.len(), &mut body);
            assert(body@ =~= inlines_text(*self, t@, trees_model(c@)));
            let k = count_indent(node_text_x(t, b).as_str());
            if k == 0 {
                push_str(out, body.as_str());
            } else {
                let d = dedent_lines(body.as_str(), k);
                let laid = indent_lines(d.as_str(), k);
                push_str(out, laid.as_str());
            }
        } else if b.rule == RuleTag::CodeBlock && c.len() == 2 {
            push_fence(t, b.span.start, out);
            push_str(out, node_text_x(t, &c[0]).as_str());
            push_str(out, "\n");
            let s = skip_ws_x(t, c[1].span.start, c[1].span.end);
            let code = text_at_x(t, s, trim_ws_x(t, s, c[1].span.end));
            push_str(out, code.as_str());
            push_str(out, "\n");
            push_fence(t, b.span.start, out);
            assert(out@ =~= old(out)@ + block_text(*self, t@, b@));
        } else if b.rule == RuleTag::Quote {
            self.quote_x(t, b.span.start, b.span.end, out);
        } else if b.rule == RuleTag::CommandLine && c.len() == 2 {
            push_str(out, "\\");
            push_str(out, node_text_x(t, &c[0]).as_str());
            push_str(out, ": ");
            push_str(out, node_text_x(t, &c[1]).as_str());
            assert(out@ =~= old(out)@ + block_text(*self, t@, b@));
        } else {
            push_str(out, node_text_x(t, b).as_str());
        }
    }

    /// Re-write a document: tabs widened to `tab_size` spaces and `\n\r` made `\n`, then
    /// formatted as `format_program` does.
    pub fn format(&self, text: &str) -> (r: String)
        ensures
            r@ == program_text(*self, encode_utf8(normalized(text@, self.tab_size as nat))),
    {
        broadcast use vstd::string::axiom_spec_iter, vstd::string::next_postcondition;

        let n = self.tab_size;
        let ghost s = text@;
        let mut it = text.chars();
        let mut out = String::new();
        let mut pending = false;
        let ghost mut k: int = 0;
        assert(s.subrange(0, s.len() as int) =~= s);
        assert(out@ + normalized(s, n as nat) =~= normalized(s, n as nat));
        loop
            invariant
                0 <= k <= s.len(),
                it.remaining() == s.subrange(k, s.len() as int),
                it.decrease() is Some,
                n == self.tab_size,
                normalized(s, n as nat) == out@ + (if pending {
                    normalized_after_newline(s.subrange(k, s.len() as int), n as nat)
                } else {
                    normalized(s.subrange(k, s.len() as int), n as nat)
                }),
            ensures
                k == s.len(),
                normalized(s, n as nat) == out@,
            decreases it.decrease()->0,
        {
            let ghost rest = s.subrange(k, s.len() as int);
            match it.next() {
                Some(c) => {
                    proof {
                        assert(rest.drop_first() =~= s.subrange(k + 1, s.len() as int));
                        if rest.len() >= 2 {
                            assert(rest.subrange(2, rest.len() as int) =~= rest.drop_first().drop_first());
                        }
                    }
                    let ghost before = out@;
                    if pending && c == '\r' {
                        pending = false;
                    } else if c == '\t' {
                        let mut j: usize = 0;
                        while j < n
                            invariant
                                0 <= j <= n,
                                out@ == before + Seq::new(j as nat, |i: int| ' '),
                            decreases n - j,
                        {
                            crate::validate::push_char(&mut out, ' ');
                            j += 1;
                            assert(out@ =~= before + Seq::new(j as nat, |i: int| ' '));
                        }
                        pending = false;
                        assert(before + normalized(rest, n as nat) =~= out@ + normalized(rest.drop_first(), n as nat));
                    } else {
                        crate::validate::push_char(&mut out, c);
                        if c == '\n' {
                            pending = true;
                            assert(before + normalized(rest, n as nat) =~= out@ + normalized_after_newline(rest.drop_first(), n as nat));
                        } else {
                            pending = false;
                            assert(before + normalized(rest, n as nat) =~= out@ + normalized(rest.drop_first(), n as nat));
                        }
                    }
                    proof {
                        k = k + 1;
                    }
                },
                None => {
                    assert(out@ + normalized(rest, n as nat) =~= out@);
                    assert(out@ + normalized_after_newline(rest, n as nat) =~= out@);
                    break;
                },
            }
        }
        self.format_program(out.as_str())
    }

    /// Format a document: each heading as its markers, a space and its text; paragraphs
    /// with CJK spacing when `pangu_space` is set; code blocks with three backticks; command
    /// lines as `\name: rest`; other blocks as written. Blocks are separated by one newline,
    /// or by one blank line where there was at least one, and the result ends with a newline.
    pub fn format_program(&self, text: &str) -> (r: String)
        ensures
            r@ == program_text(*self, encode_utf8(text@)),
    {
        let t = text.as_bytes();
        let tree = parse_program(t);
        let blocks = &tree.children;
        proof {
            lemma_trees_model_index(blocks@);
        }
        let ghost bm = trees_model(blocks@);
        let mut out = String::new();
        let mut i: usize = 0;
        assert(bm.subrange(0, 0) =~= Seq::<TreeModel>::empty());
        while i < blocks.len()
            invariant
                0 <= i <= blocks@.len(),
                bm == trees_model(blocks@),
                bm.len() == blocks@.len(),
                forall|k: int| 0 <= k < blocks@.len() ==> #[trigger] bm[k] == tree_model(blocks@[k]),
                out@ == blocks_text(*self, t@, bm.subrange(0, i as int)),
            decreases blocks@.len() - i,
        {
            let ghost before = out@;
            if i > 0 {
                let a = blocks[i - 1].span.end;
                let b = blocks[i].span.start;
                let n = newlines_x(t, a, b);
                if n >= 2 {
                    push_str(&mut out, "\n\n");
                } else {
                    push_str(&mut out, "\n");
                }
            }
            self.block_x(t, &blocks[i], &mut out);
            proof {
                let sub = bm.subrange(0, i + 1);
                assert(sub.drop_last() =~= bm.subrange(0, i as int));
                if i > 0 {
                    assert(sub[sub.len() - 2] == bm[i - 1]);
                }
            }
            i += 1;
        }
        assert(bm.subrange(0, blocks@.len() as int) =~= bm);
        assert(program(t@).children == bm);
        let ends_with_newline = ends_with_newline_x(&out);
        if !ends_with_newline {
            let ghost before = out@;
            push_str(&mut out, "\n");
            proof {
                reveal_strlit("\n");
                assert(out@ =~= before.push('\n'));
            }
        }
        out
    }
}

fn newlines_x(t: &[u8], a: usize, b: usize) -> (r: usize)
    ensures
        r == newlines(t@, a as int, b as int),
{
    if !(a <= b && b <= t.len()) {
        return 0;
    }
    let mut n: usize = 0;
    let mut i = a;
    assert(newlines(t@, a as int, a as int) == 0);
    while i < b
        invariant
            a <= i <= b <= t@.len(),
            n <= i - a,
            n == newlines(t@, a as int, i as int),
        decreases b - i,
    {
        if t[i] == NEWLINE {
            n += 1;
        }
        i += 1;
    }
    n
}

/// Whether `s` is empty or ends with a newline.
fn ends_with_newline_x(s: &String) -> (r: bool)
    ensures
        r == !(s@.len() > 0 && s@.last() != '\n'),
{
    broadcast use vstd::string::axiom_spec_iter, vstd::string::next_postcondition;

    let mut it = s.as_str().chars();
    let mut last: Option<char> = None;
    let ghost mut k: int = 0;
    loop
        invariant
            0 <= k <= s@.len(),
            it.remaining() == s@.subrange(k, s@.len() as int),
            last == (if k > 0 { Some(s@[k - 1]) } else { None::<char> }),
            it.decrease() is Some,
        ensures
            k == s@.len(),
            last == (if k > 0 { Some(s@[k - 1]) } else { None::<char> }),
        decreases it.decrease()->0,
    {
        match it.next() {
            Some(c) => {
                last = Some(c);
                proof {
                    k = k + 1;
                }
            },
            None => break,
        }
    }
    match last {
        Some(c) => c == '\n',
        None => true,
    }
}

} // verus!
