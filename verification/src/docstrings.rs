//! Wrapping overlong docstrings: paragraphs are refilled to the line
//! length, while section headers, list items, Sphinx fields, indented code
//! and fenced code blocks are kept line for line.

use vstd::prelude::*;
use crate::chars::{starts_with, trim, trim_start, leading_count, all_ws, starts_with_str, eq_str, trimmed, trimmed_start, is_all_ws, leading_count_of};
use crate::pyutil::{spec_split_lines, slice_to_vec, push_all, split_lines};
use crate::fill::{fill, spec_fill};
use crate::pyutil::{spec_indent_of_line, spec_line_start, spec_longest_line, any_line_over_chars, indent_of_line_chars};
use crate::parse::{SyntaxTree, NodeKind, node_wf};
use crate::edits::EditView;

verus! {

broadcast use vstd::seq_lib::group_seq_properties;

/// A block of docstring text.
pub enum Block {
    /// A paragraph to be refilled, its lines joined by spaces.
    Paragraph(Vec<char>),
    /// One or more blank lines between blocks.
    Blank,
    /// A line kept as it is (already dedented).
    Verbatim(Vec<char>),
}

/// A block as the contracts see it.
pub enum BlockView {
    Paragraph(Seq<char>),
    Blank,
    Verbatim(Seq<char>),
}

impl View for Block {
    type V = BlockView;

    open spec fn view(&self) -> BlockView {
        match self {
            Block::Paragraph(p) => BlockView::Paragraph(p@),
            Block::Blank => BlockView::Blank,
            Block::Verbatim(l) => BlockView::Verbatim(l@),
        }
    }
}

pub open spec fn is_digit(c: char) -> bool {
    '0' <= c && c <= '9'
}

/// Number of leading ASCII digits of `s`.
pub open spec fn leading_digits(s: Seq<char>) -> nat
    decreases s.len(),
{
    if s.len() > 0 && is_digit(s[0]) {
        1 + leading_digits(s.drop_first())
    } else {
        0
    }
}

/// A list item: `- `, `* ` or `+ `, or digits followed by `.` or `)` and a
/// space (after leading whitespace).
pub open spec fn spec_is_listish(line: Seq<char>) -> bool {
    let t = trim_start(line);
    let d = leading_digits(t);
    ||| starts_with(t, seq!['-', ' '])
    ||| starts_with(t, seq!['*', ' '])
    ||| starts_with(t, seq!['+', ' '])
    ||| (d > 0 && d < t.len() && (t[d as int] == '.' || t[d as int] == ')') && d + 1 < t.len() && t[d as int + 1] == ' ')
}

/// A Google-style section header (`Args:`, `Returns:`, ...), or an underline
/// of at least three `-`, `=` or `~` characters.
pub open spec fn spec_is_section_header(line: Seq<char>) -> bool {
    let t = trim(line);
    ||| t == "Args:"@
    ||| t == "Arguments:"@
    ||| t == "Attributes:"@
    ||| t == "Example:"@
    ||| t == "Examples:"@
    ||| t == "Note:"@
    ||| t == "Notes:"@
    ||| t == "Raises:"@
    ||| t == "Returns:"@
    ||| t == "Yields:"@
    ||| t == "Warns:"@
    ||| t == "Warning:"@
    ||| t == "See Also:"@
    ||| t == "References:"@
    ||| t == "Todo:"@
    ||| (t.len() >= 3 && forall|j: int| 0 <= j < t.len() ==> t[j] == '-' || t[j] == '=' || t[j] == '~')
}

/// A Sphinx field such as `:param x:`: a leading `:` and another `:` later
/// on the line.
pub open spec fn spec_is_sphinx_field(line: Seq<char>) -> bool {
    let t = trim_start(line);
    t.len() > 0 && t[0] == ':' && t.subrange(1, t.len() as int).contains(':')
}

pub fn is_listish(line: &[char]) -> (r: bool)
    ensures
        r == spec_is_listish(line@),
{
    let t = trimmed_start(line);
    let t = t.as_slice();
    let dash: Vec<char> = vec!['-', ' '];
    let star: Vec<char> = vec!['*', ' '];
    let plus: Vec<char> = vec!['+', ' '];
    if crate::chars::starts_with_chars(t, dash.as_slice()) || crate::chars::starts_with_chars(t, star.as_slice())
        || crate::chars::starts_with_chars(t, plus.as_slice()) {
        assert(dash@ == seq!['-', ' '] && star@ == seq!['*', ' '] && plus@ == seq!['+', ' ']);
        return true;
    }
    assert(dash@ == seq!['-', ' '] && star@ == seq!['*', ' '] && plus@ == seq!['+', ' ']);
    let mut d: usize = 0;
    assert(t@.subrange(0, t@.len() as int) == t@);
    while d < t.len() && '0' <= t[d] && t[d] <= '9'
        invariant
            d <= t@.len(),
            leading_digits(t@) == d + leading_digits(t@.subrange(d as int, t@.len() as int)),
        decreases t@.len() - d,
    {
        assert(t@.subrange(d as int, t@.len() as int).drop_first() == t@.subrange(d + 1, t@.len() as int));
        d += 1;
    }
    proof {
        if d < t@.len() {
            assert(t@.subrange(d as int, t@.len() as int)[0] == t@[d as int]);
        }
    }
    if d > 0 && d < t.len() && (t[d] == '.' || t[d] == ')') {
        return d + 1 < t.len() && t[d + 1] == ' ';
    }
    false
}

pub fn is_section_header(line: &[char]) -> (r: bool)
    ensures
        r == spec_is_section_header(line@),
{
    let t = trimmed(line);
    let t = t.as_slice();
    if eq_str(t, "Args:") || eq_str(t, "Arguments:") || eq_str(t, "Attributes:") || eq_str(t, "Example:")
        || eq_str(t, "Examples:") || eq_str(t, "Note:") || eq_str(t, "Notes:") || eq_str(t, "Raises:")
        || eq_str(t, "Returns:") || eq_str(t, "Yields:") || eq_str(t, "Warns:") || eq_str(t, "Warning:")
        || eq_str(t, "See Also:") || eq_str(t, "References:") || eq_str(t, "Todo:") {
        return true;
    }
    t.len() >= 3 && all_rule_chars(t)
}

fn all_rule_chars(t: &[char]) -> (r: bool)
    ensures
        r == forall|j: int| 0 <= j < t@.len() ==> t@[j] == '-' || t@[j] == '=' || t@[j] == '~',
{
    let mut j: usize = 0;
    while j < t.len()
        invariant
            j <= t@.len(),
            forall|k: int| 0 <= k < j ==> t@[k] == '-' || t@[k] == '=' || t@[k] == '~',
        decreases t@.len() - j,
    {
        if t[j] != '-' && t[j] != '=' && t[j] != '~' {
            return false;
        }
        j += 1;
    }
    true
}

pub fn is_sphinx_field(line: &[char]) -> (r: bool)
    ensures
        r == spec_is_sphinx_field(line@),
{
    let t = trimmed_start(line);
    if t.len() == 0 || t[0] != ':' {
        return false;
    }
    let rest = slice_to_vec(t.as_slice(), 1, t.len());
    crate::chars::contains_char(rest.as_slice(), ':')
}

/// `lines` joined with single spaces.
pub open spec fn join_words(lines: Seq<Seq<char>>) -> Seq<char>
    decreases lines.len(),
{
    if lines.len() == 0 {
        Seq::empty()
    } else if lines.len() == 1 {
        lines[0]
    } else {
        join_words(lines.drop_last()) + seq![' '] + lines.last()
    }
}

/// `blocks` with the pending paragraph lines `para` added as one paragraph.
pub open spec fn flush_para(blocks: Seq<BlockView>, para: Seq<Seq<char>>) -> Seq<BlockView> {
    if para.len() > 0 {
        blocks.push(BlockView::Paragraph(join_words(para)))
    } else {
        blocks
    }
}

/// Smallest count of leading spaces among the lines `lines[1..k]` that are
/// not blank (the first line shares the opening quotes' line).
pub open spec fn common_indent_upto(lines: Seq<Seq<char>>, k: int) -> Option<nat>
    decreases k,
{
    if k <= 0 {
        None
    } else {
        let prev = common_indent_upto(lines, k - 1);
        let line = lines[k - 1];
        if all_ws(line) || k - 1 == 0 {
            prev
        } else {
            let lead = leading_count(line, ' ');
            match prev {
                Some(c) => Some(if c < lead {
                    c
                } else {
                    lead
                }),
                None => Some(lead),
            }
        }
    }
}

pub open spec fn common_indent(lines: Seq<Seq<char>>) -> nat {
    match common_indent_upto(lines, lines.len() as int) {
        Some(c) => c,
        None => 0,
    }
}

/// `line` without its first `common` characters (the first line and lines
/// shorter than that are kept whole).
pub open spec fn dedent(line: Seq<char>, is_first: bool, common: nat) -> Seq<char> {
    if is_first || line.len() < common {
        line
    } else {
        line.subrange(common as int, line.len() as int)
    }
}

/// A line kept verbatim on its own: indented code (four or more leading
/// spaces, not a list item), a section header, a list item or a Sphinx
/// field.
#[verifier::opaque]
pub open spec fn keeps_own_line(line: Seq<char>) -> bool {
    (leading_count(line, ' ') >= 4 && !spec_is_listish(line)) || spec_is_section_header(line)
        || spec_is_listish(line) || spec_is_sphinx_field(line)
}

/// Blocks, pending paragraph lines and whether inside a fenced code block,
/// after reading one more (dedented) line.
pub open spec fn block_step(
    state: (Seq<BlockView>, Seq<Seq<char>>, bool),
    line: Seq<char>,
) -> (Seq<BlockView>, Seq<Seq<char>>, bool) {
    let (blocks, para, fenced) = state;
    if starts_with(trim_start(line), seq!['`', '`', '`']) {
        (flush_para(blocks, para).push(BlockView::Verbatim(line)), Seq::empty(), !fenced)
    } else if fenced {
        (blocks.push(BlockView::Verbatim(line)), para, fenced)
    } else if all_ws(line) {
        let b = flush_para(blocks, para);
        (
            if b.len() > 0 && b.last() is Blank {
                b
            } else {
                b.push(BlockView::Blank)
            },
            Seq::empty(),
            fenced,
        )
    } else if keeps_own_line(line) {
        (flush_para(blocks, para).push(BlockView::Verbatim(line)), Seq::empty(), fenced)
    } else {
        (blocks, para.push(trim(line)), fenced)
    }
}

/// State after reading the first `k` lines.
pub open spec fn block_state(lines: Seq<Seq<char>>, common: nat, k: int) -> (Seq<BlockView>, Seq<Seq<char>>, bool)
    decreases k,
{
    if k <= 0 {
        (Seq::empty(), Seq::empty(), false)
    } else {
        block_step(block_state(lines, common, k - 1), dedent(lines[k - 1], k - 1 == 0, common))
    }
}

/// `blocks` without its trailing blank blocks.
pub open spec fn drop_trailing_blanks(blocks: Seq<BlockView>) -> Seq<BlockView>
    decreases blocks.len(),
{
    if blocks.len() > 0 && blocks.last() is Blank {
        drop_trailing_blanks(blocks.drop_last())
    } else {
        blocks
    }
}

/// The blocks of a docstring body.
pub open spec fn spec_parse_blocks(body: Seq<char>) -> Seq<BlockView> {
    let lines = spec_split_lines(body);
    let (blocks, para, _) = block_state(lines, common_indent(lines), lines.len() as int);
    drop_trailing_blanks(flush_para(blocks, para))
}

fn join_with_spaces(lines: &Vec<Vec<char>>) -> (r: Vec<char>)
    ensures
        r@ == join_words(lines@.map_values(|l: Vec<char>| l@)),
{
    let ghost ls = lines@.map_values(|l: Vec<char>| l@);
    let mut out: Vec<char> = Vec::new();
    let mut j: usize = 0;
    while j < lines.len()
        invariant
            ls == lines@.map_values(|l: Vec<char>| l@),
            j <= lines@.len(),
            out@ == join_words(ls.take(j as int)),
        decreases lines@.len() - j,
    {
        let ghost before = out@;
        if j > 0 {
            out.push(' ');
        }
        push_all(&mut out, lines[j].as_slice());
        proof {
            let tk = ls.take(j + 1);
            assert(tk.drop_last() == ls.take(j as int));
            assert(tk.last() == lines@[j as int]@);
            if j == 0 {
                assert(out@ =~= lines@[j as int]@);
            } else {
                assert(out@ =~= before + seq![' '] + lines@[j as int]@);
            }
        }
        j += 1;
    }
    assert(ls.take(lines@.len() as int) == ls);
    out
}

fn flush(blocks: &mut Vec<Block>, para: &mut Vec<Vec<char>>)
    ensures
        final(blocks)@.map_values(|b: Block| b@) == flush_para(
            old(blocks)@.map_values(|b: Block| b@),
            old(para)@.map_values(|l: Vec<char>| l@),
        ),
        final(para)@.len() == 0,
{
    if para.len() > 0 {
        let ghost before = blocks@.map_values(|b: Block| b@);
        let joined = join_with_spaces(para);
        blocks.push(Block::Paragraph(joined));
        assert(blocks@.map_values(|b: Block| b@) =~= before.push(BlockView::Paragraph(joined@)));
        *para = Vec::new();
    }
}

/// Read one more (dedented) line into the block list.
fn step_line(blocks: &mut Vec<Block>, para: &mut Vec<Vec<char>>, fenced: &mut bool, line: Vec<char>)
    ensures
        (final(blocks)@.map_values(|b: Block| b@), final(para)@.map_values(|l: Vec<char>| l@), *final(fenced))
            == block_step(
            (old(blocks)@.map_values(|b: Block| b@), old(para)@.map_values(|l: Vec<char>| l@), *old(fenced)),
            line@,
        ),
{
    
    let trimmed_line = trimmed_start(line.as_slice());
    let fence: Vec<char> = vec!['`', '`', '`'];
    assert(fence@ == seq!['`', '`', '`']);
    if crate::chars::starts_with_chars(trimmed_line.as_slice(), fence.as_slice()) {
        flush(blocks, para);
        let ghost b = blocks@.map_values(|b: Block| b@);
        blocks.push(Block::Verbatim(line));
        *fenced = !*fenced;
        proof {
            assert(blocks@.map_values(|b: Block| b@) =~= b.push(BlockView::Verbatim(line@)));
            assert(para@.map_values(|l: Vec<char>| l@) =~= Seq::<Seq<char>>::empty());
        }
    } else if *fenced {
        let ghost b = blocks@.map_values(|b: Block| b@);
        blocks.push(Block::Verbatim(line));
        assert(blocks@.map_values(|b: Block| b@) =~= b.push(BlockView::Verbatim(line@)));
    } else if is_all_ws(line.as_slice()) {
        flush(blocks, para);
        let n = blocks.len();
        let last_blank = n > 0 && match &blocks[n - 1] {
            Block::Blank => true,
            _ => false,
        };
        proof {
            if n > 0 {
                assert(blocks@.map_values(|b: Block| b@).last() == blocks@[n - 1]@);
            }
        }
        if !last_blank {
            let ghost b = blocks@.map_values(|b: Block| b@);
            blocks.push(Block::Blank);
            assert(blocks@.map_values(|b: Block| b@) =~= b.push(BlockView::Blank));
        }
        assert(para@.map_values(|l: Vec<char>| l@) =~= Seq::<Seq<char>>::empty());
    } else {
        let lead = leading_count_of(line.as_slice(), ' ');
        let listish = is_listish(line.as_slice());
        let keep = (lead >= 4 && !listish) || is_section_header(line.as_slice()) || listish || is_sphinx_field(
            line.as_slice(),
        );
        proof {
            reveal(keeps_own_line);
        }
        if keep {
            flush(blocks, para);
            let ghost b = blocks@.map_values(|b: Block| b@);
            blocks.push(Block::Verbatim(line));
            proof {
                assert(blocks@.map_values(|b: Block| b@) =~= b.push(BlockView::Verbatim(line@)));
                assert(para@.map_values(|l: Vec<char>| l@) =~= Seq::<Seq<char>>::empty());
            }
        } else {
            let ghost p = para@.map_values(|l: Vec<char>| l@);
            let tl = trimmed(line.as_slice());
            para.push(tl);
            assert(para@.map_values(|l: Vec<char>| l@) =~= p.push(trim(line@)));
        }
    }
}
/// Split a docstring body into blocks.
pub fn parse_blocks(body: &[char]) -> (r: Vec<Block>)
    ensures
        r@.map_values(|b: Block| b@) == spec_parse_blocks(body@),
{
    let raw_lines = split_lines(body);
    let ghost lines = raw_lines@.map_values(|l: Vec<char>| l@);
    let mut common: Option<usize> = None;
    let mut i: usize = 0;
    while i < raw_lines.len()
        invariant
            lines == raw_lines@.map_values(|l: Vec<char>| l@),
            i <= raw_lines@.len(),
            match common {
                Some(c) => common_indent_upto(lines, i as int) == Some(c as nat),
                None => common_indent_upto(lines, i as int) is None,
            },
        decreases raw_lines@.len() - i,
    {
        let line = raw_lines[i].as_slice();
        proof {
            assert(lines[i as int] == line@);
        }
        if !is_all_ws(line) && i != 0 {
            let lead = leading_count_of(line, ' ');
            common = match common {
                Some(c) => Some(if c < lead {
                    c
                } else {
                    lead
                }),
                None => Some(lead),
            };
        }
        i += 1;
    }
    assert(lines.take(lines.len() as int) == lines);
    let common: usize = match common {
        Some(c) => c,
        None => 0,
    };
    let mut blocks: Vec<Block> = Vec::new();
    let mut para: Vec<Vec<char>> = Vec::new();
    let mut fenced = false;
    let mut i: usize = 0;
    while i < raw_lines.len()
        invariant
            lines == raw_lines@.map_values(|l: Vec<char>| l@),
            common == common_indent(lines),
            i <= raw_lines@.len(),
            (blocks@.map_values(|b: Block| b@), para@.map_values(|l: Vec<char>| l@), fenced) == block_state(
                lines,
                common as nat,
                i as int,
            ),
        decreases raw_lines@.len() - i,
    {
        let raw = raw_lines[i].as_slice();
        proof {
            assert(lines[i as int] == raw@);
        }
        let line = if i == 0 || raw.len() < common {
            slice_to_vec(raw, 0, raw.len())
        } else {
            slice_to_vec(raw, common, raw.len())
        };
        proof {
            assert(raw@.subrange(0, raw@.len() as int) == raw@);
            assert(line@ == dedent(lines[i as int], i == 0, common as nat));
        }
        let ghost st = (blocks@.map_values(|b: Block| b@), para@.map_values(|l: Vec<char>| l@), fenced);
        step_line(&mut blocks, &mut para, &mut fenced, line);
        proof {
            assert(block_state(lines, common as nat, i + 1) == block_step(st, dedent(lines[i as int], i == 0, common as nat)));
        }
        i += 1;
    }
    flush(&mut blocks, &mut para);
    let ghost flushed = blocks@.map_values(|b: Block| b@);
    assert(drop_trailing_blanks(flushed) == spec_parse_blocks(body@));
    loop
        invariant_except_break
            drop_trailing_blanks(blocks@.map_values(|b: Block| b@)) == spec_parse_blocks(body@),
        ensures
            blocks@.map_values(|b: Block| b@) == spec_parse_blocks(body@),
        decreases blocks@.len(),
    {
        let n = blocks.len();
        if n == 0 {
            assert(drop_trailing_blanks(blocks@.map_values(|b: Block| b@)) == blocks@.map_values(|b: Block| b@));
            break;
        }
        let is_blank = match &blocks[n - 1] {
            Block::Blank => true,
            _ => false,
        };
        proof {
            assert(blocks@.map_values(|b: Block| b@).last() == blocks@[n - 1]@);
        }
        if !is_blank {
            assert(drop_trailing_blanks(blocks@.map_values(|b: Block| b@)) == blocks@.map_values(|b: Block| b@));
            break;
        }
        let ghost b = blocks@.map_values(|b: Block| b@);
        blocks.pop();
        assert(blocks@.map_values(|b: Block| b@) =~= b.drop_last());
    }
    blocks
}


/// `lines` joined so that each line after the first starts on a new line
/// after `indent`.
pub open spec fn join_indented(lines: Seq<Seq<char>>, indent: Seq<char>) -> Seq<char>
    decreases lines.len(),
{
    if lines.len() == 0 {
        Seq::empty()
    } else if lines.len() == 1 {
        lines[0]
    } else {
        join_indented(lines.drop_last(), indent) + seq!['\n'] + indent + lines.last()
    }
}

/// Text written so far, whether a block has been written, and whether the
/// last thing written was a blank line, after rendering `blocks[..k]`.
pub open spec fn render_state(blocks: Seq<BlockView>, budget: usize, indent: Seq<char>, k: int) -> (
    Seq<char>,
    bool,
    bool,
)
    decreases k,
{
    if k <= 0 {
        (Seq::empty(), false, false)
    } else {
        let (out, first, blank) = render_state(blocks, budget, indent, k - 1);
        match blocks[k - 1] {
            BlockView::Blank => if first && !blank {
                (out.push('\n'), first, true)
            } else {
                (out, first, blank)
            },
            BlockView::Paragraph(p) => {
                let text = join_indented(spec_split_lines(spec_fill(p, budget)), indent);
                (
                    if first {
                        out + seq!['\n'] + indent + text
                    } else {
                        out + text
                    },
                    true,
                    false,
                )
            },
            BlockView::Verbatim(l) => (
                if first {
                    out + seq!['\n'] + indent + l
                } else {
                    out + l
                },
                true,
                false,
            ),
        }
    }
}

/// The blocks written out: paragraphs refilled to `budget` columns, verbatim
/// lines as they are, runs of blank blocks as one empty line, every line
/// after the first indented by `indent`. `None` when no block is written.
pub open spec fn spec_render_blocks(blocks: Seq<BlockView>, budget: usize, indent: Seq<char>) -> Option<Seq<char>> {
    let (out, first, _) = render_state(blocks, budget, indent, blocks.len() as int);
    if first {
        Some(out)
    } else {
        None
    }
}

proof fn lemma_render_state_prefix(pre: Seq<BlockView>, rest: Seq<BlockView>, budget: usize, indent: Seq<char>, k: int)
    requires
        0 <= k <= pre.len(),
    ensures
        render_state(pre + rest, budget, indent, k) == render_state(pre, budget, indent, k),
    decreases k,
{
    if k > 0 {
        lemma_render_state_prefix(pre, rest, budget, indent, k - 1);
        assert((pre + rest)[k - 1] == pre[k - 1]);
    }
}

/// A blank block between two written blocks keeps them apart by one empty
/// line: rendering `pre`, a blank block and `x` gives what rendering `pre`
/// and `x` gives, with one more newline after the text of `pre`.
pub proof fn law_blank_block_separates(pre: Seq<BlockView>, x: BlockView, budget: usize, indent: Seq<char>)
    requires
        spec_render_blocks(pre, budget, indent) is Some,
        pre.last() != BlockView::Blank,
        x != BlockView::Blank,
    ensures
        spec_render_blocks(pre, budget, indent) matches Some(o) && spec_render_blocks(pre.push(x), budget, indent)
            matches Some(o1) && o1.len() >= o.len() && o1.subrange(0, o.len() as int) == o && spec_render_blocks(
            pre.push(BlockView::Blank).push(x),
            budget,
            indent,
        ) == Some(o + seq!['\n'] + o1.subrange(o.len() as int, o1.len() as int)),
{
    let n = pre.len() as int;
    let (o, first, blank) = render_state(pre, budget, indent, n);
    assert(first);
    assert(n > 0);
    assert(!blank) by {
        let (o0, f0, b0) = render_state(pre, budget, indent, n - 1);
        assert(pre[n - 1] != BlockView::Blank);
    }
    let a = pre.push(x);
    let b = pre.push(BlockView::Blank).push(x);
    lemma_render_state_prefix(pre, seq![x], budget, indent, n);
    assert(a =~= pre + seq![x]);
    lemma_render_state_prefix(pre, seq![BlockView::Blank, x], budget, indent, n);
    assert(b =~= pre + seq![BlockView::Blank, x]);
    assert(a[n] == x);
    assert(b[n] == BlockView::Blank);
    assert(b[n + 1] == x);
    assert(render_state(b, budget, indent, n + 1) == (o.push('\n'), true, true));
    let (o1, f1, _) = render_state(a, budget, indent, n + 1);
    let (o2, f2, _) = render_state(b, budget, indent, n + 2);
    match x {
        BlockView::Paragraph(p) => {
            let text = join_indented(spec_split_lines(spec_fill(p, budget)), indent);
            assert(o1 == o + seq!['\n'] + indent + text);
            assert(o2 == o.push('\n') + seq!['\n'] + indent + text);
            assert(o1.subrange(0, o.len() as int) =~= o);
            assert(o2 =~= o + seq!['\n'] + o1.subrange(o.len() as int, o1.len() as int));
        },
        BlockView::Verbatim(l) => {
            assert(o1 == o + seq!['\n'] + indent + l);
            assert(o2 == o.push('\n') + seq!['\n'] + indent + l);
            assert(o1.subrange(0, o.len() as int) =~= o);
            assert(o2 =~= o + seq!['\n'] + o1.subrange(o.len() as int, o1.len() as int));
        },
        BlockView::Blank => {},
    }
}

/// Two paragraphs with a blank block between them are written as the first
/// paragraph refilled, an empty line, and the second refilled, every line
/// after the first indented.
pub proof fn law_paragraphs_apart(a: Seq<char>, b: Seq<char>, budget: usize, indent: Seq<char>)
    ensures
        spec_render_blocks(
            seq![BlockView::Paragraph(a), BlockView::Blank, BlockView::Paragraph(b)],
            budget,
            indent,
        ) == Some(
            join_indented(spec_split_lines(spec_fill(a, budget)), indent) + seq!['\n', '\n'] + indent + join_indented(
                spec_split_lines(spec_fill(b, budget)),
                indent,
            ),
        ),
{
    let blocks = seq![BlockView::Paragraph(a), BlockView::Blank, BlockView::Paragraph(b)];
    let ta = join_indented(spec_split_lines(spec_fill(a, budget)), indent);
    let tb = join_indented(spec_split_lines(spec_fill(b, budget)), indent);
    assert(render_state(blocks, budget, indent, 0) == (Seq::<char>::empty(), false, false));
    assert(render_state(blocks, budget, indent, 1) == (Seq::<char>::empty() + ta, true, false));
    assert(render_state(blocks, budget, indent, 2) == ((Seq::<char>::empty() + ta).push('\n'), true, true));
    assert(render_state(blocks, budget, indent, 3).0 == (Seq::<char>::empty() + ta).push('\n') + seq!['\n'] + indent
        + tb);
    assert((Seq::<char>::empty() + ta).push('\n') + seq!['\n'] + indent + tb =~= ta + seq!['\n', '\n'] + indent
        + tb);
}

/// A run of blank blocks is written as a single empty line.
pub proof fn law_blank_runs_collapse(pre: Seq<BlockView>, rest: Seq<BlockView>, budget: usize, indent: Seq<char>)
    ensures
        spec_render_blocks(pre + seq![BlockView::Blank, BlockView::Blank] + rest, budget, indent)
            == spec_render_blocks(pre + seq![BlockView::Blank] + rest, budget, indent),
{
    let b2 = pre + seq![BlockView::Blank, BlockView::Blank] + rest;
    let b1 = pre + seq![BlockView::Blank] + rest;
    let n = pre.len() as int;
    lemma_render_state_prefix(pre, seq![BlockView::Blank, BlockView::Blank] + rest, budget, indent, n);
    lemma_render_state_prefix(pre, seq![BlockView::Blank] + rest, budget, indent, n);
    assert(b2 =~= pre + (seq![BlockView::Blank, BlockView::Blank] + rest));
    assert(b1 =~= pre + (seq![BlockView::Blank] + rest));
    assert(b2[n] == BlockView::Blank && b2[n + 1] == BlockView::Blank);
    assert(b1[n] == BlockView::Blank);
    assert(render_state(b2, budget, indent, n) == render_state(b1, budget, indent, n));
    assert(render_state(b2, budget, indent, n + 1) == render_state(b1, budget, indent, n + 1));
    let (o, f, bl) = render_state(b2, budget, indent, n + 1);
    assert(!f ==> !render_state(b2, budget, indent, n).1);
    assert(render_state(b2, budget, indent, n + 2) == render_state(b1, budget, indent, n + 1));
    lemma_render_state_shift(b2, b1, budget, indent, n + 2, n + 1);
}

proof fn lemma_render_state_shift(
    b2: Seq<BlockView>,
    b1: Seq<BlockView>,
    budget: usize,
    indent: Seq<char>,
    k2: int,
    k1: int,
)
    requires
        0 <= k1 <= b1.len(),
        k2 == k1 + 1,
        b2.len() == b1.len() + 1,
        render_state(b2, budget, indent, k2) == render_state(b1, budget, indent, k1),
        forall|j: int| k1 <= j < b1.len() ==> b2[j + 1] == b1[j],
    ensures
        render_state(b2, budget, indent, b2.len() as int) == render_state(b1, budget, indent, b1.len() as int),
    decreases b1.len() - k1,
{
    if k1 < b1.len() {
        assert(b2[k2] == b1[k1]);
        assert(render_state(b2, budget, indent, k2 + 1) == render_state(b1, budget, indent, k1 + 1));
        lemma_render_state_shift(b2, b1, budget, indent, k2 + 1, k1 + 1);
    }
}

/// Append the lines of wrapped text, each but the first after a newline
/// and `indent` (`join_indented`).
pub fn push_indented_lines(out: &mut Vec<char>, lines: &Vec<Vec<char>>, indent: &[char])
    ensures
        final(out)@ == old(out)@ + join_indented(lines@.map_values(|l: Vec<char>| l@), indent@),
{
    let ghost ls = lines@.map_values(|l: Vec<char>| l@);
    let ghost start = out@;
    let mut j: usize = 0;
    while j < lines.len()
        invariant
            ls == lines@.map_values(|l: Vec<char>| l@),
            j <= lines@.len(),
            out@ == start + join_indented(ls.take(j as int), indent@),
        decreases lines@.len() - j,
    {
        let ghost before = out@;
        if j > 0 {
            out.push('\n');
            push_all(out, indent);
        }
        push_all(out, lines[j].as_slice());
        proof {
            let tk = ls.take(j + 1);
            assert(tk.drop_last() == ls.take(j as int));
            assert(tk.last() == lines@[j as int]@);
            if j == 0 {
                assert(out@ =~= start + lines@[j as int]@);
            } else {
                assert(out@ =~= start + (join_indented(ls.take(j as int), indent@) + seq!['\n'] + indent@
                    + lines@[j as int]@));
            }
        }
        j += 1;
    }
    assert(ls.take(lines@.len() as int) == ls);
}

/// Write the blocks out, refilling paragraphs to `budget` columns.
pub fn render_blocks(blocks: &Vec<Block>, budget: usize, indent: &[char]) -> (r: Option<Vec<char>>)
    ensures
        match r {
            Some(out) => spec_render_blocks(blocks@.map_values(|b: Block| b@), budget, indent@) == Some(out@),
            None => spec_render_blocks(blocks@.map_values(|b: Block| b@), budget, indent@) is None,
        },
{
    let ghost bs = blocks@.map_values(|b: Block| b@);
    let mut out: Vec<char> = Vec::new();
    let mut first_emitted = false;
    let mut just_emitted_blank = false;
    let mut k: usize = 0;
    while k < blocks.len()
        invariant
            bs == blocks@.map_values(|b: Block| b@),
            k <= blocks@.len(),
            (out@, first_emitted, just_emitted_blank) == render_state(bs, budget, indent@, k as int),
        decreases blocks@.len() - k,
    {
        let ghost before = out@;
        proof {
            assert(bs[k as int] == blocks@[k as int]@);
        }
        match &blocks[k] {
            Block::Blank => {
                if first_emitted && !just_emitted_blank {
                    out.push('\n');
                    just_emitted_blank = true;
                }
            },
            Block::Paragraph(p) => {
                let wrapped = fill(p.as_slice(), budget);
                let lines = split_lines(wrapped.as_slice());
                if first_emitted {
                    out.push('\n');
                    push_all(&mut out, indent);
                }
                push_indented_lines(&mut out, &lines, indent);
                proof {
                    if first_emitted {
                        assert(out@ =~= before + seq!['\n'] + indent@ + join_indented(
                            spec_split_lines(spec_fill(p@, budget)),
                            indent@,
                        ));
                    }
                }
                first_emitted = true;
                just_emitted_blank = false;
            },
            Block::Verbatim(line) => {
                if first_emitted {
                    out.push('\n');
                    push_all(&mut out, indent);
                }
                push_all(&mut out, line.as_slice());
                proof {
                    if first_emitted {
                        assert(out@ =~= before + seq!['\n'] + indent@ + line@);
                    }
                }
                first_emitted = true;
                just_emitted_blank = false;
            },
        }
        k += 1;
    }
    if !first_emitted {
        return None;
    }
    Some(out)
}

/// Length of the string prefix and the opening quote of a literal's text.
pub open spec fn spec_quote_info(text: Seq<char>) -> Option<(nat, Seq<char>)> {
    let k = crate::strings::prefix_len(text);
    match crate::strings::opening_quote(text.subrange(k as int, text.len() as int)) {
        Some(q) => Some((k, q)),
        None => None,
    }
}

pub fn quote_info(text: &[char]) -> (r: Option<(usize, Vec<char>)>)
    ensures
        match r {
            Some((k, q)) => spec_quote_info(text@) == Some((k as nat, q@)) && k <= text@.len(),
            None => spec_quote_info(text@) is None,
        },
{
    let mut k: usize = 0;
    assert(text@.subrange(0, text@.len() as int) == text@);
    while k < text.len() && (text[k] == 'r' || text[k] == 'R' || text[k] == 'b' || text[k] == 'B'
        || text[k] == 'f' || text[k] == 'F' || text[k] == 'u' || text[k] == 'U')
        invariant
            k <= text@.len(),
            crate::strings::prefix_len(text@) == k + crate::strings::prefix_len(
                text@.subrange(k as int, text@.len() as int),
            ),
        decreases text@.len() - k,
    {
        assert(text@.subrange(k as int, text@.len() as int).drop_first() == text@.subrange(k + 1, text@.len() as int));
        k += 1;
    }
    proof {
        let rest = text@.subrange(k as int, text@.len() as int);
        if k < text@.len() {
            assert(rest[0] == text@[k as int]);
        }
    }
    let rest = slice_to_vec(text, k, text.len());
    let tq: Vec<char> = vec!['"', '"', '"'];
    let ts: Vec<char> = vec!['\'', '\'', '\''];
    let sd: Vec<char> = vec!['"'];
    let ss: Vec<char> = vec!['\''];
    proof {
        assert(tq@ == crate::strings::triple_double());
        assert(ts@ == crate::strings::triple_single());
        assert(sd@ == seq!['"']);
        assert(ss@ == seq!['\'']);
    }
    if crate::chars::starts_with_chars(rest.as_slice(), tq.as_slice()) {
        Some((k, tq))
    } else if crate::chars::starts_with_chars(rest.as_slice(), ts.as_slice()) {
        Some((k, ts))
    } else if crate::chars::starts_with_chars(rest.as_slice(), sd.as_slice()) {
        Some((k, sd))
    } else if crate::chars::starts_with_chars(rest.as_slice(), ss.as_slice()) {
        Some((k, ss))
    } else {
        None
    }
}


/// Wrapping width for a docstring whose text begins `lead_len` columns into
/// its first line (indentation, prefix and opening quotes): the line length
/// less that lead, so the first line fits too, but at least 20.
pub open spec fn docstring_budget(line_length: nat, lead_len: nat) -> nat {
    let b = if line_length >= lead_len {
        (line_length - lead_len) as nat
    } else {
        0
    };
    if b > 20 {
        b
    } else {
        20
    }
}

/// The docstring body: the inner text without one leading newline and, when
/// it ends in a newline, without its trailing newlines.
pub open spec fn docstring_body(inner: Seq<char>) -> Seq<char> {
    let b = if starts_with(inner, seq!['\n']) {
        inner.subrange(1, inner.len() as int)
    } else {
        inner
    };
    if crate::chars::ends_with(inner, seq!['\n']) {
        crate::chars::trim_end_char(b, '\n')
    } else {
        b
    }
}

/// The rewrapped text of the triple-quoted string at node `i`, when a line
/// it spans is wider than `line_length`: its blocks rendered to the line
/// length less its indentation, prefix and opening quotes (at least 20
/// columns), the closing quotes on a line of their own at the string's
/// indentation.
pub open spec fn spec_wrap_docstring(src: Seq<char>, t: SyntaxTree, i: int, line_length: nat, tab: nat) -> Option<
    Seq<char>,
> {
    let text = t.text(src, i);
    match spec_quote_info(text) {
        None => None,
        Some((k, q)) => {
            if q.len() != 3 || text.len() < k + 6 {
                None
            } else if !(spec_longest_line(src.subrange(spec_line_start(src, t.start(i)), t.end(i)), tab)
                > line_length) {
                None
            } else {
                let prefix = text.subrange(0, k as int);
                let inner = text.subrange(k as int + 3, text.len() - 3);
                let indent = spec_indent_of_line(src, t.start(i));
                let budget = docstring_budget(line_length, indent.len() + k + 3);
                match spec_render_blocks(
                    spec_parse_blocks(docstring_body(inner)),
                    budget as usize,
                    indent,
                ) {
                    None => None,
                    Some(rendered) => {
                        let rebuilt = prefix + q + rendered + seq!['\n'] + indent + q;
                        if rebuilt == text {
                            None
                        } else {
                            Some(rebuilt)
                        }
                    },
                }
            }
        },
    }
}

fn docstring_body_of(inner: &[char]) -> (r: Vec<char>)
    ensures
        r@ == docstring_body(inner@),
{
    let nl: Vec<char> = vec!['\n'];
    assert(nl@ == seq!['\n']);
    let leading_newline = crate::chars::starts_with_chars(inner, nl.as_slice());
    let trailing_newline = crate::chars::ends_with_chars(inner, nl.as_slice());
    let body1 = if leading_newline {
        slice_to_vec(inner, 1, inner.len())
    } else {
        slice_to_vec(inner, 0, inner.len())
    };
    assert(inner@.subrange(0, inner@.len() as int) == inner@);
    if trailing_newline {
        let n = crate::chars::trailing_count_of(body1.as_slice(), '\n');
        slice_to_vec(body1.as_slice(), 0, body1.len() - n)
    } else {
        body1
    }
}

fn rebuild_docstring(prefix: Vec<char>, quote: &[char], rendered: &[char], indent: &[char]) -> (r: Vec<char>)
    ensures
        r@ == prefix@ + quote@ + rendered@ + seq!['\n'] + indent@ + quote@,
{
    let mut rebuilt = prefix;
    push_all(&mut rebuilt, quote);
    push_all(&mut rebuilt, rendered);
    rebuilt.push('\n');
    push_all(&mut rebuilt, indent);
    push_all(&mut rebuilt, quote);
    rebuilt
}

pub fn wrap_docstring(t: &SyntaxTree, src: &[char], i: usize, line_length: usize, tab_width: usize) -> (r: Option<
    Vec<char>,
>)
    requires
        t.wf(src@.len()),
        i < t.len(),
        crate::pyutil::size_ok(src@, tab_width as nat),
    ensures
        match r {
            Some(out) => spec_wrap_docstring(src@, *t, i as int, line_length as nat, tab_width as nat) == Some(out@),
            None => spec_wrap_docstring(src@, *t, i as int, line_length as nat, tab_width as nat) is None,
        },
{
    proof {
        assert(node_wf(t.nodes@[i as int], i as int, t.nodes@.len() as int, src@.len()));
    }
    let text = t.node_text(src, i);
    let (k, quote) = match quote_info(text.as_slice()) {
        Some(x) => x,
        None => {
            return None;
        },
    };
    if quote.len() != 3 || text.len() < k + 6 {
        return None;
    }
    let start = t.nodes[i].start;
    if !any_line_over_chars(src, start, t.nodes[i].end, line_length, tab_width) {
        return None;
    }
    let prefix = slice_to_vec(text.as_slice(), 0, k);
    let inner = slice_to_vec(text.as_slice(), k + 3, text.len() - 3);
    let indent = indent_of_line_chars(src, start);
    let b = line_length.saturating_sub(indent.len() + k + 3);
    let budget = if b > 20 {
        b
    } else {
        20
    };
    let body = docstring_body_of(inner.as_slice());
    let blocks = parse_blocks(body.as_slice());
    let rendered = match render_blocks(&blocks, budget, indent.as_slice()) {
        Some(r) => r,
        None => {
            return None;
        },
    };
    let rebuilt = rebuild_docstring(prefix, quote.as_slice(), rendered.as_slice(), indent.as_slice());
    if crate::chars::eq_chars(rebuilt.as_slice(), text.as_slice()) {
        return None;
    }
    Some(rebuilt)
}

/// Among `kids[j..]`, the first that is not a comment.
pub open spec fn first_non_comment_from(t: SyntaxTree, kids: Seq<usize>, j: int) -> Option<usize>
    decreases kids.len() - j,
{
    if j < 0 || j >= kids.len() {
        None
    } else if t.kind(kids[j] as int) == NodeKind::Comment {
        first_non_comment_from(t, kids, j + 1)
    } else {
        Some(kids[j])
    }
}

/// Node `i` is the docstring statement of a module, class or function body:
/// an expression statement that is the first child, comments aside, of a
/// module or block.
pub open spec fn spec_is_docstring_target(t: SyntaxTree, i: int) -> bool {
    &&& t.kind(i) == NodeKind::ExpressionStatement
    &&& t.parent(i) matches Some(p)
    &&& (t.kind(p as int) == NodeKind::Module || t.kind(p as int) == NodeKind::Block)
    &&& first_non_comment_from(t, t.children(p as int), 0) == Some(i as usize)
}

/// Among `kids[j..]`, the first string literal.
pub open spec fn first_string_from(t: SyntaxTree, kids: Seq<usize>, j: int) -> Option<usize>
    decreases kids.len() - j,
{
    if j < 0 || j >= kids.len() {
        None
    } else if t.kind(kids[j] as int) == NodeKind::Str {
        Some(kids[j])
    } else {
        first_string_from(t, kids, j + 1)
    }
}

/// The docstring edit for node `i`: a docstring statement's string,
/// rewrapped.
pub open spec fn spec_docstring_edit(src: Seq<char>, t: SyntaxTree, i: int, line_length: nat, tab: nat) -> Option<
    EditView,
> {
    if !spec_is_docstring_target(t, i) {
        None
    } else {
        match first_string_from(t, t.children(i), 0) {
            None => None,
            Some(s) => match spec_wrap_docstring(src, t, s as int, line_length, tab) {
                Some(rep) => Some((t.nodes@[s as int].start, t.nodes@[s as int].end, rep)),
                None => None,
            },
        }
    }
}

pub fn is_docstring_target(t: &SyntaxTree, i: usize) -> (r: bool)
    requires
        exists|n: nat| t.wf(n),
        i < t.len(),
    ensures
        r == spec_is_docstring_target(*t, i as int),
{
    let ghost n = choose|n: nat| t.wf(n);
    if t.nodes[i].kind != NodeKind::ExpressionStatement {
        return false;
    }
    let p = match t.nodes[i].parent {
        Some(p) => p,
        None => {
            return false;
        },
    };
    proof {
        assert(node_wf(t.nodes@[i as int], i as int, t.nodes@.len() as int, n));
    }
    if t.nodes[p].kind != NodeKind::Module && t.nodes[p].kind != NodeKind::Block {
        return false;
    }
    proof {
        assert(node_wf(t.nodes@[p as int], p as int, t.nodes@.len() as int, n));
    }
    let kids = &t.nodes[p].children;
    let mut j: usize = 0;
    while j < kids.len()
        invariant
            p < t.len(),
            i < t.len(),
            t.kind(i as int) == NodeKind::ExpressionStatement,
            t.parent(i as int) == Some(p),
            t.kind(p as int) == NodeKind::Module || t.kind(p as int) == NodeKind::Block,
            kids@ == t.children(p as int),
            forall|m: int| 0 <= m < kids@.len() ==> #[trigger] kids@[m] < t.len(),
            j <= kids@.len(),
            first_non_comment_from(*t, kids@, 0) == first_non_comment_from(*t, kids@, j as int),
        decreases kids@.len() - j,
    {
        let c = kids[j];
        if t.nodes[c].kind != NodeKind::Comment {
            return c == i;
        }
        j += 1;
    }
    false
}

pub fn first_string_in(t: &SyntaxTree, i: usize) -> (r: Option<usize>)
    requires
        exists|n: nat| t.wf(n),
        i < t.len(),
    ensures
        r == first_string_from(*t, t.children(i as int), 0),
        r matches Some(s) ==> s < t.len(),
{
    let ghost n = choose|n: nat| t.wf(n);
    proof {
        assert(node_wf(t.nodes@[i as int], i as int, t.nodes@.len() as int, n));
    }
    let kids = &t.nodes[i].children;
    let mut j: usize = 0;
    while j < kids.len()
        invariant
            kids@ == t.children(i as int),
            forall|m: int| 0 <= m < kids@.len() ==> #[trigger] kids@[m] < t.len(),
            j <= kids@.len(),
            first_string_from(*t, kids@, 0) == first_string_from(*t, kids@, j as int),
        decreases kids@.len() - j,
    {
        let c = kids[j];
        if t.nodes[c].kind == NodeKind::Str {
            return Some(c);
        }
        j += 1;
    }
    None
}

/// The docstring edit for node `i`, if any.
pub fn docstring_edit(t: &SyntaxTree, src: &[char], i: usize, line_length: usize, tab_width: usize) -> (r: Option<
    (usize, usize, Vec<char>),
>)
    requires
        t.wf(src@.len()),
        i < t.len(),
        crate::pyutil::size_ok(src@, tab_width as nat),
    ensures
        match r {
            Some((s, e, rep)) => spec_docstring_edit(src@, *t, i as int, line_length as nat, tab_width as nat)
                == Some((s, e, rep@)) && s <= e <= src@.len(),
            None => spec_docstring_edit(src@, *t, i as int, line_length as nat, tab_width as nat) is None,
        },
{
    if !is_docstring_target(t, i) {
        return None;
    }
    let s = match first_string_in(t, i) {
        Some(s) => s,
        None => {
            return None;
        },
    };
    proof {
        assert(node_wf(t.nodes@[s as int], s as int, t.nodes@.len() as int, src@.len()));
    }
    match wrap_docstring(t, src, s, line_length, tab_width) {
        Some(rep) => Some((t.nodes[s].start, t.nodes[s].end, rep)),
        None => None,
    }
}


/// No two blank blocks are next to each other.
pub open spec fn no_double_blank(b: Seq<BlockView>) -> bool {
    forall|j: int| 0 <= j < b.len() - 1 ==> !(#[trigger] b[j] is Blank && b[j + 1] is Blank)
}

proof fn lemma_push_keeps(b: Seq<BlockView>, x: BlockView)
    requires
        no_double_blank(b),
        x is Blank ==> b.len() == 0 || !(b.last() is Blank),
    ensures
        no_double_blank(b.push(x)),
{
    let r = b.push(x);
    assert forall|j: int| 0 <= j < r.len() - 1 implies !(#[trigger] r[j] is Blank && r[j + 1] is Blank) by {
        if j < b.len() - 1 {
            assert(r[j] == b[j] && r[j + 1] == b[j + 1]);
        } else {
            assert(r[j] == b.last());
        }
    }
}

proof fn lemma_step_no_double(state: (Seq<BlockView>, Seq<Seq<char>>, bool), line: Seq<char>)
    requires
        no_double_blank(state.0),
    ensures
        no_double_blank(block_step(state, line).0),
{
    let (blocks, para, fenced) = state;
    let f = flush_para(blocks, para);
    if para.len() > 0 {
        lemma_push_keeps(blocks, BlockView::Paragraph(join_words(para)));
    }
    lemma_push_keeps(f, BlockView::Verbatim(line));
    lemma_push_keeps(blocks, BlockView::Verbatim(line));
    if !(f.len() > 0 && f.last() is Blank) {
        lemma_push_keeps(f, BlockView::Blank);
    }
}

proof fn lemma_block_state_no_double(lines: Seq<Seq<char>>, common: nat, k: int)
    ensures
        no_double_blank(block_state(lines, common, k).0),
    decreases k,
{
    if k > 0 {
        lemma_block_state_no_double(lines, common, k - 1);
        lemma_step_no_double(block_state(lines, common, k - 1), dedent(lines[k - 1], k - 1 == 0, common));
    }
}

proof fn lemma_drop_trailing_blanks(b: Seq<BlockView>)
    requires
        no_double_blank(b),
    ensures
        no_double_blank(drop_trailing_blanks(b)),
        drop_trailing_blanks(b).len() > 0 ==> !(drop_trailing_blanks(b).last() is Blank),
    decreases b.len(),
{
    if b.len() > 0 && b.last() is Blank {
        let d = b.drop_last();
        assert forall|j: int| 0 <= j < d.len() - 1 implies !(#[trigger] d[j] is Blank && d[j + 1] is Blank) by {
            assert(d[j] == b[j] && d[j + 1] == b[j + 1]);
        }
        lemma_drop_trailing_blanks(d);
    }
}

/// The blocks of a docstring never hold two blank blocks in a row, and never
/// end with one.
pub proof fn law_blocks_tidy(body: Seq<char>)
    ensures
        no_double_blank(spec_parse_blocks(body)),
        spec_parse_blocks(body).len() > 0 ==> !(spec_parse_blocks(body).last() is Blank),
{
    let lines = spec_split_lines(body);
    let common = common_indent(lines);
    lemma_block_state_no_double(lines, common, lines.len() as int);
    let (blocks, para, _) = block_state(lines, common, lines.len() as int);
    if para.len() > 0 {
        lemma_push_keeps(blocks, BlockView::Paragraph(join_words(para)));
    }
    lemma_drop_trailing_blanks(flush_para(blocks, para));
}


/// Record the docstring edits of every node of `t`, in node order.
pub fn collect_edits(t: &SyntaxTree, src: &[char], opts: &crate::format::Options, edits: &mut crate::edits::EditSet)
    requires
        t.wf(src@.len()),
        crate::pyutil::size_ok(src@, opts.tab_width as nat),
        crate::edits::edits_within(old(edits)@, src@.len()),
    ensures
        final(edits)@ == old(edits)@ + crate::format::kind_edits(src@, *t, *opts, crate::format::EditKind::Docstrings),
        crate::edits::edits_within(final(edits)@, src@.len()),
{
    crate::format::push_kind_edits(edits, t, src, opts, crate::format::EditKind::Docstrings);
}

} // verus!
