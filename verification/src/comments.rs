//! Comments on overlong lines: a trailing comment is moved to its own line
//! above the code, and a full-line prose comment is wrapped at word
//! boundaries. Lint and type directives are left where they are.

use vstd::prelude::*;
use crate::chars::{starts_with, strip_prefix, trim_start, trim_start_char, trim, all_blank, starts_with_str, strip_prefix_str};
use crate::pyutil::{spec_line_start, spec_line_end, spec_longest_line, spec_split_lines, leading_blank, trailing_blank, slice_to_vec, push_all};
use crate::pyutil::{no_newline, lemma_split_lines_single, lemma_split_lines_join, lemma_split_lines_no_newline};
use crate::parse::{SyntaxTree, node_wf};
use crate::edits::EditView;
use crate::fill::{fill, spec_fill};

verus! {

broadcast use vstd::seq_lib::group_seq_properties;

/// The run of `#` characters that opens `text`, and the rest.
pub open spec fn spec_split_hashes(text: Seq<char>) -> (Seq<char>, Seq<char>) {
    let k = crate::chars::leading_count(text, '#');
    (text.subrange(0, k as int), text.subrange(k as int, text.len() as int))
}

pub fn split_hashes(text: &[char]) -> (r: (Vec<char>, Vec<char>))
    ensures
        (r.0@, r.1@) == spec_split_hashes(text@),
{
    let k = crate::chars::leading_count_of(text, '#');
    (slice_to_vec(text, 0, k), slice_to_vec(text, k, text.len()))
}

/// A lint suppression or tool directive (`noqa`, `nosec`, `type:`,
/// `pragma:`, `pylint:`, `pyright:`, `mypy:`, `ruff:`, `fmt:`, `isort:`,
/// `flake8:`, `yapf:`, a shebang-like `!` or an `-*-` coding line).
/// `noqa` counts only when followed by `:` or nothing; `nosec` also when
/// followed by a space.
pub open spec fn spec_is_directive(s0: Seq<char>) -> bool {
    let s = trim_start(s0);
    ||| (strip_prefix(s, "noqa"@) matches Some(rest) && (rest.len() == 0 || rest[0] == ':'))
    ||| (strip_prefix(s, "nosec"@) matches Some(rest) && (rest.len() == 0 || rest[0] == ':' || rest[0] == ' '))
    ||| starts_with(s, "type:"@)
    ||| starts_with(s, "type :"@)
    ||| starts_with(s, "pragma:"@)
    ||| starts_with(s, "pylint:"@)
    ||| starts_with(s, "pyright:"@)
    ||| starts_with(s, "mypy:"@)
    ||| starts_with(s, "ruff:"@)
    ||| starts_with(s, "fmt:"@)
    ||| starts_with(s, "isort:"@)
    ||| starts_with(s, "flake8:"@)
    ||| starts_with(s, "yapf:"@)
    ||| starts_with(s, "!"@)
    ||| starts_with(s, "-*-"@)
}

/// Whether the comment body `s` is a directive that must stay verbatim.
pub fn is_directive(s: &[char]) -> (r: bool)
    ensures
        r == spec_is_directive(s@),
{
    let t = crate::chars::trimmed_start(s);
    let t = t.as_slice();
    if let Some(rest) = strip_prefix_str(t, "noqa") {
        if rest.len() == 0 || rest[0] == ':' {
            return true;
        }
    }
    if let Some(rest) = strip_prefix_str(t, "nosec") {
        if rest.len() == 0 || rest[0] == ':' || rest[0] == ' ' {
            return true;
        }
    }
    starts_with_str(t, "type:") || starts_with_str(t, "type :") || starts_with_str(t, "pragma:")
        || starts_with_str(t, "pylint:") || starts_with_str(t, "pyright:") || starts_with_str(t, "mypy:")
        || starts_with_str(t, "ruff:") || starts_with_str(t, "fmt:") || starts_with_str(t, "isort:")
        || starts_with_str(t, "flake8:") || starts_with_str(t, "yapf:") || starts_with_str(t, "!")
        || starts_with_str(t, "-*-")
}

/// The edit that moves the trailing comment at node `i` onto its own line
/// above the code, when the line is wider than `line_length`: the comment
/// takes the line's indentation, one space after its `#`s, and the code
/// loses the blanks before the comment. Directives stay put.
pub open spec fn spec_hoist_trailing_comment(
    src: Seq<char>,
    t: SyntaxTree,
    i: int,
    line_length: nat,
    tab: nat,
) -> Option<EditView> {
    let start = t.start(i);
    let ls = spec_line_start(src, start);
    let leading = src.subrange(ls, start);
    let le = spec_line_end(src, start);
    let text = t.text(src, i);
    let (hashes, body) = spec_split_hashes(text);
    let body_trimmed = trim_start(body);
    let indent = leading.subrange(0, leading_blank(leading) as int);
    let code_part = leading.subrange(0, leading.len() - trailing_blank(leading));
    if all_blank(leading) {
        None
    } else if spec_longest_line(src.subrange(ls, le), tab) <= line_length {
        None
    } else if !starts_with(text, seq!['#']) {
        None
    } else if spec_is_directive(body_trimmed) {
        None
    } else if trim(code_part).len() == 0 {
        None
    } else {
        let hoisted = if body_trimmed.len() == 0 {
            indent + hashes
        } else {
            indent + hashes + seq![' '] + body_trimmed
        };
        Some((ls as usize, le as usize, hoisted + seq!['\n'] + code_part))
    }
}

/// The comment lines `lines` written out: each on its own line after
/// `indent` (the first one without it), `hashes` first, then a space and the
/// text when there is any.
pub open spec fn comment_block(lines: Seq<Seq<char>>, indent: Seq<char>, hashes: Seq<char>) -> Seq<char>
    decreases lines.len(),
{
    if lines.len() == 0 {
        Seq::empty()
    } else {
        let prev = comment_block(lines.drop_last(), indent, hashes);
        let sep = if lines.len() > 1 {
            seq!['\n'] + indent
        } else {
            Seq::empty()
        };
        let line = lines.last();
        prev + sep + hashes + if line.len() == 0 {
            Seq::<char>::empty()
        } else {
            seq![' '] + line
        }
    }
}

/// Width given to the wrapper: the line length less the comment prefix
/// (`indent`, `#`s, a space), but at least 20.
pub open spec fn comment_budget(line_length: nat, prefix_len: nat) -> nat {
    let b = if line_length >= prefix_len {
        (line_length - prefix_len) as nat
    } else {
        0
    };
    if b > 20 {
        b
    } else {
        20
    }
}

/// The rewrapped text of the full-line comment at node `i`, when its line is
/// wider than `line_length` and it is not a directive.
pub open spec fn spec_wrap_comment(
    src: Seq<char>,
    t: SyntaxTree,
    i: int,
    line_length: nat,
    tab: nat,
) -> Option<Seq<char>> {
    let start = t.start(i);
    let ls = spec_line_start(src, start);
    let leading = src.subrange(ls, start);
    let le = spec_line_end(src, start);
    let text = t.text(src, i);
    let (hashes, body) = spec_split_hashes(text);
    let stripped = trim_start_char(body, ' ');
    if !all_blank(leading) {
        None
    } else if !starts_with(text, seq!['#']) {
        None
    } else if spec_longest_line(src.subrange(ls, le), tab) <= line_length {
        None
    } else if spec_is_directive(stripped) {
        None
    } else {
        let budget = comment_budget(line_length, leading.len() + hashes.len() + 1);
        let wrapped = spec_fill(stripped, budget as usize);
        let out = comment_block(spec_split_lines(wrapped), leading, hashes);
        if out == text {
            None
        } else {
            Some(out)
        }
    }
}

/// The comment edit for node `i`: moving a trailing comment up, else
/// rewrapping a full-line comment.
pub open spec fn spec_comment_edit(src: Seq<char>, t: SyntaxTree, i: int, line_length: nat, tab: nat) -> Option<EditView> {
    match spec_hoist_trailing_comment(src, t, i, line_length, tab) {
        Some(e) => Some(e),
        None => match spec_wrap_comment(src, t, i, line_length, tab) {
            Some(out) => Some((t.nodes@[i].start, t.nodes@[i].end, out)),
            None => None,
        },
    }
}

/// Move the trailing comment at node `i` above its code line.
pub fn hoist_trailing_comment(
    t: &SyntaxTree,
    src: &[char],
    i: usize,
    line_length: usize,
    tab_width: usize,
) -> (r: Option<(usize, usize, Vec<char>)>)
    requires
        t.wf(src@.len()),
        i < t.len(),
        crate::pyutil::size_ok(src@, tab_width as nat),
    ensures
        match r {
            Some((s, e, rep)) => spec_hoist_trailing_comment(src@, *t, i as int, line_length as nat, tab_width as nat)
                == Some((s, e, rep@)) && s <= e <= src@.len(),
            None => spec_hoist_trailing_comment(src@, *t, i as int, line_length as nat, tab_width as nat) is None,
        },
{
    proof {
        assert(node_wf(t.nodes@[i as int], i as int, t.nodes@.len() as int, src@.len()));
    }
    let start = t.nodes[i].start;
    let ls = crate::pyutil::line_start_chars(src, start);
    proof {
        crate::pyutil::lemma_line_start_bounds(src@, start as int);
        crate::pyutil::lemma_line_end_bounds(src@, start as int);
    }
    let leading = slice_to_vec(src, ls, start);
    if crate::chars::is_all_blank(leading.as_slice()) {
        return None;
    }
    let le = crate::pyutil::line_end_chars(src, start);
    let line = slice_to_vec(src, ls, le);
    proof {
        crate::pyutil::lemma_line_segment_within_longest(src@, start as int, le as int, tab_width as nat);
    }
    if crate::pyutil::longest_line_chars(line.as_slice(), tab_width) <= line_length {
        return None;
    }
    let text = t.node_text(src, i);
    if !starts_with_str(text.as_slice(), "#") {
        proof {
            reveal_strlit("#");
            assert("#"@ == seq!['#']);
        }
        return None;
    }
    proof {
        reveal_strlit("#");
        assert("#"@ == seq!['#']);
    }
    let (hashes, body) = split_hashes(text.as_slice());
    let body_trimmed = crate::chars::trimmed_start(body.as_slice());
    if is_directive(body_trimmed.as_slice()) {
        return None;
    }
    let nb = crate::pyutil::leading_blank_len(leading.as_slice());
    let indent = slice_to_vec(leading.as_slice(), 0, nb);
    let tb = crate::pyutil::trailing_blank_len(leading.as_slice());
    let code_part = slice_to_vec(leading.as_slice(), 0, leading.len() - tb);
    let code_trim = crate::chars::trimmed(code_part.as_slice());
    if code_trim.len() == 0 {
        return None;
    }
    let mut rep = indent;
    push_all(&mut rep, hashes.as_slice());
    if body_trimmed.len() > 0 {
        rep.push(' ');
        push_all(&mut rep, body_trimmed.as_slice());
    }
    rep.push('\n');
    push_all(&mut rep, code_part.as_slice());
    Some((ls, le, rep))
}

/// The comment block for the lines of wrapped text (`comment_block`).
pub fn render_comment(lines: &Vec<Vec<char>>, leading: &[char], hashes: &[char]) -> (out: Vec<char>)
    ensures
        out@ == comment_block(lines@.map_values(|l: Vec<char>| l@), leading@, hashes@),
{
    let ghost ls_view = lines@.map_values(|l: Vec<char>| l@);
    let mut out: Vec<char> = Vec::new();
    let mut j: usize = 0;
    while j < lines.len()
        invariant
            ls_view == lines@.map_values(|l: Vec<char>| l@),
            j <= lines@.len(),
            out@ == comment_block(ls_view.take(j as int), leading@, hashes@),
        decreases lines@.len() - j,
    {
        let ghost before = out@;
        if j > 0 {
            out.push('\n');
            push_all(&mut out, leading);
        }
        push_all(&mut out, hashes);
        if lines[j].len() > 0 {
            out.push(' ');
            push_all(&mut out, lines[j].as_slice());
        }
        proof {
            let tk = ls_view.take(j + 1);
            assert(tk.drop_last() == ls_view.take(j as int));
            assert(tk.last() == lines@[j as int]@);
            if j > 0 {
                if lines@[j as int]@.len() > 0 {
                    assert(out@ =~= before + (seq!['\n'] + leading@) + hashes@ + (seq![' '] + lines@[j as int]@));
                } else {
                    assert(out@ =~= before + (seq!['\n'] + leading@) + hashes@ + Seq::<char>::empty());
                }
            } else {
                if lines@[j as int]@.len() > 0 {
                    assert(out@ =~= before + Seq::<char>::empty() + hashes@ + (seq![' '] + lines@[j as int]@));
                } else {
                    assert(out@ =~= before + Seq::<char>::empty() + hashes@ + Seq::<char>::empty());
                }
            }
        }
        j += 1;
    }
    assert(ls_view.take(lines@.len() as int) == ls_view);
    out
}

/// Rewrap the full-line comment at node `i`.
pub fn wrap_comment(
    t: &SyntaxTree,
    src: &[char],
    i: usize,
    line_length: usize,
    tab_width: usize,
) -> (r: Option<Vec<char>>)
    requires
        t.wf(src@.len()),
        i < t.len(),
        crate::pyutil::size_ok(src@, tab_width as nat),
    ensures
        match r {
            Some(out) => spec_wrap_comment(src@, *t, i as int, line_length as nat, tab_width as nat) == Some(out@),
            None => spec_wrap_comment(src@, *t, i as int, line_length as nat, tab_width as nat) is None,
        },
{
    proof {
        assert(node_wf(t.nodes@[i as int], i as int, t.nodes@.len() as int, src@.len()));
        reveal_strlit("#");
        assert("#"@ == seq!['#']);
    }
    let start = t.nodes[i].start;
    let ls = crate::pyutil::line_start_chars(src, start);
    proof {
        crate::pyutil::lemma_line_start_bounds(src@, start as int);
        crate::pyutil::lemma_line_end_bounds(src@, start as int);
    }
    let leading = slice_to_vec(src, ls, start);
    if !crate::chars::is_all_blank(leading.as_slice()) {
        return None;
    }
    let text = t.node_text(src, i);
    if !starts_with_str(text.as_slice(), "#") {
        return None;
    }
    let le = crate::pyutil::line_end_chars(src, start);
    let line = slice_to_vec(src, ls, le);
    proof {
        crate::pyutil::lemma_line_segment_within_longest(src@, start as int, le as int, tab_width as nat);
    }
    if crate::pyutil::longest_line_chars(line.as_slice(), tab_width) <= line_length {
        return None;
    }
    let (hashes, body) = split_hashes(text.as_slice());
    let k = crate::chars::leading_count_of(body.as_slice(), ' ');
    let stripped = slice_to_vec(body.as_slice(), k, body.len());
    if is_directive(stripped.as_slice()) {
        return None;
    }
    proof {
        crate::chars::lemma_leading_count_bound(text@, '#');
    }
    let prefix_len = leading.len() + hashes.len() + 1;
    let b = line_length.saturating_sub(prefix_len);
    let budget = if b > 20 {
        b
    } else {
        20
    };
    let wrapped = fill(stripped.as_slice(), budget);
    let lines = crate::pyutil::split_lines(wrapped.as_slice());
    let out = render_comment(&lines, leading.as_slice(), hashes.as_slice());
    if crate::chars::eq_chars(out.as_slice(), text.as_slice()) {
        return None;
    }
    Some(out)
}

/// The comment edit for node `i`, if any.
pub fn comment_edit(
    t: &SyntaxTree,
    src: &[char],
    i: usize,
    line_length: usize,
    tab_width: usize,
) -> (r: Option<(usize, usize, Vec<char>)>)
    requires
        t.wf(src@.len()),
        i < t.len(),
        crate::pyutil::size_ok(src@, tab_width as nat),
    ensures
        match r {
            Some((s, e, rep)) => spec_comment_edit(src@, *t, i as int, line_length as nat, tab_width as nat)
                == Some((s, e, rep@)) && s <= e <= src@.len(),
            None => spec_comment_edit(src@, *t, i as int, line_length as nat, tab_width as nat) is None,
        },
{
    if let Some(e) = hoist_trailing_comment(t, src, i, line_length, tab_width) {
        return Some(e);
    }
    proof {
        assert(node_wf(t.nodes@[i as int], i as int, t.nodes@.len() as int, src@.len()));
    }
    match wrap_comment(t, src, i, line_length, tab_width) {
        Some(out) => Some((t.nodes[i].start, t.nodes[i].end, out)),
        None => None,
    }
}


/// Lint and type directives are never moved or rewrapped: a comment whose
/// text after its `#`s is a directive gets no edit.
pub proof fn law_directives_untouched(src: Seq<char>, t: SyntaxTree, i: int, line_length: nat, tab: nat)
    requires
        spec_is_directive(spec_split_hashes(t.text(src, i)).1),
    ensures
        spec_comment_edit(src, t, i, line_length, tab) is None,
{
    let body = spec_split_hashes(t.text(src, i)).1;
    crate::chars::lemma_trim_start_idempotent(body);
    crate::chars::lemma_trim_start_after_spaces(body);
    assert(spec_is_directive(trim_start(body)));
    assert(spec_is_directive(trim_start_char(body, ' ')));
}


/// Record the comment edits of every node of `t`, in node order.
pub fn collect_edits(t: &SyntaxTree, src: &[char], opts: &crate::format::Options, edits: &mut crate::edits::EditSet)
    requires
        t.wf(src@.len()),
        crate::pyutil::size_ok(src@, opts.tab_width as nat),
        crate::edits::edits_within(old(edits)@, src@.len()),
    ensures
        final(edits)@ == old(edits)@ + crate::format::kind_edits(src@, *t, *opts, crate::format::EditKind::Comments),
        crate::edits::edits_within(final(edits)@, src@.len()),
{
    crate::format::push_kind_edits(edits, t, src, opts, crate::format::EditKind::Comments);
}

proof fn lemma_no_newline_concat(a: Seq<char>, b: Seq<char>)
    requires
        no_newline(a),
        no_newline(b),
    ensures
        no_newline(a + b),
{
    assert forall|j: int| 0 <= j < (a + b).len() implies (a + b)[j] != '\n' by {
        if j < a.len() {
            assert((a + b)[j] == a[j]);
        } else {
            assert((a + b)[j] == b[j - a.len()]);
        }
    }
}

/// The layout of a comment block: one line per line of text, the first
/// made of `hashes` and the text, every other of `indent`, `hashes` and the
/// text; the text follows a space unless it is empty.
pub proof fn law_comment_block_layout(lines: Seq<Seq<char>>, indent: Seq<char>, hashes: Seq<char>)
    requires
        lines.len() >= 1,
        no_newline(indent),
        no_newline(hashes),
        forall|k: int| 0 <= k < lines.len() ==> no_newline(#[trigger] lines[k]),
    ensures
        ({
            let out = spec_split_lines(comment_block(lines, indent, hashes));
            &&& out.len() == lines.len()
            &&& out[0] == hashes + (if lines[0].len() == 0 {
                Seq::<char>::empty()
            } else {
                seq![' '] + lines[0]
            })
            &&& forall|k: int|
                1 <= k < lines.len() ==> #[trigger] out[k] == indent + hashes + (if lines[k].len() == 0 {
                    Seq::<char>::empty()
                } else {
                    seq![' '] + lines[k]
                })
        }),
    decreases lines.len(),
{
    let last = lines.last();
    let tail = if last.len() == 0 {
        Seq::<char>::empty()
    } else {
        seq![' '] + last
    };
    assert(no_newline(lines[lines.len() - 1]));
    assert(no_newline(seq![' ']));
    lemma_no_newline_concat(seq![' '], last);
    lemma_no_newline_concat(hashes, tail);
    let prev = comment_block(lines.drop_last(), indent, hashes);
    if lines.len() == 1 {
        assert(lines.drop_last().len() == 0);
        assert(comment_block(lines, indent, hashes) =~= hashes + tail);
        lemma_split_lines_single(hashes + tail);
    } else {
        let d = lines.drop_last();
        assert forall|k: int| 0 <= k < d.len() implies no_newline(#[trigger] d[k]) by {
            assert(d[k] == lines[k]);
        }
        law_comment_block_layout(d, indent, hashes);
        lemma_no_newline_concat(indent, hashes + tail);
        assert(comment_block(lines, indent, hashes) =~= prev + seq!['\n'] + (indent + (hashes + tail)));
        lemma_split_lines_join(prev, indent + (hashes + tail));
        lemma_split_lines_single(indent + (hashes + tail));
        let out = spec_split_lines(comment_block(lines, indent, hashes));
        assert(out =~= spec_split_lines(prev) + seq![indent + (hashes + tail)]);
        assert(indent + (hashes + tail) =~= indent + hashes + tail);
        assert forall|k: int| 1 <= k < lines.len() implies #[trigger] out[k] == indent + hashes + (if lines[k].len()
            == 0 {
            Seq::<char>::empty()
        } else {
            seq![' '] + lines[k]
        }) by {
            if k < d.len() {
                assert(out[k] == spec_split_lines(prev)[k]);
                assert(d[k] == lines[k]);
            }
        }
        assert(out[0] == spec_split_lines(prev)[0]);
        assert(d[0] == lines[0]);
    }
}

/// A rewrapped full-line comment keeps its place: its first line begins
/// with the comment's hashes, and every further line with the comment's
/// indentation followed by the same hashes.
pub proof fn law_wrapped_comment_lines(src: Seq<char>, t: SyntaxTree, i: int, line_length: nat, tab: nat)
    requires
        t.wf(src.len()),
        0 <= i < t.len(),
        spec_wrap_comment(src, t, i, line_length, tab) is Some,
    ensures
        spec_wrap_comment(src, t, i, line_length, tab) matches Some(out) && ({
            let leading = src.subrange(spec_line_start(src, t.start(i)), t.start(i));
            let hashes = spec_split_hashes(t.text(src, i)).0;
            let lines = spec_split_lines(out);
            &&& hashes.len() >= 1
            &&& lines.len() >= 1
            &&& starts_with(lines[0], hashes)
            &&& forall|k: int| 1 <= k < lines.len() ==> starts_with(#[trigger] lines[k], leading + hashes)
        }),
{
    let start = t.start(i);
    assert(node_wf(t.nodes@[i], i, t.nodes@.len() as int, src.len()));
    crate::pyutil::lemma_line_start_bounds(src, start);
    let ls = spec_line_start(src, start);
    let leading = src.subrange(ls, start);
    let text = t.text(src, i);
    let (hashes, body) = spec_split_hashes(text);
    let stripped = trim_start_char(body, ' ');
    let budget = comment_budget(line_length, leading.len() + hashes.len() + 1);
    let wl = spec_split_lines(spec_fill(stripped, budget as usize));
    crate::chars::lemma_leading_count_bound(text, '#');
    assert forall|j: int| 0 <= j < leading.len() implies leading[j] != '\n' by {
        assert(leading[j] == ' ' || leading[j] == '\t');
    }
    assert(text[0] == '#');
    assert(crate::chars::leading_count(text, '#') >= 1);
    assert forall|j: int| 0 <= j < hashes.len() implies hashes[j] != '\n' by {
        lemma_leading_all(text, '#', j);
    }
    lemma_split_lines_no_newline(spec_fill(stripped, budget as usize));
    law_comment_block_layout(wl, leading, hashes);
    let lines = spec_split_lines(comment_block(wl, leading, hashes));
    assert(starts_with(lines[0], hashes)) by {
        assert(lines[0].subrange(0, hashes.len() as int) =~= hashes);
    }
    assert forall|k: int| 1 <= k < lines.len() implies starts_with(#[trigger] lines[k], leading + hashes) by {
        assert(lines[k].subrange(0, (leading + hashes).len() as int) =~= leading + hashes);
    }
}

proof fn lemma_leading_all(s: Seq<char>, c: char, j: int)
    requires
        0 <= j < crate::chars::leading_count(s, c),
    ensures
        s[j] == c,
    decreases j,
{
    crate::chars::lemma_leading_count_bound(s, c);
    assert(s.len() > 0 && s[0] == c);
    if j > 0 {
        lemma_leading_all(s.drop_first(), c, j - 1);
        assert(s.drop_first()[j - 1] == s[j]);
    }
}

} // verus!
