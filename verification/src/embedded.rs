//! Reformatting SQL, JSON and markdown held in triple-quoted strings.
//!
//! A string is embedded code when it is assigned to a name ending in
//! `_sql`, `_json`, `_md` or `_markdown` (any case), or when the line above
//! it is a marker comment `# language: <lang>`. The formatting itself
//! is done by an outside tool; this module decides which strings to hand
//! over, what text to hand over, and how the tool's output is put back.

use vstd::prelude::*;
use crate::chars::{ends_with, eq_chars, ends_with_chars};
use crate::pyutil::{str_chars, line_start_chars};
use crate::pyutil::{slice_to_vec, push_all, spec_split_lines, spec_indent_of_line, spec_line_start, spec_longest_line, split_lines, any_line_over_chars, indent_of_line_chars};
use crate::parse::{SyntaxTree, NodeKind, FieldName, node_wf};
use crate::docstrings::{spec_quote_info, quote_info};
use crate::edits::EditView;

verus! {

broadcast use vstd::seq_lib::group_seq_properties;

/// The embedded languages.
#[derive(Clone, Copy, PartialEq, Eq, Structural, Debug)]
pub enum Lang {
    Sql,
    Json,
    Markdown,
}

/// ASCII lowercase of `c`.
pub open spec fn ascii_lower(c: char) -> char {
    if 'A' <= c && c <= 'Z' {
        ((c as u32) + 32) as char
    } else {
        c
    }
}

pub fn to_ascii_lower(s: &[char]) -> (r: Vec<char>)
    ensures
        r@ == s@.map_values(|c: char| ascii_lower(c)),
{
    let mut out: Vec<char> = Vec::new();
    let mut i: usize = 0;
    while i < s.len()
        invariant
            i <= s@.len(),
            out@ == s@.subrange(0, i as int).map_values(|c: char| ascii_lower(c)),
        decreases s@.len() - i,
    {
        let c = s[i];
        let l = if 'A' <= c && c <= 'Z' {
            ((c as u8) + 32) as char
        } else {
            c
        };
        out.push(l);
        i += 1;
        assert(out@ =~= s@.subrange(0, i as int).map_values(|c: char| ascii_lower(c)));
    }
    out
}

/// `name` is `suffix`, or ends in `_` followed by `suffix`.
pub open spec fn spec_name_has_suffix(name: Seq<char>, suffix: Seq<char>) -> bool {
    name == suffix || ends_with(name, seq!['_'] + suffix)
}

pub fn name_has_suffix(name: &[char], suffix: &[char]) -> (r: bool)
    ensures
        r == spec_name_has_suffix(name@, suffix@),
{
    if eq_chars(name, suffix) {
        return true;
    }
    let mut needle: Vec<char> = vec!['_'];
    assert(needle@ == seq!['_']);
    push_all(&mut needle, suffix);
    ends_with_chars(name, needle.as_slice())
}

/// The language of the string at node `i`, from the name its nearest
/// enclosing assignment assigns to.
pub open spec fn spec_name_language(src: Seq<char>, t: SyntaxTree, i: int) -> Option<Lang> {
    match t.nearest_ancestor(i, NodeKind::Assignment) {
        None => None,
        Some(a) => match t.field_child(a as int, FieldName::Left) {
            None => None,
            Some(left) => {
                let lname = t.text(src, left as int).map_values(|c: char| ascii_lower(c));
                if spec_name_has_suffix(lname, "sql"@) {
                    Some(Lang::Sql)
                } else if spec_name_has_suffix(lname, "json"@) {
                    Some(Lang::Json)
                } else if spec_name_has_suffix(lname, "md"@) || spec_name_has_suffix(lname, "markdown"@) {
                    Some(Lang::Markdown)
                } else {
                    None
                }
            },
        },
    }
}

pub fn name_language(t: &SyntaxTree, src: &[char], i: usize) -> (r: Option<Lang>)
    requires
        t.wf(src@.len()),
        i < t.len(),
    ensures
        r == spec_name_language(src@, *t, i as int),
{
    let a = match t.nearest_ancestor_of_kind(i, NodeKind::Assignment) {
        Some(a) => a,
        None => {
            return None;
        },
    };
    let left = match t.child_by_field(a, FieldName::Left) {
        Some(l) => l,
        None => {
            return None;
        },
    };
    let name = t.node_text(src, left);
    let lname = to_ascii_lower(name.as_slice());
    let l = lname.as_slice();
    if name_has_suffix(l, str_chars("sql").as_slice()) {
        Some(Lang::Sql)
    } else if name_has_suffix(l, str_chars("json").as_slice()) {
        Some(Lang::Json)
    } else if name_has_suffix(l, str_chars("md").as_slice()) || name_has_suffix(l, str_chars("markdown").as_slice()) {
        Some(Lang::Markdown)
    } else {
        None
    }
}

/// The name an assignment gives a string selects its language (any case):
/// `sql` or a name ending in `_sql` selects SQL; otherwise `json` or `_json`
/// JSON; otherwise `md`, `_md`, `markdown` or `_markdown` markdown; any
/// other name selects none. The marker comment is consulted only when the
/// name selects none.
pub proof fn law_name_selects_language(src: Seq<char>, t: SyntaxTree, i: int, a: usize, left: usize)
    requires
        t.nearest_ancestor(i, NodeKind::Assignment) == Some(a),
        t.field_child(a as int, FieldName::Left) == Some(left),
    ensures
        ({
            let l = t.text(src, left as int).map_values(|c: char| ascii_lower(c));
            let sql = l == "sql"@ || ends_with(l, "_sql"@);
            let json = l == "json"@ || ends_with(l, "_json"@);
            let md = l == "md"@ || ends_with(l, "_md"@);
            let markdown = l == "markdown"@ || ends_with(l, "_markdown"@);
            &&& sql ==> spec_name_language(src, t, i) == Some(Lang::Sql)
            &&& !sql && json ==> spec_name_language(src, t, i) == Some(Lang::Json)
            &&& !sql && !json && (md || markdown) ==> spec_name_language(src, t, i) == Some(Lang::Markdown)
            &&& !sql && !json && !md && !markdown ==> spec_name_language(src, t, i) is None
            &&& (sql || json || md || markdown) ==> spec_detect_language(src, t, i) == spec_name_language(src, t, i)
        }),
{
    reveal_strlit("sql");
    reveal_strlit("_sql");
    reveal_strlit("json");
    reveal_strlit("_json");
    reveal_strlit("md");
    reveal_strlit("_md");
    reveal_strlit("markdown");
    reveal_strlit("_markdown");
    assert(seq!['_'] + "sql"@ =~= "_sql"@);
    assert(seq!['_'] + "json"@ =~= "_json"@);
    assert(seq!['_'] + "md"@ =~= "_md"@);
    assert(seq!['_'] + "markdown"@ =~= "_markdown"@);
}

/// The language a marker names: `sql`, `json`, `md` or `markdown`, in any
/// case.
pub open spec fn spec_lang_of_name(name: Seq<char>) -> Option<Lang> {
    let l = name.map_values(|c: char| ascii_lower(c));
    if l == "sql"@ {
        Some(Lang::Sql)
    } else if l == "json"@ {
        Some(Lang::Json)
    } else if l == "md"@ || l == "markdown"@ {
        Some(Lang::Markdown)
    } else {
        None
    }
}

/// The language named by `line` when it is a marker comment
/// `# language: <lang>` (blanks around it and around `<lang>` allowed).
pub open spec fn spec_marker_language(line: Seq<char>) -> Option<Lang> {
    match crate::chars::strip_prefix(crate::chars::trim(line), "# language:"@) {
        None => None,
        Some(rest) => spec_lang_of_name(crate::chars::trim(rest)),
    }
}

/// The line above the one holding `pos`, if there is one.
pub open spec fn spec_line_above(src: Seq<char>, pos: int) -> Option<Seq<char>> {
    let ls = spec_line_start(src, pos);
    if ls <= 0 {
        None
    } else {
        Some(src.subrange(spec_line_start(src, ls - 1), ls - 1))
    }
}

/// The language of the string at node `i`: from the name it is assigned to,
/// else from a marker comment on the line above the string.
pub open spec fn spec_detect_language(src: Seq<char>, t: SyntaxTree, i: int) -> Option<Lang> {
    match spec_name_language(src, t, i) {
        Some(l) => Some(l),
        None => match spec_line_above(src, t.start(i)) {
            Some(line) => spec_marker_language(line),
            None => None,
        },
    }
}

fn lang_of_name(name: &[char]) -> (r: Option<Lang>)
    ensures
        r == spec_lang_of_name(name@),
{
    let lower = to_ascii_lower(name);
    let l = lower.as_slice();
    if crate::chars::eq_str(l, "sql") {
        Some(Lang::Sql)
    } else if crate::chars::eq_str(l, "json") {
        Some(Lang::Json)
    } else if crate::chars::eq_str(l, "md") || crate::chars::eq_str(l, "markdown") {
        Some(Lang::Markdown)
    } else {
        None
    }
}

/// The language named by a marker comment line, if `line` is one.
pub fn marker_language(line: &[char]) -> (r: Option<Lang>)
    ensures
        r == spec_marker_language(line@),
{
    let trimmed = crate::chars::trimmed(line);
    match crate::chars::strip_prefix_str(trimmed.as_slice(), "# language:") {
        None => None,
        Some(rest) => {
            let name = crate::chars::trimmed(rest.as_slice());
            lang_of_name(name.as_slice())
        },
    }
}

/// The language of the string at node `i`, if it is embedded code.
pub fn detect_language(t: &SyntaxTree, src: &[char], i: usize) -> (r: Option<Lang>)
    requires
        t.wf(src@.len()),
        i < t.len(),
    ensures
        r == spec_detect_language(src@, *t, i as int),
{
    match name_language(t, src, i) {
        Some(l) => {
            return Some(l);
        },
        None => {},
    }
    proof {
        assert(node_wf(t.nodes@[i as int], i as int, t.nodes@.len() as int, src@.len()));
    }
    let start = t.nodes[i].start;
    let ls = line_start_chars(src, start);
    proof {
        crate::pyutil::lemma_line_start_bounds(src@, start as int);
    }
    if ls == 0 {
        return None;
    }
    let above = line_start_chars(src, ls - 1);
    proof {
        crate::pyutil::lemma_line_start_bounds(src@, ls - 1);
    }
    let line = slice_to_vec(src, above, ls - 1);
    marker_language(line.as_slice())
}

/// `p` occurs in `s`.
pub open spec fn contains_seq(s: Seq<char>, p: Seq<char>) -> bool {
    exists|j: int| 0 <= j && j + p.len() <= s.len() && #[trigger] s.subrange(j, j + p.len()) == p
}

pub fn contains_chars(s: &[char], p: &[char]) -> (r: bool)
    ensures
        r == contains_seq(s@, p@),
{
    if p.len() > s.len() {
        return false;
    }
    let last = s.len() - p.len();
    let mut j: usize = 0;
    loop
        invariant
            p@.len() <= s@.len(),
            s@.len() == s.len(),
            p@.len() == p.len(),
            last == s@.len() - p@.len(),
            j <= last,
            forall|k: int| 0 <= k < j ==> #[trigger] s@.subrange(k, k + p@.len()) != p@,
        decreases last - j,
    {
        let piece = slice_to_vec(s, j, j + p.len());
        if eq_chars(piece.as_slice(), p) {
            return true;
        }
        if j == last {
            return false;
        }
        j += 1;
    }
}

/// A string handed to the outside formatter: the node, its language and
/// the text to format.
pub struct EmbeddedJob {
    pub node: usize,
    pub lang: Lang,
    pub input: Vec<char>,
}

/// The text between the quotes of a triple-quoted literal, without the
/// newlines at either end.
pub open spec fn embedded_input(text: Seq<char>, k: nat) -> Seq<char> {
    let inner = text.subrange(k as int + 3, text.len() - 3);
    let a = crate::chars::leading_count(inner, '\n');
    let rest = inner.subrange(a as int, inner.len() as int);
    crate::chars::trim_end_char(rest, '\n')
}

/// The job for the string at node `i`, if it is embedded code: a string
/// literal with a detected language, containing a triple quote, on a line
/// wider than `line_length`, whose opening quote is triple.
pub open spec fn spec_embedded_job(src: Seq<char>, t: SyntaxTree, i: int, line_length: nat, tab: nat) -> Option<
    (Lang, Seq<char>),
> {
    if t.kind(i) != NodeKind::Str {
        None
    } else {
        match spec_detect_language(src, t, i) {
            None => None,
            Some(lang) => {
                let text = t.text(src, i);
                if !(contains_seq(text, crate::strings::triple_double()) || contains_seq(
                    text,
                    crate::strings::triple_single(),
                )) {
                    None
                } else if !(spec_longest_line(src.subrange(spec_line_start(src, t.start(i)), t.end(i)), tab)
                    > line_length) {
                    None
                } else {
                    match spec_quote_info(text) {
                        None => None,
                        Some((k, q)) => if q.len() != 3 || text.len() < k + 6 {
                            None
                        } else {
                            Some((lang, embedded_input(text, k)))
                        },
                    }
                }
            },
        }
    }
}

pub fn embedded_job(t: &SyntaxTree, src: &[char], i: usize, line_length: usize, tab_width: usize) -> (r: Option<
    EmbeddedJob,
>)
    requires
        t.wf(src@.len()),
        i < t.len(),
        crate::pyutil::size_ok(src@, tab_width as nat),
    ensures
        match r {
            Some(job) => job.node == i && spec_embedded_job(src@, *t, i as int, line_length as nat, tab_width as nat)
                == Some((job.lang, job.input@)),
            None => spec_embedded_job(src@, *t, i as int, line_length as nat, tab_width as nat) is None,
        },
{
    proof {
        assert(node_wf(t.nodes@[i as int], i as int, t.nodes@.len() as int, src@.len()));
    }
    if t.nodes[i].kind != NodeKind::Str {
        return None;
    }
    let lang = match detect_language(t, src, i) {
        Some(l) => l,
        None => {
            return None;
        },
    };
    let text = t.node_text(src, i);
    let tq: Vec<char> = vec!['"', '"', '"'];
    let ts: Vec<char> = vec!['\'', '\'', '\''];
    assert(tq@ == crate::strings::triple_double() && ts@ == crate::strings::triple_single());
    if !(contains_chars(text.as_slice(), tq.as_slice()) || contains_chars(text.as_slice(), ts.as_slice())) {
        return None;
    }
    if !any_line_over_chars(src, t.nodes[i].start, t.nodes[i].end, line_length, tab_width) {
        return None;
    }
    let (k, q) = match quote_info(text.as_slice()) {
        Some(x) => x,
        None => {
            return None;
        },
    };
    if q.len() != 3 || text.len() < k + 6 {
        return None;
    }
    let inner = slice_to_vec(text.as_slice(), k + 3, text.len() - 3);
    let a = crate::chars::leading_count_of(inner.as_slice(), '\n');
    let rest = slice_to_vec(inner.as_slice(), a, inner.len());
    let b = crate::chars::trailing_count_of(rest.as_slice(), '\n');
    let input = slice_to_vec(rest.as_slice(), 0, rest.len() - b);
    Some(EmbeddedJob { node: i, lang, input })
}

/// The formatted lines, each after `indent` and followed by a newline.
pub open spec fn indented_lines(lines: Seq<Seq<char>>, indent: Seq<char>) -> Seq<char>
    decreases lines.len(),
{
    if lines.len() == 0 {
        Seq::empty()
    } else {
        indented_lines(lines.drop_last(), indent) + indent + lines.last() + seq!['\n']
    }
}

/// The new text of the string at node `i` given the formatter's `output`:
/// same prefix and quotes, the output's lines (trailing newlines dropped)
/// each on its own line at the string's indentation, the closing quotes on
/// a line of their own. `None` when that is the text already there.
pub open spec fn spec_embedded_replacement(src: Seq<char>, t: SyntaxTree, i: int, output: Seq<char>) -> Option<
    Seq<char>,
> {
    let text = t.text(src, i);
    match spec_quote_info(text) {
        None => None,
        Some((k, q)) => {
            let prefix = text.subrange(0, k as int);
            let formatted = crate::chars::trim_end_char(output, '\n');
            let indent = spec_indent_of_line(src, t.start(i));
            let body = seq!['\n'] + indented_lines(spec_split_lines(formatted), indent) + indent;
            let rebuilt = prefix + q + body + q;
            if rebuilt == text {
                None
            } else {
                Some(rebuilt)
            }
        },
    }
}

pub fn embedded_replacement(t: &SyntaxTree, src: &[char], i: usize, output: &[char]) -> (r: Option<Vec<char>>)
    requires
        t.wf(src@.len()),
        i < t.len(),
    ensures
        match r {
            Some(rep) => spec_embedded_replacement(src@, *t, i as int, output@) == Some(rep@),
            None => spec_embedded_replacement(src@, *t, i as int, output@) is None,
        },
{
    proof {
        assert(node_wf(t.nodes@[i as int], i as int, t.nodes@.len() as int, src@.len()));
    }
    let text = t.node_text(src, i);
    let (k, q) = match quote_info(text.as_slice()) {
        Some(x) => x,
        None => {
            return None;
        },
    };
    let prefix = slice_to_vec(text.as_slice(), 0, k);
    let n = crate::chars::trailing_count_of(output, '\n');
    let formatted = slice_to_vec(output, 0, output.len() - n);
    let indent = indent_of_line_chars(src, t.nodes[i].start);
    let lines = split_lines(formatted.as_slice());
    let ghost ls = lines@.map_values(|l: Vec<char>| l@);
    let mut body: Vec<char> = vec!['\n'];
    let mut j: usize = 0;
    while j < lines.len()
        invariant
            ls == lines@.map_values(|l: Vec<char>| l@),
            j <= lines@.len(),
            body@ == seq!['\n'] + indented_lines(ls.take(j as int), indent@),
        decreases lines@.len() - j,
    {
        let ghost before = body@;
        push_all(&mut body, indent.as_slice());
        push_all(&mut body, lines[j].as_slice());
        body.push('\n');
        proof {
            let tk = ls.take(j + 1);
            assert(tk.drop_last() == ls.take(j as int));
            assert(tk.last() == lines@[j as int]@);
            assert(body@ =~= seq!['\n'] + (indented_lines(ls.take(j as int), indent@) + indent@ + lines@[j as int]@
                + seq!['\n']));
        }
        j += 1;
    }
    assert(ls.take(lines@.len() as int) == ls);
    push_all(&mut body, indent.as_slice());
    let mut rebuilt = prefix;
    push_all(&mut rebuilt, q.as_slice());
    push_all(&mut rebuilt, body.as_slice());
    push_all(&mut rebuilt, q.as_slice());
    if eq_chars(rebuilt.as_slice(), text.as_slice()) {
        return None;
    }
    Some(rebuilt)
}


/// Record the edits that put the outside formatter's outputs `outs` (one per
/// job of `jobs`) back into their strings.
pub fn collect_edits(
    t: &SyntaxTree,
    src: &[char],
    jobs: &Vec<EmbeddedJob>,
    outs: &Vec<Option<Vec<char>>>,
    edits: &mut crate::edits::EditSet,
)
    requires
        t.wf(src@.len()),
        crate::edits::edits_within(old(edits)@, src@.len()),
        outs@.len() == jobs@.len(),
        forall|k: int| 0 <= k < jobs@.len() ==> #[trigger] jobs@[k].node < t.len(),
    ensures
        final(edits)@ == old(edits)@ + crate::format::embedded_edits(
            src@,
            *t,
            jobs@.map_values(|j: EmbeddedJob| crate::format::job_view(j)),
            outs@.map_values(|o: Option<Vec<char>>| crate::format::out_view(o)),
        ),
        crate::edits::edits_within(final(edits)@, src@.len()),
{
    crate::format::push_embedded_edits(edits, t, src, jobs, outs);
}

} // verus!
