//! The formatting passes: collecting every kind of edit over a syntax tree
//! and applying them.

use vstd::prelude::*;
use crate::edits::{EditSet, EditView, spec_apply, edits_within};
use crate::embedded::{Lang, EmbeddedJob, spec_embedded_job, spec_embedded_replacement, embedded_job, embedded_replacement};
use crate::strings::{spec_consider_string, consider_string};
use crate::pyutil::size_ok;
use crate::docstrings::{spec_docstring_edit, docstring_edit};
use crate::comments::{spec_comment_edit, comment_edit};
use crate::parse::{SyntaxTree, NodeKind, ParseError, parse_python, node_wf, spec_parse_ok};
use crate::pyutil::{spec_longest_line, spec_line_start, spec_line_end};
use crate::pyutil::{str_chars, chars_to_string};

verus! {

/// Formatter settings.
#[derive(Clone, Copy, Debug)]
pub struct Options {
    /// Maximum line width, in columns.
    pub line_length: usize,
    /// Columns a tab advances to (the next multiple of this).
    pub tab_width: usize,
    /// Reformat embedded SQL/JSON/markdown.
    pub embedded_enabled: bool,
    /// Wrap docstrings.
    pub docstrings_enabled: bool,
    /// Split string literals.
    pub strings_enabled: bool,
    /// Move and wrap comments.
    pub comments_enabled: bool,
}

impl Default for Options {
    /// Line length 88, tab width 4, everything enabled.
    fn default() -> (r: Self)
        ensures
            r == (Options {
                line_length: 88,
                tab_width: 4,
                embedded_enabled: true,
                docstrings_enabled: true,
                strings_enabled: true,
                comments_enabled: true,
            }),
    {
        Options {
            line_length: 88,
            tab_width: 4,
            embedded_enabled: true,
            docstrings_enabled: true,
            strings_enabled: true,
            comments_enabled: true,
        }
    }
}

/// Why formatting failed.
#[derive(Debug)]
pub enum FormatError {
    /// The source could not be parsed into a syntax tree.
    Parse(ParseError),
    /// The text is too long for its columns to be counted in a `usize`.
    TooLarge,
    /// As many passes as a `usize` counts each changed the text.
    Unsettled,
}

/// Runs the outside formatter for embedded code (sqlfluff, jq, prettier):
/// the formatted text, or `None` when it is unavailable or fails.
pub trait EmbeddedFormatter {
    fn format_embedded(&self, lang: Lang, input: &str) -> Option<String>;
}

/// A formatter for embedded code that is never available.
pub struct NoFormatter;

impl EmbeddedFormatter for NoFormatter {
    /// Never formats anything.
    fn format_embedded(&self, lang: Lang, input: &str) -> (r: Option<String>)
        ensures
            r is None,
    {
        None
    }
}

/// The values `f(0)`, ..., `f(n - 1)` that are present, in order.
pub open spec fn collect_some<A>(n: int, f: spec_fn(int) -> Option<A>) -> Seq<A>
    decreases n,
{
    if n <= 0 {
        Seq::empty()
    } else {
        let prev = collect_some(n - 1, f);
        match f(n - 1) {
            Some(a) => prev.push(a),
            None => prev,
        }
    }
}

/// The kinds of edit collected node by node.
#[derive(Clone, Copy, PartialEq, Eq, Structural, Debug)]
pub enum EditKind {
    Strings,
    Docstrings,
    Comments,
}

/// The edit of kind `kind` for node `j`: splitting a string literal,
/// rewrapping a docstring, or moving or rewrapping a comment.
pub open spec fn spec_node_edit(src: Seq<char>, t: SyntaxTree, opts: Options, kind: EditKind, j: int) -> Option<
    EditView,
> {
    match kind {
        EditKind::Strings => if t.kind(j) == NodeKind::Str {
            spec_consider_string(src, t, j, opts.line_length as nat, opts.tab_width as nat)
        } else {
            None
        },
        EditKind::Docstrings => spec_docstring_edit(src, t, j, opts.line_length as nat, opts.tab_width as nat),
        EditKind::Comments => if t.kind(j) == NodeKind::Comment {
            spec_comment_edit(src, t, j, opts.line_length as nat, opts.tab_width as nat)
        } else {
            None
        },
    }
}

/// The edits of kind `kind`, in node order.
pub open spec fn kind_edits(src: Seq<char>, t: SyntaxTree, opts: Options, kind: EditKind) -> Seq<EditView> {
    collect_some(t.len() as int, |j: int| spec_node_edit(src, t, opts, kind, j))
}

/// The embedded-code jobs of a pass: node, language and input text.
pub open spec fn embedded_jobs(src: Seq<char>, t: SyntaxTree, opts: Options) -> Seq<(usize, Lang, Seq<char>)> {
    collect_some(
        t.len() as int,
        |j: int|
            match spec_embedded_job(src, t, j, opts.line_length as nat, opts.tab_width as nat) {
                Some((lang, input)) => Some((j as usize, lang, input)),
                None => None,
            },
    )
}

/// Edits putting back the outside formatter's `outs` (one per job).
pub open spec fn embedded_edits(
    src: Seq<char>,
    t: SyntaxTree,
    jobs: Seq<(usize, Lang, Seq<char>)>,
    outs: Seq<Option<Seq<char>>>,
) -> Seq<EditView> {
    collect_some(
        jobs.len() as int,
        |j: int|
            match outs[j] {
                Some(o) => match spec_embedded_replacement(src, t, jobs[j].0 as int, o) {
                    Some(rep) => Some((t.nodes@[jobs[j].0 as int].start, t.nodes@[jobs[j].0 as int].end, rep)),
                    None => None,
                },
                None => None,
            },
    )
}

/// Every edit of a pass, in the order they are recorded.
pub open spec fn pass_edits(src: Seq<char>, t: SyntaxTree, opts: Options, outs: Seq<Option<Seq<char>>>) -> Seq<
    EditView,
> {
    (if opts.strings_enabled {
        kind_edits(src, t, opts, EditKind::Strings)
    } else {
        Seq::empty()
    }) + (if opts.docstrings_enabled {
        kind_edits(src, t, opts, EditKind::Docstrings)
    } else {
        Seq::empty()
    }) + (if opts.embedded_enabled {
        embedded_edits(src, t, embedded_jobs(src, t, opts), outs)
    } else {
        Seq::empty()
    }) + (if opts.comments_enabled {
        kind_edits(src, t, opts, EditKind::Comments)
    } else {
        Seq::empty()
    })
}

/// The text after one pass over `src` with syntax tree `t`, the outside
/// formatter having answered `outs` to the embedded-code jobs.
pub open spec fn spec_format_pass(src: Seq<char>, t: SyntaxTree, opts: Options, outs: Seq<Option<Seq<char>>>) -> Seq<
    char,
> {
    spec_apply(src, pass_edits(src, t, opts, outs))
}

/// `out` is what one pass makes of `src`: `src` itself when the pass has
/// nothing to change, else the pass over tree-sitter's parse of `src`, the
/// outside formatter having given some answer to each embedded-code job.
pub open spec fn is_pass_result(src: Seq<char>, opts: Options, out: Seq<char>) -> bool {
    ||| nothing_to_do(src, opts) && out == src
    ||| exists|t: SyntaxTree, outs: Seq<Option<Seq<char>>>|
        #![trigger spec_format_pass(src, t, opts, outs)]
        t.is_parse_of(src) && t.wf(src.len()) && outs.len() == embedded_jobs(src, t, opts).len() && out
            == spec_format_pass(src, t, opts, outs)
}

pub open spec fn job_view(j: EmbeddedJob) -> (usize, Lang, Seq<char>) {
    (j.node, j.lang, j.input@)
}

pub open spec fn out_view(o: Option<Vec<char>>) -> Option<Seq<char>> {
    match o {
        Some(v) => Some(v@),
        None => None,
    }
}

/// The edit of kind `kind` for node `i`, if any.
fn node_edit(t: &SyntaxTree, src: &[char], opts: &Options, kind: EditKind, i: usize) -> (r: Option<
    (usize, usize, Vec<char>),
>)
    requires
        t.wf(src@.len()),
        i < t.len(),
        size_ok(src@, opts.tab_width as nat),
    ensures
        match r {
            Some((s, e, rep)) => spec_node_edit(src@, *t, *opts, kind, i as int) == Some((s, e, rep@)) && s <= e
                <= src@.len(),
            None => spec_node_edit(src@, *t, *opts, kind, i as int) is None,
        },
{
    proof {
        assert(node_wf(t.nodes@[i as int], i as int, t.nodes@.len() as int, src@.len()));
    }
    match kind {
        EditKind::Strings => if t.nodes[i].kind == NodeKind::Str {
            consider_string(t, src, i, opts.line_length, opts.tab_width)
        } else {
            None
        },
        EditKind::Docstrings => docstring_edit(t, src, i, opts.line_length, opts.tab_width),
        EditKind::Comments => if t.nodes[i].kind == NodeKind::Comment {
            comment_edit(t, src, i, opts.line_length, opts.tab_width)
        } else {
            None
        },
    }
}

/// Record the edits of kind `kind` over every node of `t`.
pub(crate) fn push_kind_edits(edits: &mut EditSet, t: &SyntaxTree, src: &[char], opts: &Options, kind: EditKind)
    requires
        t.wf(src@.len()),
        size_ok(src@, opts.tab_width as nat),
        edits_within(old(edits)@, src@.len()),
    ensures
        final(edits)@ == old(edits)@ + kind_edits(src@, *t, *opts, kind),
        edits_within(final(edits)@, src@.len()),
{
    let ghost f = |j: int| spec_node_edit(src@, *t, *opts, kind, j);
    let ghost start = edits@;
    let mut i: usize = 0;
    while i < t.nodes.len()
        invariant
            t.wf(src@.len()),
            size_ok(src@, opts.tab_width as nat),
            i <= t.len(),
            f == (|j: int| spec_node_edit(src@, *t, *opts, kind, j)),
            edits@ == start + collect_some(i as int, f),
            edits_within(edits@, src@.len()),
        decreases t.len() - i,
    {
        match node_edit(t, src, opts, kind, i) {
            Some((s, e, rep)) => {
                let text = chars_to_string(rep.as_slice());
                edits.push(s, e, text);
                assert(edits@ =~= start + collect_some(i + 1, f));
            },
            None => {},
        }
        i += 1;
    }
}


/// The embedded-code jobs over every node of `t`.
pub fn collect_embedded_jobs(t: &SyntaxTree, src: &[char], opts: &Options) -> (r: Vec<EmbeddedJob>)
    requires
        t.wf(src@.len()),
        size_ok(src@, opts.tab_width as nat),
    ensures
        r@.map_values(|j: EmbeddedJob| job_view(j)) == embedded_jobs(src@, *t, *opts),
        forall|k: int| 0 <= k < r@.len() ==> #[trigger] r@[k].node < t.len(),
{
    let ghost f = |j: int|
        match spec_embedded_job(src@, *t, j, opts.line_length as nat, opts.tab_width as nat) {
            Some((lang, input)) => Some((j as usize, lang, input)),
            None => None,
        };
    let mut jobs: Vec<EmbeddedJob> = Vec::new();
    let mut i: usize = 0;
    while i < t.nodes.len()
        invariant
            t.wf(src@.len()),
            size_ok(src@, opts.tab_width as nat),
            i <= t.len(),
            f == (|j: int|
                match spec_embedded_job(src@, *t, j, opts.line_length as nat, opts.tab_width as nat) {
                    Some((lang, input)) => Some((j as usize, lang, input)),
                    None => None,
                }),
            jobs@.map_values(|j: EmbeddedJob| job_view(j)) == collect_some(i as int, f),
            forall|k: int| 0 <= k < jobs@.len() ==> #[trigger] jobs@[k].node < t.len(),
        decreases t.len() - i,
    {
        let ghost before = jobs@.map_values(|j: EmbeddedJob| job_view(j));
        match embedded_job(t, src, i, opts.line_length, opts.tab_width) {
            Some(job) => {
                jobs.push(job);
                assert(jobs@.map_values(|j: EmbeddedJob| job_view(j)) =~= before.push(job_view(job)));
            },
            None => {},
        }
        i += 1;
    }
    jobs
}

/// Record the edits that put back the formatter's outputs `outs`.
pub(crate) fn push_embedded_edits(
    edits: &mut EditSet,
    t: &SyntaxTree,
    src: &[char],
    jobs: &Vec<EmbeddedJob>,
    outs: &Vec<Option<Vec<char>>>,
)
    requires
        t.wf(src@.len()),
        edits_within(old(edits)@, src@.len()),
        outs@.len() == jobs@.len(),
        forall|k: int| 0 <= k < jobs@.len() ==> #[trigger] jobs@[k].node < t.len(),
    ensures
        final(edits)@ == old(edits)@ + embedded_edits(
            src@,
            *t,
            jobs@.map_values(|j: EmbeddedJob| job_view(j)),
            outs@.map_values(|o: Option<Vec<char>>| out_view(o)),
        ),
        edits_within(final(edits)@, src@.len()),
{
    let ghost js = jobs@.map_values(|j: EmbeddedJob| job_view(j));
    let ghost os = outs@.map_values(|o: Option<Vec<char>>| out_view(o));
    let ghost f = |j: int|
        match os[j] {
            Some(o) => match spec_embedded_replacement(src@, *t, js[j].0 as int, o) {
                Some(rep) => Some((t.nodes@[js[j].0 as int].start, t.nodes@[js[j].0 as int].end, rep)),
                None => None,
            },
            None => None,
        };
    let ghost start = edits@;
    let mut k: usize = 0;
    while k < jobs.len()
        invariant
            t.wf(src@.len()),
            outs@.len() == jobs@.len(),
            forall|m: int| 0 <= m < jobs@.len() ==> #[trigger] jobs@[m].node < t.len(),
            js == jobs@.map_values(|j: EmbeddedJob| job_view(j)),
            os == outs@.map_values(|o: Option<Vec<char>>| out_view(o)),
            f == (|j: int|
                match os[j] {
                    Some(o) => match spec_embedded_replacement(src@, *t, js[j].0 as int, o) {
                        Some(rep) => Some((t.nodes@[js[j].0 as int].start, t.nodes@[js[j].0 as int].end, rep)),
                        None => None,
                    },
                    None => None,
                }),
            k <= jobs@.len(),
            edits@ == start + collect_some(k as int, f),
            edits_within(edits@, src@.len()),
        decreases jobs@.len() - k,
    {
        let node = jobs[k].node;
        proof {
            assert(node_wf(t.nodes@[node as int], node as int, t.nodes@.len() as int, src@.len()));
            assert(js[k as int].0 == node);
            assert(os[k as int] == out_view(outs@[k as int]));
        }
        match &outs[k] {
            Some(o) => {
                match embedded_replacement(t, src, node, o.as_slice()) {
                    Some(rep) => {
                        let text = chars_to_string(rep.as_slice());
                        edits.push(t.nodes[node].start, t.nodes[node].end, text);
                        assert(edits@ =~= start + collect_some(k + 1, f));
                    },
                    None => {},
                }
            },
            None => {},
        }
        k += 1;
    }
}

/// One pass over `src` with syntax tree `t`, given the formatter's outputs
/// `outs` for the embedded-code jobs `jobs`.
pub fn format_tree(
    t: &SyntaxTree,
    src: &[char],
    opts: &Options,
    jobs: &Vec<EmbeddedJob>,
    outs: &Vec<Option<Vec<char>>>,
) -> (r: Vec<char>)
    requires
        t.wf(src@.len()),
        size_ok(src@, opts.tab_width as nat),
        jobs@.map_values(|j: EmbeddedJob| job_view(j)) == embedded_jobs(src@, *t, *opts),
        forall|k: int| 0 <= k < jobs@.len() ==> #[trigger] jobs@[k].node < t.len(),
        outs@.len() == jobs@.len(),
    ensures
        r@ == spec_format_pass(src@, *t, *opts, outs@.map_values(|o: Option<Vec<char>>| out_view(o))),
{
    let ghost os = outs@.map_values(|o: Option<Vec<char>>| out_view(o));
    let mut edits = EditSet::new();
    if opts.strings_enabled {
        crate::strings::collect_edits(t, src, opts, &mut edits);
    }
    let ghost e1 = edits@;
    if opts.docstrings_enabled {
        crate::docstrings::collect_edits(t, src, opts, &mut edits);
    }
    let ghost e2 = edits@;
    if opts.embedded_enabled {
        crate::embedded::collect_edits(t, src, jobs, outs, &mut edits);
    }
    let ghost e3 = edits@;
    if opts.comments_enabled {
        crate::comments::collect_edits(t, src, opts, &mut edits);
    }
    assert(edits@ =~= pass_edits(src@, *t, *opts, os));
    edits.apply_chars(src)
}

/// Whether a text is small enough to format with `opts`: its length and
/// the width of its widest line fit in a `usize`.
pub fn fits(src: &[char], opts: &Options) -> (r: bool)
    ensures
        r == size_ok(src@, opts.tab_width as nat),
{
    if src.len() > usize::MAX / 8 {
        return false;
    }
    crate::pyutil::longest_line_checked(src, opts.tab_width).is_some()
}

/// One formatting pass over `source`, asking `formatter` for the embedded
/// code: the edits collected over tree-sitter's parse of `source`, applied.
/// When the pass has nothing to change (every line fits, or every kind of
/// edit is off) the source comes back as it is.
pub fn format_pass<F: EmbeddedFormatter>(source: &str, opts: &Options, formatter: &F) -> (r: Result<
    String,
    FormatError,
>)
    ensures
        r matches Ok(out) ==> is_pass_result(source@, *opts, out@),
        r matches Err(FormatError::TooLarge) <==> !size_ok(source@, opts.tab_width as nat),
        size_ok(source@, opts.tab_width as nat) && nothing_to_do(source@, *opts) ==> (r matches Ok(out)
            && out@ == source@),
        size_ok(source@, opts.tab_width as nat) && spec_parse_ok(source@) ==> r is Ok,
        r matches Err(FormatError::Parse(_)) ==> !spec_parse_ok(source@),
        !opts.strings_enabled && !opts.docstrings_enabled && !opts.embedded_enabled && !opts.comments_enabled ==> (
        r matches Ok(out) ==> out@ == source@),
{
    let src = str_chars(source);
    if !fits(src.as_slice(), opts) {
        return Err(FormatError::TooLarge);
    }
    let all_off = !opts.strings_enabled && !opts.docstrings_enabled && !opts.embedded_enabled
        && !opts.comments_enabled;
    if all_off || crate::pyutil::longest_line_chars(src.as_slice(), opts.tab_width) <= opts.line_length {
        return Ok(chars_to_string(src.as_slice()));
    }
    let t = match parse_python(source) {
        Ok(t) => t,
        Err(e) => {
            return Err(FormatError::Parse(e));
        },
    };
    let jobs = collect_embedded_jobs(&t, src.as_slice(), opts);
    let mut outs: Vec<Option<Vec<char>>> = Vec::new();
    if opts.embedded_enabled {
        let mut k: usize = 0;
        while k < jobs.len()
            invariant
                k <= jobs@.len(),
                outs@.len() == k,
            decreases jobs@.len() - k,
        {
            let input = chars_to_string(jobs[k].input.as_slice());
            let answer = formatter.format_embedded(jobs[k].lang, input.as_str());
            let out = match answer {
                Some(s) => Some(str_chars(s.as_str())),
                None => None,
            };
            outs.push(out);
            k += 1;
        }
    } else {
        let mut k: usize = 0;
        while k < jobs.len()
            invariant
                k <= jobs@.len(),
                outs@.len() == k,
            decreases jobs@.len() - k,
        {
            outs.push(None);
            k += 1;
        }
    }
    let out = format_tree(&t, src.as_slice(), opts, &jobs, &outs);
    let ghost os = outs@.map_values(|o: Option<Vec<char>>| out_view(o));
    assert(spec_format_pass(source@, t, *opts, os) == out@);
    assert(is_pass_result(source@, *opts, out@));
    proof {
        if !opts.strings_enabled && !opts.docstrings_enabled && !opts.embedded_enabled && !opts.comments_enabled {
            law_disabled_pass_unchanged(source@, t, *opts, os);
        }
    }
    Ok(chars_to_string(out.as_slice()))
}

/// `out` is reached from `src` by `n` passes, each a pass result of the
/// text before it.
pub open spec fn reached_by_passes(src: Seq<char>, opts: Options, out: Seq<char>, n: nat) -> bool
    decreases n,
{
    if n == 0 {
        out == src
    } else {
        exists|mid: Seq<char>|
            #![trigger is_pass_result(mid, opts, out)]
            reached_by_passes(src, opts, mid, (n - 1) as nat) && is_pass_result(mid, opts, out)
    }
}

/// Format a Python source until a fixed point: passes run until one leaves
/// the text unchanged, and that text is the result.
pub fn format_source<F: EmbeddedFormatter>(source: &str, opts: &Options, formatter: &F) -> (r: Result<
    String,
    FormatError,
>)
    ensures
        r matches Ok(out) ==> is_pass_result(out@, *opts, out@) && exists|n: nat|
            #![trigger reached_by_passes(source@, *opts, out@, n)]
            reached_by_passes(source@, *opts, out@, n),
        !size_ok(source@, opts.tab_width as nat) ==> r matches Err(FormatError::TooLarge),
        r matches Err(FormatError::TooLarge) ==> exists|n: nat, mid: Seq<char>|
            #![trigger reached_by_passes(source@, *opts, mid, n)]
            reached_by_passes(source@, *opts, mid, n) && !size_ok(mid, opts.tab_width as nat),
        r matches Err(FormatError::Parse(_)) ==> exists|n: nat, mid: Seq<char>|
            #![trigger reached_by_passes(source@, *opts, mid, n)]
            reached_by_passes(source@, *opts, mid, n) && !spec_parse_ok(mid),
        spec_longest_line(source@, opts.tab_width as nat) <= opts.line_length ==> (
        r matches Ok(out) ==> out@ == source@),
        size_ok(source@, opts.tab_width as nat) && nothing_to_do(source@, *opts) ==> (r matches Ok(out)
            && out@ == source@),
        size_ok(source@, opts.tab_width as nat) && spec_parse_ok(source@) ==> (r is Ok || r matches Err(
            FormatError::Unsettled,
        ) || exists|n: nat, mid: Seq<char>|
            #![trigger reached_by_passes(source@, *opts, mid, n)]
            n > 0 && reached_by_passes(source@, *opts, mid, n) && !(size_ok(mid, opts.tab_width as nat)
                && spec_parse_ok(mid))),
{
    let mut cur = chars_to_string(str_chars(source).as_slice());
    let mut n: usize = 0;
    loop
        invariant
            n < usize::MAX,
            reached_by_passes(source@, *opts, cur@, n as nat),
            n > 0 ==> size_ok(source@, opts.tab_width as nat) && !nothing_to_do(source@, *opts)
                && spec_longest_line(source@, opts.tab_width as nat) > opts.line_length,
        decreases usize::MAX - n,
    {
        let next = match format_pass(cur.as_str(), opts, formatter) {
            Ok(x) => x,
            Err(e) => {
                assert(reached_by_passes(source@, *opts, cur@, n as nat));
                return Err(e);
            },
        };
        let a = str_chars(next.as_str());
        let b = str_chars(cur.as_str());
        proof {
            if n == 0 && spec_longest_line(source@, opts.tab_width as nat) <= opts.line_length {
                lemma_pass_result_of_fitting(source@, *opts, next@);
            }
        }
        if crate::chars::eq_chars(a.as_slice(), b.as_slice()) {
            assert(next@ == cur@);
            return Ok(next);
        }
        if n == usize::MAX - 1 {
            return Err(FormatError::Unsettled);
        }
        proof {
            assert(is_pass_result(cur@, *opts, next@));
            assert(reached_by_passes(source@, *opts, next@, (n + 1) as nat));
        }
        n += 1;
        cur = next;
    }
}


proof fn lemma_collect_none<A>(n: int, f: spec_fn(int) -> Option<A>)
    requires
        forall|j: int| 0 <= j < n ==> #[trigger] f(j) is None,
    ensures
        collect_some(n, f) == Seq::<A>::empty(),
    decreases n,
{
    if n > 0 {
        lemma_collect_none(n - 1, f);
    }
}

proof fn lemma_first_string_member(t: SyntaxTree, kids: Seq<usize>, j: int)
    ensures
        first_string_from_is_member(t, kids, j),
    decreases kids.len() - j,
{
    if 0 <= j < kids.len() && t.kind(kids[j] as int) != NodeKind::Str {
        lemma_first_string_member(t, kids, j + 1);
    }
}

/// What `first_string_from` finds is one of the children.
pub open spec fn first_string_from_is_member(t: SyntaxTree, kids: Seq<usize>, j: int) -> bool {
    crate::docstrings::first_string_from(t, kids, j) matches Some(s) ==> kids.contains(s)
}

proof fn lemma_node_fits(src: Seq<char>, t: SyntaxTree, i: int, tab: nat)
    requires
        t.wf(src.len()),
        0 <= i < t.len(),
    ensures
        spec_longest_line(src.subrange(spec_line_start(src, t.start(i)), t.end(i)), tab)
            <= spec_longest_line(src, tab),
        spec_longest_line(
            src.subrange(spec_line_start(src, t.start(i)), spec_line_end(src, t.start(i))),
            tab,
        ) <= spec_longest_line(src, tab),
{
    assert(node_wf(t.nodes@[i], i, t.nodes@.len() as int, src.len()));
    crate::pyutil::lemma_line_segment_within_longest(src, t.start(i), t.end(i), tab);
    crate::pyutil::lemma_line_end_bounds(src, t.start(i));
    crate::pyutil::lemma_line_segment_within_longest(src, t.start(i), spec_line_end(src, t.start(i)), tab);
}

proof fn lemma_no_edit_when_fitting(src: Seq<char>, t: SyntaxTree, opts: Options, j: int)
    requires
        t.wf(src.len()),
        0 <= j < t.len(),
        spec_longest_line(src, opts.tab_width as nat) <= opts.line_length,
    ensures
        spec_node_edit(src, t, opts, EditKind::Strings, j) is None,
        spec_node_edit(src, t, opts, EditKind::Docstrings, j) is None,
        spec_node_edit(src, t, opts, EditKind::Comments, j) is None,
        spec_embedded_job(src, t, j, opts.line_length as nat, opts.tab_width as nat) is None,
{
    let tab = opts.tab_width as nat;
    lemma_node_fits(src, t, j, tab);
    let kids = t.children(j);
    lemma_first_string_member(t, kids, 0);
    match crate::docstrings::first_string_from(t, kids, 0) {
        Some(s) => {
            let k = choose|k: int| 0 <= k < kids.len() && kids[k] == s;
            assert(node_wf(t.nodes@[j], j, t.nodes@.len() as int, src.len()));
            assert(s < t.len());
            lemma_node_fits(src, t, s as int, tab);
        },
        None => {},
    }
}

proof fn lemma_pass_result_of_fitting(src: Seq<char>, opts: Options, out: Seq<char>)
    requires
        is_pass_result(src, opts, out),
        spec_longest_line(src, opts.tab_width as nat) <= opts.line_length,
    ensures
        out == src,
{
    if !(nothing_to_do(src, opts) && out == src) {
        let (t, outs) = choose|t: SyntaxTree, outs: Seq<Option<Seq<char>>>|
            #![trigger spec_format_pass(src, t, opts, outs)]
            t.is_parse_of(src) && t.wf(src.len()) && outs.len() == embedded_jobs(src, t, opts).len() && out
                == spec_format_pass(src, t, opts, outs);
        law_fitting_source_unchanged(src, t, opts, outs);
    }
}

/// A pass has nothing to change: every kind of edit is switched off, or
/// every line already fits in the line length.
pub open spec fn nothing_to_do(src: Seq<char>, opts: Options) -> bool {
    ||| (!opts.strings_enabled && !opts.docstrings_enabled && !opts.embedded_enabled && !opts.comments_enabled)
    ||| spec_longest_line(src, opts.tab_width as nat) <= opts.line_length
}

/// With every kind of edit switched off, a pass gives back its source.
pub proof fn law_disabled_pass_unchanged(src: Seq<char>, t: SyntaxTree, opts: Options, outs: Seq<Option<Seq<char>>>)
    requires
        !opts.strings_enabled,
        !opts.docstrings_enabled,
        !opts.embedded_enabled,
        !opts.comments_enabled,
    ensures
        spec_format_pass(src, t, opts, outs) == src,
{
    assert(pass_edits(src, t, opts, outs) =~= Seq::<EditView>::empty());
    crate::edits::law_apply_without_edits(src);
}

/// A source whose lines all fit in the line length is left unchanged by a
/// pass, whatever its syntax tree and whatever the outside formatter answers.
pub proof fn law_fitting_source_unchanged(
    src: Seq<char>,
    t: SyntaxTree,
    opts: Options,
    outs: Seq<Option<Seq<char>>>,
)
    requires
        t.wf(src.len()),
        spec_longest_line(src, opts.tab_width as nat) <= opts.line_length,
    ensures
        spec_format_pass(src, t, opts, outs) == src,
{
    assert forall|j: int| 0 <= j < t.len() implies {
        &&& #[trigger] spec_node_edit(src, t, opts, EditKind::Strings, j) is None
        &&& spec_node_edit(src, t, opts, EditKind::Docstrings, j) is None
        &&& spec_node_edit(src, t, opts, EditKind::Comments, j) is None
        &&& spec_embedded_job(src, t, j, opts.line_length as nat, opts.tab_width as nat) is None
    } by {
        lemma_no_edit_when_fitting(src, t, opts, j);
    }
    let n = t.len() as int;
    let fs = |j: int| spec_node_edit(src, t, opts, EditKind::Strings, j);
    let fd = |j: int| spec_node_edit(src, t, opts, EditKind::Docstrings, j);
    let fc = |j: int| spec_node_edit(src, t, opts, EditKind::Comments, j);
    let fj = |j: int|
        match spec_embedded_job(src, t, j, opts.line_length as nat, opts.tab_width as nat) {
            Some((lang, input)) => Some((j as usize, lang, input)),
            None => None,
        };
    assert forall|j: int| 0 <= j < n implies #[trigger] fs(j) is None by {
        lemma_no_edit_when_fitting(src, t, opts, j);
    }
    assert forall|j: int| 0 <= j < n implies #[trigger] fd(j) is None by {
        lemma_no_edit_when_fitting(src, t, opts, j);
    }
    assert forall|j: int| 0 <= j < n implies #[trigger] fc(j) is None by {
        lemma_no_edit_when_fitting(src, t, opts, j);
    }
    assert forall|j: int| 0 <= j < n implies #[trigger] fj(j) is None by {
        lemma_no_edit_when_fitting(src, t, opts, j);
    }
    lemma_collect_none(n, fs);
    lemma_collect_none(n, fd);
    lemma_collect_none(n, fc);
    lemma_collect_none(n, fj);
    let jobs = embedded_jobs(src, t, opts);
    assert(jobs.len() == 0);
    assert(embedded_edits(src, t, jobs, outs) == Seq::<EditView>::empty());
    assert(pass_edits(src, t, opts, outs) =~= Seq::<EditView>::empty());
    crate::edits::law_apply_without_edits(src);
}

} // verus!
