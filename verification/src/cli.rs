//! The command line of the `pylinefix` program.

use vstd::prelude::*;
use crate::chars::eq_str;
use crate::format::Options;
use crate::pyutil::str_chars;

verus! {

/// Command-line arguments: paths to format and the options that switch
/// parts of the formatter off.
pub struct Args {
    /// Files or directories to format; none, or a single `-`, reads standard
    /// input.
    pub paths: Vec<String>,
    /// Line length to use instead of the one from `pyproject.toml` (or 88).
    pub line_length: Option<usize>,
    /// In standard-input mode, the path of the buffer, used to find
    /// `pyproject.toml`.
    pub stdin_filename: Option<String>,
    /// Write nothing; report through the exit code whether anything would
    /// change.
    pub check: bool,
    /// Print a summary to standard error.
    pub verbose: bool,
    /// Do not split string literals.
    pub no_strings: bool,
    /// Do not wrap docstrings.
    pub no_docstrings: bool,
    /// Do not reformat embedded code.
    pub no_embedded: bool,
    /// Do not move or wrap comments.
    pub no_comments: bool,
}

/// The views of a list of strings.
pub open spec fn strings_view(v: Seq<String>) -> Seq<Seq<char>> {
    v.map_values(|s: String| s@)
}

/// Standard-input mode: no path is given, or the only path is `-`.
pub open spec fn spec_stdin_mode(paths: Seq<Seq<char>>) -> bool {
    paths.len() == 0 || (paths.len() == 1 && paths[0] == seq!['-'])
}

/// Whether the arguments ask to read standard input and write standard output.
pub fn stdin_mode(args: &Args) -> (r: bool)
    ensures
        r == spec_stdin_mode(strings_view(args.paths@)),
{
    if args.paths.len() == 0 {
        return true;
    }
    if args.paths.len() != 1 {
        return false;
    }
    let p = str_chars(args.paths[0].as_str());
    proof {
        reveal_strlit("-");
        assert("-"@ =~= seq!['-']);
        assert(strings_view(args.paths@)[0] == args.paths@[0]@);
    }
    eq_str(p.as_slice(), "-")
}

/// Where to look for `pyproject.toml`, given the current directory `cwd`:
/// the `--stdin-filename` path in standard-input mode if there is one, else
/// `cwd` in that mode, else the paths given.
pub open spec fn spec_lookup_paths(args: Args, cwd: Seq<char>) -> Seq<Seq<char>> {
    if spec_stdin_mode(strings_view(args.paths@)) {
        match args.stdin_filename {
            Some(f) => seq![f@],
            None => seq![cwd],
        }
    } else {
        strings_view(args.paths@)
    }
}

/// The paths from which to look for `pyproject.toml` upwards.
pub fn lookup_paths(args: &Args, cwd: String) -> (r: Vec<String>)
    ensures
        strings_view(r@) == spec_lookup_paths(*args, cwd@),
{
    if stdin_mode(args) {
        let mut r: Vec<String> = Vec::new();
        match &args.stdin_filename {
            Some(f) => r.push(f.clone()),
            None => r.push(cwd),
        }
        assert(strings_view(r@) =~= spec_lookup_paths(*args, cwd@));
        return r;
    }
    let mut r: Vec<String> = Vec::new();
    let mut i: usize = 0;
    while i < args.paths.len()
        invariant
            i <= args.paths@.len(),
            strings_view(r@) == strings_view(args.paths@).take(i as int),
        decreases args.paths@.len() - i,
    {
        let ghost before = strings_view(r@);
        let p = args.paths[i].clone();
        assert(p@ == args.paths@[i as int]@);
        r.push(p);
        assert(strings_view(r@) =~= before.push(p@));
        assert(strings_view(args.paths@).take(i + 1) =~= strings_view(args.paths@).take(i as int).push(
            args.paths@[i as int]@,
        ));
        i += 1;
    }
    assert(strings_view(args.paths@).take(i as int) =~= strings_view(args.paths@));
    r
}

/// The line length: the one given on the command line, else the one found
/// in `pyproject.toml` (`configured`), else 88.
pub open spec fn spec_line_length(args: Args, configured: Option<usize>) -> usize {
    match args.line_length {
        Some(n) => n,
        None => match configured {
            Some(m) => m,
            None => 88,
        },
    }
}

/// Whether `pyproject.toml` needs to be read: no line length was given.
pub fn needs_configured_length(args: &Args) -> (r: bool)
    ensures
        r == args.line_length is None,
{
    args.line_length.is_none()
}

/// The formatter options the arguments ask for, `configured` being the line
/// length found in `pyproject.toml`, if any.
pub fn options_from_args(args: &Args, configured: Option<usize>) -> (r: Options)
    ensures
        r.line_length == spec_line_length(*args, configured),
        r.tab_width == 4,
        r.embedded_enabled == !args.no_embedded,
        r.docstrings_enabled == !args.no_docstrings,
        r.strings_enabled == !args.no_strings,
        r.comments_enabled == !args.no_comments,
{
    let line_length = match args.line_length {
        Some(n) => n,
        None => match configured {
            Some(m) => m,
            None => 88,
        },
    };
    Options {
        line_length,
        tab_width: 4,
        embedded_enabled: !args.no_embedded,
        docstrings_enabled: !args.no_docstrings,
        strings_enabled: !args.no_strings,
        comments_enabled: !args.no_comments,
    }
}

/// The program's exit status: 2 when a file could not be processed, else 1
/// in check mode when a file would change, else 0.
pub fn exit_code(errors: usize, changed: usize, check: bool) -> (r: u8)
    ensures
        r == (if errors > 0 {
            2u8
        } else if check && changed > 0 {
            1u8
        } else {
            0u8
        }),
{
    if errors > 0 {
        2
    } else if check && changed > 0 {
        1
    } else {
        0
    }
}

} // verus!
