//! The line length configured in a `pyproject.toml`.

use vstd::prelude::*;

verus! {

/// A section that may set `line-length` (or `line_length`).
#[derive(Clone, Copy, Debug)]
pub struct Section {
    pub line_length: Option<usize>,
    pub line_length_alt: Option<usize>,
}

/// The `[tool.ruff]` table with its `format` and `lint` sub-tables.
#[derive(Clone, Copy, Debug)]
pub struct RuffSection {
    pub line_length: Option<usize>,
    pub line_length_alt: Option<usize>,
    pub format: Option<Section>,
    pub lint: Option<Section>,
}

/// The `[tool]` table of a `pyproject.toml`, as far as line lengths go.
#[derive(Clone, Copy, Debug)]
pub struct PyProject {
    pub ruff: Option<RuffSection>,
    pub black: Option<Section>,
}

/// `line-length`, else `line_length`, of a section.
pub open spec fn spec_section_length(s: Option<Section>) -> Option<usize> {
    match s {
        Some(sec) => if sec.line_length is Some {
            sec.line_length
        } else {
            sec.line_length_alt
        },
        None => None,
    }
}

/// The configured line length: `[tool.ruff]`, then `[tool.ruff.format]`,
/// then `[tool.ruff.lint]`, then `[tool.black]`; in each, `line-length`
/// before `line_length`.
pub open spec fn spec_line_length(p: PyProject) -> Option<usize> {
    let from_ruff = match p.ruff {
        Some(r) => if r.line_length is Some {
            r.line_length
        } else if r.line_length_alt is Some {
            r.line_length_alt
        } else if spec_section_length(r.format) is Some {
            spec_section_length(r.format)
        } else {
            spec_section_length(r.lint)
        },
        None => None,
    };
    if from_ruff is Some {
        from_ruff
    } else {
        spec_section_length(p.black)
    }
}

/// The first value that is set among `c`, in order.
pub open spec fn first_set(c: Seq<Option<usize>>) -> Option<usize>
    decreases c.len(),
{
    if c.len() == 0 {
        None
    } else if c[0] is Some {
        c[0]
    } else {
        first_set(c.drop_first())
    }
}

/// `line-length` of a section that may be absent.
pub open spec fn dashed(s: Option<Section>) -> Option<usize> {
    match s {
        Some(x) => x.line_length,
        None => None,
    }
}

/// `line_length` of a section that may be absent.
pub open spec fn underscored(s: Option<Section>) -> Option<usize> {
    match s {
        Some(x) => x.line_length_alt,
        None => None,
    }
}

/// Every place of a `pyproject.toml` that may set the line length, in the
/// order they are consulted: `[tool.ruff]`, `[tool.ruff.format]`,
/// `[tool.ruff.lint]`, `[tool.black]`, each with `line-length` before
/// `line_length`.
pub open spec fn length_settings(p: PyProject) -> Seq<Option<usize>> {
    match p.ruff {
        Some(r) => seq![
            r.line_length,
            r.line_length_alt,
            dashed(r.format),
            underscored(r.format),
            dashed(r.lint),
            underscored(r.lint),
            dashed(p.black),
            underscored(p.black),
        ],
        None => seq![dashed(p.black), underscored(p.black)],
    }
}

/// The configured line length is the first one set, in the order the
/// places are consulted; and when no ruff table sets one, it is the one of
/// `[tool.black]`.
pub proof fn law_first_setting_wins(p: PyProject)
    ensures
        spec_line_length(p) == first_set(length_settings(p)),
        (p.ruff matches Some(r) ==> r.line_length is None && r.line_length_alt is None && dashed(r.format) is None
            && underscored(r.format) is None && dashed(r.lint) is None && underscored(r.lint) is None) ==> spec_line_length(p)
            == (if dashed(p.black) is Some {
            dashed(p.black)
        } else {
            underscored(p.black)
        }),
{
    let c = length_settings(p);
    reveal_with_fuel(first_set, 9);
    match p.ruff {
        Some(r) => {
            assert(c.drop_first() =~= seq![
                r.line_length_alt,
                dashed(r.format),
                underscored(r.format),
                dashed(r.lint),
                underscored(r.lint),
                dashed(p.black),
                underscored(p.black),
            ]);
            assert(c.drop_first().drop_first() =~= seq![
                dashed(r.format),
                underscored(r.format),
                dashed(r.lint),
                underscored(r.lint),
                dashed(p.black),
                underscored(p.black),
            ]);
            assert(c.drop_first().drop_first().drop_first() =~= seq![
                underscored(r.format),
                dashed(r.lint),
                underscored(r.lint),
                dashed(p.black),
                underscored(p.black),
            ]);
            assert(c.drop_first().drop_first().drop_first().drop_first() =~= seq![
                dashed(r.lint),
                underscored(r.lint),
                dashed(p.black),
                underscored(p.black),
            ]);
            assert(c.drop_first().drop_first().drop_first().drop_first().drop_first() =~= seq![
                underscored(r.lint),
                dashed(p.black),
                underscored(p.black),
            ]);
            assert(c.drop_first().drop_first().drop_first().drop_first().drop_first().drop_first() =~= seq![
                dashed(p.black),
                underscored(p.black),
            ]);
            assert(c.drop_first().drop_first().drop_first().drop_first().drop_first().drop_first().drop_first()
                =~= seq![underscored(p.black)]);
            assert(c.drop_first().drop_first().drop_first().drop_first().drop_first().drop_first().drop_first().drop_first()
                =~= Seq::<Option<usize>>::empty());
        },
        None => {
            assert(c.drop_first() =~= seq![underscored(p.black)]);
            assert(c.drop_first().drop_first() =~= Seq::<Option<usize>>::empty());
        },
    }
}

fn section_length(s: &Option<Section>) -> (r: Option<usize>)
    ensures
        r == spec_section_length(*s),
{
    match s {
        Some(sec) => if sec.line_length.is_some() {
            sec.line_length
        } else {
            sec.line_length_alt
        },
        None => None,
    }
}

/// The line length that `pyproject.toml` sets, if any.
pub fn line_length_of(p: &PyProject) -> (r: Option<usize>)
    ensures
        r == spec_line_length(*p),
{
    let from_ruff = match &p.ruff {
        Some(r) => if r.line_length.is_some() {
            r.line_length
        } else if r.line_length_alt.is_some() {
            r.line_length_alt
        } else {
            let f = section_length(&r.format);
            if f.is_some() {
                f
            } else {
                section_length(&r.lint)
            }
        },
        None => None,
    };
    if from_ruff.is_some() {
        from_ruff
    } else {
        section_length(&p.black)
    }
}

} // verus!
