use pylinefix::embedded::Lang;
use pylinefix::{format_pass, format_source, EmbeddedFormatter, FormatError, NoFormatter, Options};

fn opts(line_length: usize) -> Options {
    Options { line_length, embedded_enabled: false, ..Options::default() }
}

#[test]
fn default_options() {
    let o = Options::default();
    assert_eq!(o.line_length, 88);
    assert_eq!(o.tab_width, 4);
    assert!(o.embedded_enabled && o.docstrings_enabled && o.strings_enabled && o.comments_enabled);
}

#[test]
fn zero_tab_width_without_tabs_formats() {
    let o = Options {
        tab_width: 0,
        strings_enabled: false,
        docstrings_enabled: false,
        embedded_enabled: false,
        comments_enabled: false,
        line_length: 88,
    };
    assert_eq!(format_pass("x = 1\n", &o, &NoFormatter).unwrap(), "x = 1\n");
    assert_eq!(format_source("x = 1\n", &o, &NoFormatter).unwrap(), "x = 1\n");
    let o = Options { tab_width: 0, ..opts(30) };
    let input = "x = \"alpha beta gamma delta epsilon zeta eta theta\"\n";
    assert_eq!(
        format_pass(input, &o, &NoFormatter).unwrap(),
        "x = (\n    \"alpha beta gamma delta \"\n    \"epsilon zeta eta theta\"\n)\n"
    );
}

#[test]
fn disabled_strings_are_left_alone() {
    let input = "x = \"alpha beta gamma delta epsilon zeta eta theta iota kappa lambda mu nu xi\"\n";
    let o = Options { strings_enabled: false, ..opts(40) };
    assert_eq!(format_source(input, &o, &NoFormatter).unwrap(), input);
}

#[test]
fn split_string_exact_layout() {
    let input = "x = \"alpha beta gamma delta epsilon zeta eta theta\"\n";
    let out = format_pass(input, &opts(30), &NoFormatter).unwrap();
    assert_eq!(
        out,
        "x = (\n    \"alpha beta gamma delta \"\n    \"epsilon zeta eta theta\"\n)\n"
    );
}

#[test]
fn split_string_inside_call_layout() {
    let input = "f(\"alpha beta gamma delta epsilon zeta eta theta\")\n";
    let out = format_pass(input, &opts(30), &NoFormatter).unwrap();
    assert_eq!(out, "f(\"alpha beta gamma delta \"\n\"epsilon zeta eta theta\")\n");
}

#[test]
fn hoisted_comment_layout() {
    let input = "    x = 1  # a comment that makes the line long\n";
    let out = format_pass(input, &opts(30), &NoFormatter).unwrap();
    assert_eq!(out, "    # a comment that makes the line long\n    x = 1\n");
}

#[test]
fn wrapped_comment_differs_from_input() {
    let input = "# one two three four five six seven eight nine ten eleven twelve thirteen\n";
    let out = format_pass(input, &opts(30), &NoFormatter).unwrap();
    assert_ne!(out, input);
    assert!(out.lines().count() >= 2);
    assert!(out.lines().all(|l| l.starts_with("# ")));
}

#[test]
fn docstring_closing_quotes_on_own_line() {
    let input = "def f():\n    \"\"\"One two three four five six seven eight nine ten eleven twelve.\"\"\"\n";
    let out = format_pass(input, &opts(40), &NoFormatter).unwrap();
    assert!(out.ends_with("\n    \"\"\"\n"), "{out}");
    assert!(out.starts_with("def f():\n    \"\"\"One"), "{out}");
}

#[test]
fn bytes_strings_are_not_split() {
    let input = "x = b\"alpha beta gamma delta epsilon zeta eta theta iota kappa\"\n";
    assert_eq!(format_pass(input, &opts(30), &NoFormatter).unwrap(), input);
}

/// Puts each markdown input inside a fixed frame.
struct Framer;

impl EmbeddedFormatter for Framer {
    fn format_embedded(&self, lang: Lang, input: &str) -> Option<String> {
        match lang {
            Lang::Markdown => Some(format!("# Title\n\n{input}\n\n")),
            _ => None,
        }
    }
}

#[test]
fn embedded_markdown_output_is_indented_back() {
    let input = "class C:\n    NOTES_MD = \"\"\"some markdown text that is long enough to exceed the limit\"\"\"\n";
    let o = Options { embedded_enabled: true, ..opts(40) };
    let out = format_pass(input, &o, &Framer).unwrap();
    assert_eq!(
        out,
        "class C:\n    NOTES_MD = \"\"\"\n    # Title\n    \n    some markdown text that is long enough to exceed the limit\n    \"\"\"\n"
    );
}

#[test]
fn embedded_without_formatter_is_unchanged() {
    let input = "NOTES_MD = \"\"\"some markdown text that is long enough to exceed the limit\"\"\"\n";
    let o = Options { embedded_enabled: true, ..opts(40) };
    assert_eq!(format_pass(input, &o, &NoFormatter).unwrap(), input);
}

#[test]
fn fitting_source_is_unchanged() {
    let input = "def f(x):\n    \"\"\"Short doc.\"\"\"\n    # a comment\n    return \"value\"  # why\n";
    let o = Options { embedded_enabled: true, ..opts(40) };
    assert_eq!(format_source(input, &o, &Framer).unwrap(), input);
}

#[test]
fn split_pieces_concatenate_to_the_literal_text() {
    let body = "one two three four five six seven eight nine ten eleven twelve";
    let input = format!("x = \"{body}\"\n");
    let out = format_pass(&input, &opts(30), &NoFormatter).unwrap();
    let mut joined = String::new();
    for line in out.lines().filter(|l| l.trim_start().starts_with('"')) {
        let t = line.trim();
        joined.push_str(&t[1..t.len() - 1]);
    }
    assert_eq!(joined, body);
    assert!(out.lines().count() > 3);
}

#[test]
fn language_marker_comment_selects_the_language() {
    let input = "# language: markdown\nNOTES = \"\"\"some markdown text that is long enough to exceed the limit\"\"\"\n";
    let o = Options { embedded_enabled: true, ..opts(40) };
    let out = format_pass(input, &o, &Framer).unwrap();
    assert_eq!(
        out,
        "# language: markdown\nNOTES = \"\"\"\n# Title\n\nsome markdown text that is long enough to exceed the limit\n\"\"\"\n"
    );
    let unmarked = "# a note\nNOTES = \"\"\"some markdown text that is long enough to exceed the limit\"\"\"\n";
    assert_eq!(format_pass(unmarked, &o, &Framer).unwrap(), unmarked);
}

#[test]
fn named_escapes_with_spaces_are_not_split() {
    let input = "x = \"caf\\N{LATIN SMALL LETTER E WITH ACUTE} alpha beta gamma delta epsilon zeta eta theta\"\n";
    assert_eq!(format_pass(input, &opts(40), &NoFormatter).unwrap(), input);
    let raw = "x = r\"caf\\N{LATIN SMALL LETTER} alpha beta gamma delta epsilon zeta eta theta\"\n";
    assert_ne!(format_pass(raw, &opts(40), &NoFormatter).unwrap(), raw);
}

#[test]
fn format_source_result_is_left_alone_by_another_pass() {
    let input = "def f():\n    x = \"alpha beta gamma delta epsilon zeta eta theta iota kappa\"  # a trailing remark that is long\n    return x\n";
    let o = opts(40);
    let out = format_source(input, &o, &NoFormatter).unwrap();
    assert_ne!(out, input);
    assert_eq!(format_pass(&out, &o, &NoFormatter).unwrap(), out);
    assert_eq!(format_source(&out, &o, &NoFormatter).unwrap(), out);
}

#[test]
fn huge_tab_width_without_tabs_is_fine() {
    let o = Options { tab_width: usize::MAX, ..opts(88) };
    assert_eq!(format_pass("x = 1\n", &o, &NoFormatter).unwrap(), "x = 1\n");
    let o = Options { tab_width: usize::MAX, strings_enabled: false, docstrings_enabled: false, comments_enabled: false, ..opts(88) };
    assert_eq!(format_pass("ab", &o, &NoFormatter).unwrap(), "ab");
    let o = Options { tab_width: usize::MAX, ..opts(88) };
    assert!(matches!(format_pass("\tx\n\ty\n", &o, &NoFormatter), Ok(_) | Err(FormatError::TooLarge)));
}
