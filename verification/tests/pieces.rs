use pylinefix::comments::{is_directive, split_hashes};
use pylinefix::config::{line_length_of, PyProject, RuffSection, Section};
use pylinefix::docstrings::{is_listish, is_section_header, is_sphinx_field, parse_blocks, quote_info, Block};
use pylinefix::embedded::{name_has_suffix, to_ascii_lower};
use pylinefix::parse::{parse_python, NodeKind};
use pylinefix::strings::{fstring_safely_splittable, named_escapes_unbroken, pack_tokens, parse_string_literal, tokenize};

fn chars(s: &str) -> Vec<char> {
    s.chars().collect()
}

fn text(v: &[char]) -> String {
    v.iter().collect()
}

#[test]
fn string_literal_parts() {
    let p = parse_string_literal(&chars("Rb'x y'")).expect("literal");
    assert_eq!(text(&p.prefix), "rb");
    assert_eq!(text(&p.quote), "'");
    assert_eq!(text(&p.inner), "x y");
    assert!(p.is_bytes && !p.is_fstring && !p.is_triple_quoted);
    let p = parse_string_literal(&chars("f\"\"\"doc\"\"\"")).expect("literal");
    assert!(p.is_triple_quoted && p.is_fstring);
    assert_eq!(text(&p.inner), "doc");
    assert!(parse_string_literal(&chars("'abc")).is_none());
    assert!(parse_string_literal(&chars("x")).is_none());
}

#[test]
fn leading_spaces_form_their_own_token() {
    let toks: Vec<String> = tokenize(&chars("  a b")).iter().map(|t| text(t)).collect();
    assert_eq!(toks, vec!["  ", "a ", "b"]);
    let toks: Vec<String> = tokenize(&chars("a  b ")).iter().map(|t| text(t)).collect();
    assert_eq!(toks, vec!["a  ", "b "]);
}

#[test]
fn long_token_gets_its_own_chunk() {
    let toks = tokenize(&chars("ab averyveryverylongword cd"));
    let chunks: Vec<String> = pack_tokens(toks, 6).iter().map(|c| text(c)).collect();
    assert_eq!(chunks, vec!["ab ", "averyveryverylongword ", "cd"]);
}

#[test]
fn fstring_split_safety() {
    assert!(fstring_safely_splittable(&chars("f\"a {x} b\"")));
    assert!(!fstring_safely_splittable(&chars("f\"a {x + y} b\"")));
    assert!(fstring_safely_splittable(&chars("f\"{{a b}}\"")));
}

#[test]
fn hashes_split_off() {
    let (h, b) = split_hashes(&chars("##! x"));
    assert_eq!(text(&h), "##");
    assert_eq!(text(&b), "! x");
}

#[test]
fn directive_forms() {
    assert!(is_directive(&chars("  noqa")));
    assert!(is_directive(&chars("nosec B101")));
    assert!(!is_directive(&chars("nosecurity here")));
    assert!(is_directive(&chars("type : ignore")));
    assert!(is_directive(&chars("-*- coding: utf-8 -*-")));
    assert!(is_directive(&chars("fmt: off")));
    assert!(!is_directive(&chars("just prose")));
}

#[test]
fn list_items() {
    assert!(is_listish(&chars("  1. item")));
    assert!(is_listish(&chars("12) item")));
    assert!(!is_listish(&chars("1.item")));
    assert!(is_listish(&chars("- x")));
    assert!(!is_listish(&chars("-x")));
    assert!(!is_listish(&chars(". x")));
}

#[test]
fn section_headers_and_fields() {
    assert!(is_section_header(&chars("    Args:")));
    assert!(is_section_header(&chars("-----")));
    assert!(is_section_header(&chars("=~=")));
    assert!(!is_section_header(&chars("--")));
    assert!(!is_section_header(&chars("Args")));
    assert!(is_sphinx_field(&chars(":param x: value")));
    assert!(!is_sphinx_field(&chars(":param x")));
}

#[test]
fn docstring_blocks() {
    let blocks = parse_blocks(&chars("Summary line\n    continues.\n\n\n    Args:\n        x: y\n\n"));
    let kinds: Vec<String> = blocks
        .iter()
        .map(|b| match b {
            Block::Paragraph(p) => format!("P({})", text(p)),
            Block::Blank => "B".to_string(),
            Block::Verbatim(l) => format!("V({})", text(l)),
        })
        .collect();
    assert_eq!(kinds, vec!["P(Summary line continues.)", "B", "V(Args:)", "V(    x: y)"]);
}

#[test]
fn docstring_quote_info() {
    let (k, q) = quote_info(&chars("r'''x'''")).expect("quote");
    assert_eq!(k, 1);
    assert_eq!(text(&q), "'''");
    assert!(quote_info(&chars("abc")).is_none());
}

#[test]
fn embedded_name_suffix() {
    assert!(name_has_suffix(&chars("query_sql"), &chars("sql")));
    assert!(name_has_suffix(&chars("sql"), &chars("sql")));
    assert!(!name_has_suffix(&chars("mysql"), &chars("sql")));
    assert_eq!(text(&to_ascii_lower(&chars("Query_SQL"))), "query_sql");
}

#[test]
fn config_precedence() {
    let sec = |a: Option<usize>, b: Option<usize>| Section { line_length: a, line_length_alt: b };
    let p = PyProject {
        ruff: Some(RuffSection {
            line_length: None,
            line_length_alt: None,
            format: Some(sec(None, Some(100))),
            lint: Some(sec(Some(90), None)),
        }),
        black: Some(sec(Some(79), None)),
    };
    assert_eq!(line_length_of(&p), Some(100));
    let p = PyProject { ruff: None, black: Some(sec(None, Some(79))) };
    assert_eq!(line_length_of(&p), Some(79));
    let p = PyProject {
        ruff: Some(RuffSection { line_length: Some(120), line_length_alt: Some(1), format: None, lint: None }),
        black: Some(sec(Some(79), None)),
    };
    assert_eq!(line_length_of(&p), Some(120));
    let p = PyProject { ruff: None, black: None };
    assert_eq!(line_length_of(&p), None);
}

#[test]
fn tree_offsets_are_characters() {
    let t = parse_python("é = 'ü'\n").expect("parse");
    assert_eq!(t.nodes[0].kind, NodeKind::Module);
    let s = t.nodes.iter().find(|n| n.kind == NodeKind::Str).expect("string node");
    assert_eq!((s.start, s.end), (4, 7));
}

#[test]
fn tree_parents_and_children_agree() {
    let t = parse_python("def f():\n    \"\"\"Doc.\"\"\"\n    # c\n    return 1\n").expect("parse");
    for (i, n) in t.nodes.iter().enumerate() {
        for &c in &n.children {
            assert_eq!(t.nodes[c].parent, Some(i));
        }
        if let Some(p) = n.parent {
            assert!(p < i);
        }
    }
    assert!(t.nodes.iter().any(|n| n.kind == NodeKind::Comment));
}

#[test]
fn named_escape_scan_finds_spaces_inside_escapes() {
    assert!(named_escapes_unbroken(&chars("\"a \\N{BULLET} b\"")));
    assert!(!named_escapes_unbroken(&chars("\"a \\N{EM DASH} b\"")));
    assert!(named_escapes_unbroken(&chars("\"a \\\\N{EM DASH} b\"")));
}
