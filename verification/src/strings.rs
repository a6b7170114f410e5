//! Splitting overlong single-line string literals into implicitly
//! concatenated pieces at word boundaries.

use vstd::prelude::*;
use crate::chars::{starts_with, ends_with, starts_with_chars, ends_with_chars, contains_char};
use crate::pyutil::{size_ok, slice_to_vec, push_all, any_line_over_chars, indent_of_line_chars, spec_line_end, spec_line_start, spec_longest_line, spec_indent_of_line};
use crate::parse::{SyntaxTree, node_wf};
use crate::pyutil::{no_newline, lemma_split_lines_single, lemma_split_lines_join, lemma_line_end_at, spec_split_lines};
use crate::edits::EditView;

verus! {

broadcast use vstd::seq_lib::group_seq_properties;

/// A character allowed in a string prefix (`r`, `b`, `f`, `u`, either case).
pub open spec fn is_prefix_char(c: char) -> bool {
    c == 'r' || c == 'R' || c == 'b' || c == 'B' || c == 'f' || c == 'F' || c == 'u' || c == 'U'
}

/// The lowercase form of a prefix character.
pub open spec fn lower_prefix_char(c: char) -> char {
    if c == 'R' {
        'r'
    } else if c == 'B' {
        'b'
    } else if c == 'F' {
        'f'
    } else if c == 'U' {
        'u'
    } else {
        c
    }
}

/// Length of the run of prefix characters at the start of `s`.
pub open spec fn prefix_len(s: Seq<char>) -> nat
    decreases s.len(),
{
    if s.len() > 0 && is_prefix_char(s[0]) {
        1 + prefix_len(s.drop_first())
    } else {
        0
    }
}

pub open spec fn triple_double() -> Seq<char> {
    seq!['"', '"', '"']
}

pub open spec fn triple_single() -> Seq<char> {
    seq!['\'', '\'', '\'']
}

/// The quote that opens `rest`: a triple quote if there is one, else a single
/// quote character.
pub open spec fn opening_quote(rest: Seq<char>) -> Option<Seq<char>> {
    if starts_with(rest, triple_double()) {
        Some(triple_double())
    } else if starts_with(rest, triple_single()) {
        Some(triple_single())
    } else if starts_with(rest, seq!['"']) {
        Some(seq!['"'])
    } else if starts_with(rest, seq!['\'']) {
        Some(seq!['\''])
    } else {
        None
    }
}

/// The parts of a string literal's text: its prefix (lowercased), its quote
/// and the text between the quotes.
pub open spec fn spec_parse_string(text: Seq<char>) -> Option<(Seq<char>, Seq<char>, Seq<char>)> {
    let k = prefix_len(text);
    let rest = text.subrange(k as int, text.len() as int);
    match opening_quote(rest) {
        None => None,
        Some(q) => if !ends_with(rest, q) || rest.len() < 2 * q.len() {
            None
        } else {
            Some(
                (
                    text.subrange(0, k as int).map_values(|c: char| lower_prefix_char(c)),
                    q,
                    rest.subrange(q.len() as int, rest.len() - q.len()),
                ),
            )
        },
    }
}

/// A string literal split into its parts.
pub struct ParsedString {
    /// The prefix letters, lowercased.
    pub prefix: Vec<char>,
    /// The quote: one or three `"` or `'` characters.
    pub quote: Vec<char>,
    /// The text between the quotes.
    pub inner: Vec<char>,
    pub is_triple_quoted: bool,
    pub is_bytes: bool,
    pub is_fstring: bool,
}

impl ParsedString {
    pub open spec fn parts(&self) -> (Seq<char>, Seq<char>, Seq<char>) {
        (self.prefix@, self.quote@, self.inner@)
    }

    /// The flags agree with the parts.
    pub open spec fn flags_ok(&self) -> bool {
        &&& self.is_triple_quoted == (self.quote@.len() == 3)
        &&& self.is_bytes == self.prefix@.contains('b')
        &&& self.is_fstring == self.prefix@.contains('f')
    }
}

fn lower_prefix(text: &[char], k: usize) -> (r: Vec<char>)
    requires
        k <= text@.len(),
    ensures
        r@ == text@.subrange(0, k as int).map_values(|c: char| lower_prefix_char(c)),
{
    let mut out: Vec<char> = Vec::new();
    let mut i: usize = 0;
    while i < k
        invariant
            i <= k <= text@.len(),
            out@ == text@.subrange(0, i as int).map_values(|c: char| lower_prefix_char(c)),
        decreases k - i,
    {
        let c = text[i];
        let l = if c == 'R' {
            'r'
        } else if c == 'B' {
            'b'
        } else if c == 'F' {
            'f'
        } else if c == 'U' {
            'u'
        } else {
            c
        };
        out.push(l);
        i += 1;
        assert(out@ =~= text@.subrange(0, i as int).map_values(|c: char| lower_prefix_char(c)));
    }
    out
}

/// Split the text of a string literal into prefix, quote and inner text, or
/// `None` when it does not look like a complete literal.
pub fn parse_string_literal(text: &[char]) -> (r: Option<ParsedString>)
    ensures
        match r {
            Some(p) => spec_parse_string(text@) == Some(p.parts()) && p.flags_ok(),
            None => spec_parse_string(text@) is None,
        },
{
    let mut k: usize = 0;
    assert(text@.subrange(0, text@.len() as int) == text@);
    while k < text.len() && (text[k] == 'r' || text[k] == 'R' || text[k] == 'b' || text[k] == 'B'
        || text[k] == 'f' || text[k] == 'F' || text[k] == 'u' || text[k] == 'U')
        invariant
            k <= text@.len(),
            prefix_len(text@) == k + prefix_len(text@.subrange(k as int, text@.len() as int)),
        decreases text@.len() - k,
    {
        assert(text@.subrange(k as int, text@.len() as int).drop_first() == text@.subrange(k + 1, text@.len() as int));
        k += 1;
    }
    proof {
        let rest = text@.subrange(k as int, text@.len() as int);
        if k < text@.len() {
            assert(rest[0] == text@[k as int]);
        }
    }
    let rest = slice_to_vec(text, k, text.len());
    let tq: Vec<char> = vec!['"', '"', '"'];
    let ts: Vec<char> = vec!['\'', '\'', '\''];
    let sd: Vec<char> = vec!['"'];
    let ss: Vec<char> = vec!['\''];
    proof {
        assert(tq@ == triple_double());
        assert(ts@ == triple_single());
        assert(sd@ == seq!['"']);
        assert(ss@ == seq!['\'']);
    }
    let quote = if starts_with_chars(rest.as_slice(), tq.as_slice()) {
        tq
    } else if starts_with_chars(rest.as_slice(), ts.as_slice()) {
        ts
    } else if starts_with_chars(rest.as_slice(), sd.as_slice()) {
        sd
    } else if starts_with_chars(rest.as_slice(), ss.as_slice()) {
        ss
    } else {
        return None;
    };
    let ql = quote.len();
    if !ends_with_chars(rest.as_slice(), quote.as_slice()) || rest.len() < 2 * ql {
        return None;
    }
    let inner = slice_to_vec(rest.as_slice(), ql, rest.len() - ql);
    let prefix = lower_prefix(text, k);
    let is_bytes = contains_char(prefix.as_slice(), 'b');
    let is_fstring = contains_char(prefix.as_slice(), 'f');
    Some(ParsedString { prefix, quote, inner, is_triple_quoted: ql == 3, is_bytes, is_fstring })
}

/// Tokens completed and the pending token after reading `s[..i]`: each space
/// joins the pending token, which is completed at the last space of a run
/// (so a leading run of spaces is a token of its own).
pub open spec fn tok_state(s: Seq<char>, i: int) -> (Seq<Seq<char>>, Seq<char>)
    decreases i,
{
    if i <= 0 {
        (Seq::empty(), Seq::empty())
    } else {
        let (toks, buf) = tok_state(s, i - 1);
        let c = s[i - 1];
        let b2 = buf.push(c);
        if c == ' ' && (i >= s.len() || s[i] != ' ') {
            (toks.push(b2), Seq::empty())
        } else {
            (toks, b2)
        }
    }
}

/// Words of `s`, each with the spaces that follow it.
pub open spec fn spec_tokenize(s: Seq<char>) -> Seq<Seq<char>> {
    let (toks, buf) = tok_state(s, s.len() as int);
    if buf.len() > 0 {
        toks.push(buf)
    } else {
        toks
    }
}

/// Split `s` into tokens, each absorbing the spaces after it; a leading run
/// of spaces is a token of its own.
pub fn tokenize(s: &[char]) -> (r: Vec<Vec<char>>)
    ensures
        r@.map_values(|t: Vec<char>| t@) == spec_tokenize(s@),
{
    let mut out: Vec<Vec<char>> = Vec::new();
    let mut buf: Vec<char> = Vec::new();
    let mut i: usize = 0;
    while i < s.len()
        invariant
            i <= s@.len(),
            (out@.map_values(|t: Vec<char>| t@), buf@) == tok_state(s@, i as int),
        decreases s@.len() - i,
    {
        let c = s[i];
        let ghost old_out = out@.map_values(|t: Vec<char>| t@);
        buf.push(c);
        if c == ' ' && (i + 1 >= s.len() || s[i + 1] != ' ') {
            let tok = buf;
            buf = Vec::new();
            out.push(tok);
            proof {
                assert(out@.map_values(|t: Vec<char>| t@) =~= old_out.push(tok@));
            }
        }
        i += 1;
    }
    if buf.len() > 0 {
        let ghost old_out = out@.map_values(|t: Vec<char>| t@);
        out.push(buf);
        assert(out@.map_values(|t: Vec<char>| t@) =~= old_out.push(buf@));
    }
    out
}

/// Chunks completed and the pending chunk after packing `tokens[..i]`.
pub open spec fn pack_state(tokens: Seq<Seq<char>>, target: nat, i: int) -> (Seq<Seq<char>>, Seq<char>)
    decreases i,
{
    if i <= 0 {
        (Seq::empty(), Seq::empty())
    } else {
        let (chunks, cur) = pack_state(tokens, target, i - 1);
        let tok = tokens[i - 1];
        if cur.len() == 0 {
            (chunks, tok)
        } else if cur.len() + tok.len() <= target {
            (chunks, cur + tok)
        } else {
            (chunks.push(cur), tok)
        }
    }
}

/// Greedy first-fit packing of `tokens` into chunks of at most `target`
/// characters (a token longer than `target` gets a chunk of its own).
pub open spec fn spec_pack_tokens(tokens: Seq<Seq<char>>, target: nat) -> Seq<Seq<char>> {
    let (chunks, cur) = pack_state(tokens, target, tokens.len() as int);
    if cur.len() > 0 {
        chunks.push(cur)
    } else {
        chunks
    }
}

proof fn lemma_flatten_take_len(s: Seq<Seq<char>>, i: int)
    requires
        0 <= i <= s.len(),
    ensures
        s.take(i).flatten().len() <= s.flatten().len(),
    decreases s.len() - i,
{
    if i < s.len() {
        lemma_flatten_take_len(s, i + 1);
        assert(s.take(i + 1) == s.take(i).push(s[i]));
        s.take(i).lemma_flatten_push(s[i]);
    } else {
        assert(s.take(i) == s);
    }
}

/// Pack tokens greedily into chunks of at most `target` characters.
pub fn pack_tokens(tokens: Vec<Vec<char>>, target: usize) -> (r: Vec<Vec<char>>)
    requires
        tokens@.map_values(|t: Vec<char>| t@).flatten().len() <= usize::MAX,
    ensures
        r@.map_values(|t: Vec<char>| t@) == spec_pack_tokens(tokens@.map_values(|t: Vec<char>| t@), target as nat),
{
    let ghost toks = tokens@.map_values(|t: Vec<char>| t@);
    let mut chunks: Vec<Vec<char>> = Vec::new();
    let mut cur: Vec<char> = Vec::new();
    let mut i: usize = 0;
    while i < tokens.len()
        invariant
            toks == tokens@.map_values(|t: Vec<char>| t@),
            toks.flatten().len() <= usize::MAX,
            i <= tokens@.len(),
            (chunks@.map_values(|t: Vec<char>| t@), cur@) == pack_state(toks, target as nat, i as int),
            chunks@.map_values(|t: Vec<char>| t@).flatten() + cur@ == toks.take(i as int).flatten(),
        decreases tokens@.len() - i,
    {
        let ghost old_chunks = chunks@.map_values(|t: Vec<char>| t@);
        let ghost old_cur = cur@;
        let tok = slice_to_vec(tokens[i].as_slice(), 0, tokens[i].len());
        proof {
            assert(tokens[i as int]@.subrange(0, tokens[i as int]@.len() as int) == tokens[i as int]@);
            assert(tok@ == toks[i as int]);
            assert(toks.take(i + 1) == toks.take(i as int).push(toks[i as int]));
            toks.take(i as int).lemma_flatten_push(toks[i as int]);
            lemma_flatten_take_len(toks, i + 1);
            old_chunks.lemma_flatten_push(old_cur);
        }
        if cur.len() == 0 {
            cur = tok;
            proof {
                assert(old_cur =~= Seq::<char>::empty());
            }
        } else if cur.len() + tok.len() <= target {
            push_all(&mut cur, tok.as_slice());
        } else {
            let done = cur;
            chunks.push(done);
            cur = tok;
            proof {
                assert(chunks@.map_values(|t: Vec<char>| t@) =~= old_chunks.push(done@));
            }
        }
        i += 1;
    }
    assert(toks.take(i as int) == toks);
    if cur.len() > 0 {
        let ghost old_chunks = chunks@.map_values(|t: Vec<char>| t@);
        chunks.push(cur);
        assert(chunks@.map_values(|t: Vec<char>| t@) =~= old_chunks.push(cur@));
    }
    chunks
}

/// Scan of an f-string from position `i` with `depth` open interpolations:
/// false once a space occurs inside an interpolation (`{{` and `}}` are
/// escapes, not braces).
pub open spec fn fstring_scan(s: Seq<char>, i: int, depth: int) -> bool
    decreases s.len() - i,
{
    if i < 0 || i >= s.len() {
        true
    } else if s[i] == '{' {
        if i + 1 < s.len() && s[i + 1] == '{' {
            fstring_scan(s, i + 2, depth)
        } else {
            fstring_scan(s, i + 1, depth + 1)
        }
    } else if s[i] == '}' {
        if i + 1 < s.len() && s[i + 1] == '}' {
            fstring_scan(s, i + 2, depth)
        } else {
            fstring_scan(s, i + 1, depth - 1)
        }
    } else if s[i] == ' ' && depth > 0 {
        false
    } else {
        fstring_scan(s, i + 1, depth)
    }
}

/// An f-string can be split when no interpolation holds a space.
pub fn fstring_safely_splittable(text: &[char]) -> (r: bool)
    ensures
        r == fstring_scan(text@, 0, 0),
{
    let mut depth: i128 = 0;
    let mut i: usize = 0;
    while i < text.len()
        invariant
            i <= text@.len(),
            -(i as int) <= depth <= i as int,
            fstring_scan(text@, 0, 0) == fstring_scan(text@, i as int, depth as int),
        decreases text@.len() - i,
    {
        let c = text[i];
        if c == '{' {
            if i + 1 < text.len() && text[i + 1] == '{' {
                i += 2;
                continue;
            }
            depth += 1;
        } else if c == '}' {
            if i + 1 < text.len() && text[i + 1] == '}' {
                i += 2;
                continue;
            }
            depth -= 1;
        } else if c == ' ' && depth > 0 {
            return false;
        }
        i += 1;
    }
    true
}


proof fn lemma_tok_state_concat(s: Seq<char>, i: int)
    requires
        0 <= i <= s.len(),
    ensures
        tok_state(s, i).0.flatten() + tok_state(s, i).1 == s.take(i),
    decreases i,
{
    if i > 0 {
        lemma_tok_state_concat(s, i - 1);
        let (toks, buf) = tok_state(s, i - 1);
        let b2 = buf.push(s[i - 1]);
        toks.lemma_flatten_push(b2);
        assert(s.take(i) == s.take(i - 1).push(s[i - 1]));
        assert(toks.flatten() + b2 == (toks.flatten() + buf).push(s[i - 1]));
    }
}

/// Every character of `t` is a space.
pub open spec fn all_spaces(t: Seq<char>) -> bool {
    forall|j: int| 0 <= j < t.len() ==> #[trigger] t[j] == ' '
}

/// `t` is a word followed by spaces: no space in it is followed by
/// anything but spaces.
pub open spec fn word_then_spaces(t: Seq<char>) -> bool {
    forall|a: int, b: int| #![trigger t[a], t[b]] 0 <= a < b < t.len() && t[a] == ' ' ==> t[b] == ' '
}

/// What holds of the tokens and the pending token after reading `s[..i]`.
pub open spec fn tok_inv(s: Seq<char>, i: int, toks: Seq<Seq<char>>, buf: Seq<char>) -> bool {
    &&& forall|k: int| 0 <= k < toks.len() ==> (#[trigger] toks[k]).len() > 0 && word_then_spaces(toks[k])
    &&& forall|k: int| 1 <= k < toks.len() ==> (#[trigger] toks[k])[0] != ' '
    &&& toks.len() >= 1 && buf.len() > 0 ==> buf[0] != ' '
    &&& toks.len() >= 1 && buf.len() == 0 && i < s.len() ==> s[i] != ' '
    &&& word_then_spaces(buf)
    &&& buf.len() > 0 && buf.last() == ' ' ==> i < s.len() && s[i] == ' '
    &&& s.len() > 0 && s[0] == ' ' && toks.len() == 0 ==> all_spaces(buf)
    &&& s.len() > 0 && s[0] == ' ' && toks.len() >= 1 ==> all_spaces(toks[0]) && (toks[0].len() < s.len()
        ==> s[toks[0].len() as int] != ' ')
}

proof fn lemma_tok_inv(s: Seq<char>, i: int)
    requires
        0 <= i <= s.len(),
    ensures
        tok_inv(s, i, tok_state(s, i).0, tok_state(s, i).1),
    decreases i,
{
    if i > 0 {
        lemma_tok_inv(s, i - 1);
        lemma_tok_state_concat(s, i - 1);
        let (toks, buf) = tok_state(s, i - 1);
        let c = s[i - 1];
        let b2 = buf.push(c);
        if toks.len() == 0 {
            assert(toks.flatten() == Seq::<char>::empty());
            assert(buf =~= s.take(i - 1));
        }
        if buf.len() > 0 && c != ' ' {
            assert(buf.last() != ' ');
            assert forall|j: int| 0 <= j < buf.len() implies buf[j] != ' ' by {
                if buf[j] == ' ' && j < buf.len() - 1 {
                    assert(buf[buf.len() - 1] == ' ');
                }
            }
        }
        assert(word_then_spaces(b2)) by {
            assert forall|a: int, b: int| #![trigger b2[a], b2[b]] 0 <= a < b < b2.len() && b2[a] == ' ' implies b2[b]
                == ' ' by {
                if b < buf.len() {
                    assert(buf[a] == ' ' && buf[b] == b2[b]);
                }
            }
        }
        if s.len() > 0 && s[0] == ' ' && toks.len() == 0 {
            assert(all_spaces(b2)) by {
                if i - 1 > 0 {
                    assert(buf[buf.len() - 1] == ' ');
                }
            }
        }
        let (t2, bb) = tok_state(s, i);
        if c == ' ' && (i >= s.len() || s[i] != ' ') {
            assert(t2 == toks.push(b2));
            assert forall|k: int| 0 <= k < t2.len() implies (#[trigger] t2[k]).len() > 0 && word_then_spaces(t2[k]) by {
                if k < toks.len() {
                    assert(t2[k] == toks[k]);
                }
            }
            assert forall|k: int| 1 <= k < t2.len() implies (#[trigger] t2[k])[0] != ' ' by {
                if k < toks.len() {
                    assert(t2[k] == toks[k]);
                } else {
                    assert(t2[k] == b2);
                    if buf.len() == 0 {
                        assert(s[i - 1] != ' ');
                    }
                }
            }
            if s.len() > 0 && s[0] == ' ' {
                if toks.len() == 0 {
                    assert(t2[0] == b2);
                    assert(b2.len() == i);
                } else {
                    assert(t2[0] == toks[0]);
                }
            }
        } else {
            assert(t2 == toks && bb == b2);
            if toks.len() >= 1 && buf.len() == 0 {
                assert(b2[0] == c);
            }
        }
    }
}

/// Every token is a non-empty word followed by its spaces; every token but
/// the first begins with a non-space; and when `s` begins with spaces, its
/// first token is that run of spaces alone (all spaces, followed in `s` by a
/// non-space or the end).
pub proof fn law_tokenize_shape(s: Seq<char>)
    ensures
        forall|k: int| 0 <= k < spec_tokenize(s).len() ==> (#[trigger] spec_tokenize(s)[k]).len() > 0
            && word_then_spaces(spec_tokenize(s)[k]),
        forall|k: int| 1 <= k < spec_tokenize(s).len() ==> (#[trigger] spec_tokenize(s)[k])[0] != ' ',
        s.len() > 0 && s[0] == ' ' ==> all_spaces(spec_tokenize(s)[0]) && (spec_tokenize(s)[0].len() < s.len()
            ==> s[spec_tokenize(s)[0].len() as int] != ' '),
{
    lemma_tok_inv(s, s.len() as int);
    lemma_tok_state_concat(s, s.len() as int);
    let (toks, buf) = tok_state(s, s.len() as int);
    let r = spec_tokenize(s);
    if buf.len() > 0 {
        assert(r == toks.push(buf));
        assert forall|k: int| 0 <= k < r.len() implies (#[trigger] r[k]).len() > 0 && word_then_spaces(r[k]) by {
            if k < toks.len() {
                assert(r[k] == toks[k]);
            }
        }
        assert forall|k: int| 1 <= k < r.len() implies (#[trigger] r[k])[0] != ' ' by {
            if k < toks.len() {
                assert(r[k] == toks[k]);
            }
        }
        if s.len() > 0 && s[0] == ' ' {
            if toks.len() == 0 {
                assert(toks.flatten() == Seq::<char>::empty());
                assert(buf =~= s.take(s.len() as int));
                assert(r[0] == buf);
            } else {
                assert(r[0] == toks[0]);
            }
        }
    } else {
        assert(r == toks);
        if s.len() > 0 && s[0] == ' ' && toks.len() == 0 {
            assert(toks.flatten() == Seq::<char>::empty());
            assert(buf =~= s.take(s.len() as int));
        }
    }
}

/// Concatenating the tokens of `s` gives back `s`.
pub proof fn law_tokenize_concat(s: Seq<char>)
    ensures
        spec_tokenize(s).flatten() == s,
{
    lemma_tok_state_concat(s, s.len() as int);
    let (toks, buf) = tok_state(s, s.len() as int);
    toks.lemma_flatten_push(buf);
    assert(s.take(s.len() as int) == s);
}

proof fn lemma_pack_state_concat(tokens: Seq<Seq<char>>, target: nat, i: int)
    requires
        0 <= i <= tokens.len(),
    ensures
        pack_state(tokens, target, i).0.flatten() + pack_state(tokens, target, i).1 == tokens.take(i).flatten(),
    decreases i,
{
    if i > 0 {
        lemma_pack_state_concat(tokens, target, i - 1);
        let (chunks, cur) = pack_state(tokens, target, i - 1);
        assert(tokens.take(i) == tokens.take(i - 1).push(tokens[i - 1]));
        tokens.take(i - 1).lemma_flatten_push(tokens[i - 1]);
        chunks.lemma_flatten_push(cur);
    }
}

/// Packing keeps the text: the chunks concatenate to the tokens' concatenation.
pub proof fn law_pack_keeps_text(tokens: Seq<Seq<char>>, target: nat)
    ensures
        spec_pack_tokens(tokens, target).flatten() == tokens.flatten(),
{
    lemma_pack_state_concat(tokens, target, tokens.len() as int);
    let (chunks, cur) = pack_state(tokens, target, tokens.len() as int);
    chunks.lemma_flatten_push(cur);
    assert(tokens.take(tokens.len() as int) == tokens);
}

proof fn lemma_pack_state_fits(tokens: Seq<Seq<char>>, target: nat, i: int)
    requires
        0 <= i <= tokens.len(),
    ensures
        forall|j: int| 0 <= j < pack_state(tokens, target, i).0.len() ==> {
            let c = #[trigger] pack_state(tokens, target, i).0[j];
            c.len() <= target || exists|k: int| 0 <= k < tokens.len() && c == tokens[k]
        },
        ({
            let cur = pack_state(tokens, target, i).1;
            cur.len() <= target || exists|k: int| 0 <= k < tokens.len() && cur == tokens[k]
        }),
    decreases i,
{
    if i > 0 {
        lemma_pack_state_fits(tokens, target, i - 1);
        let (chunks, cur) = pack_state(tokens, target, i - 1);
        let r = pack_state(tokens, target, i);
        assert forall|j: int| 0 <= j < r.0.len() implies {
            let c = #[trigger] r.0[j];
            c.len() <= target || exists|k: int| 0 <= k < tokens.len() && c == tokens[k]
        } by {
            if j < chunks.len() {
                assert(r.0[j] == chunks[j]);
            }
        }
        let tok = tokens[i - 1];
        if cur.len() == 0 || !(cur.len() + tok.len() <= target) {
            assert(r.1 == tokens[i - 1]);
        }
    }
}

/// Every chunk fits in `target` characters unless it is a single token that
/// is longer on its own.
pub proof fn law_pack_chunks_fit(tokens: Seq<Seq<char>>, target: nat)
    ensures
        forall|j: int| 0 <= j < spec_pack_tokens(tokens, target).len() ==> {
            let c = #[trigger] spec_pack_tokens(tokens, target)[j];
            c.len() <= target || exists|k: int| 0 <= k < tokens.len() && c == tokens[k]
        },
{
    lemma_pack_state_fits(tokens, target, tokens.len() as int);
    let (chunks, cur) = pack_state(tokens, target, tokens.len() as int);
    let r = spec_pack_tokens(tokens, target);
    assert forall|j: int| 0 <= j < r.len() implies {
        let c = #[trigger] r[j];
        c.len() <= target || exists|k: int| 0 <= k < tokens.len() && c == tokens[k]
    } by {
        if j < chunks.len() {
            assert(r[j] == chunks[j]);
        }
    }
}


/// The lines of `lines` joined with newlines.
pub open spec fn join_lines(lines: Seq<Seq<char>>) -> Seq<char>
    decreases lines.len(),
{
    if lines.len() == 0 {
        Seq::empty()
    } else if lines.len() == 1 {
        lines[0]
    } else {
        join_lines(lines.drop_last()) + seq!['\n'] + lines.last()
    }
}

pub open spec fn four_spaces() -> Seq<char> {
    seq![' ', ' ', ' ', ' ']
}

/// One line of a split string: indent, prefix, quote, chunk, quote.
pub open spec fn piece_line(indent: Seq<char>, prefix: Seq<char>, quote: Seq<char>, chunk: Seq<char>) -> Seq<char> {
    indent + prefix + quote + chunk + quote
}

/// The text that replaces a string literal split into `chunks`. With
/// `needs_parens` the pieces go inside new parentheses, one level deeper
/// than `line_indent`; otherwise the first piece keeps the literal's column
/// (its indentation is dropped) and the others are indented like its line.
pub open spec fn string_replacement(
    line_indent: Seq<char>,
    needs_parens: bool,
    prefix: Seq<char>,
    quote: Seq<char>,
    chunks: Seq<Seq<char>>,
) -> Seq<char> {
    let inner_indent = if needs_parens {
        line_indent + four_spaces()
    } else {
        line_indent
    };
    let body = join_lines(chunks.map_values(|c: Seq<char>| piece_line(inner_indent, prefix, quote, c)));
    if needs_parens {
        seq!['(', '\n'] + body + seq!['\n'] + line_indent + seq![')']
    } else {
        let e = spec_line_end(body, 0);
        let first = crate::chars::trim_start_char(body.subrange(0, e), ' ');
        if e < body.len() {
            first + seq!['\n'] + body.subrange(e + 1, body.len() as int)
        } else {
            first
        }
    }
}

/// Scan of a literal's text from position `i` (`inside` a `\N{...}` named
/// escape or not): false once a space occurs inside such an escape, where a
/// split would cut the escape in two. A backslash escapes the character after
/// it, so `\\N{` holds no named escape.
pub open spec fn named_escape_scan(s: Seq<char>, i: int, inside: bool) -> bool
    decreases s.len() - i,
{
    if i < 0 || i >= s.len() {
        true
    } else if inside {
        if s[i] == '}' {
            named_escape_scan(s, i + 1, false)
        } else if s[i] == ' ' {
            false
        } else {
            named_escape_scan(s, i + 1, true)
        }
    } else if s[i] == '\\' && i + 2 < s.len() && s[i + 1] == 'N' && s[i + 2] == '{' {
        named_escape_scan(s, i + 3, true)
    } else if s[i] == '\\' && i + 1 < s.len() {
        named_escape_scan(s, i + 2, false)
    } else {
        named_escape_scan(s, i + 1, false)
    }
}

/// No `\N{...}` named escape of `text` holds a space, so no split point
/// falls inside one.
pub fn named_escapes_unbroken(text: &[char]) -> (r: bool)
    ensures
        r == named_escape_scan(text@, 0, false),
{
    let mut inside = false;
    let mut i: usize = 0;
    while i < text.len()
        invariant
            i <= text@.len(),
            named_escape_scan(text@, 0, false) == named_escape_scan(text@, i as int, inside),
        decreases text@.len() - i,
    {
        let c = text[i];
        if inside {
            if c == '}' {
                inside = false;
            } else if c == ' ' {
                return false;
            }
            i += 1;
        } else if c == '\\' && text.len() - i > 2 && text[i + 1] == 'N' && text[i + 2] == '{' {
            inside = true;
            i += 3;
        } else if c == '\\' && text.len() - i > 1 {
            i += 2;
        } else {
            i += 1;
        }
    }
    true
}

/// The edit that splits the string literal at node `i`, if it is to be split:
/// a single-quoted, non-bytes literal outside `typing.Literal[...]`, on a
/// line wider than `line_length`, whose interpolations (for an f-string)
/// and `\N{...}` named escapes (unless raw) hold no spaces, and that packs
/// into pieces of at least 16 characters.
pub open spec fn spec_consider_string(
    src: Seq<char>,
    t: SyntaxTree,
    i: int,
    line_length: nat,
    tab: nat,
) -> Option<EditView> {
    if t.inside_typing_literal(src, i) {
        None
    } else {
        let text = t.text(src, i);
        match spec_parse_string(text) {
            None => None,
            Some((prefix, quote, inner)) => {
                if quote.len() == 3 || prefix.contains('b') {
                    None
                } else if !(spec_longest_line(
                    src.subrange(spec_line_start(src, t.start(i)), t.end(i)),
                    tab,
                ) > line_length) {
                    None
                } else if prefix.contains('f') && !fstring_scan(text, 0, 0) {
                    None
                } else if !prefix.contains('r') && !named_escape_scan(text, 0, false) {
                    None
                } else {
                    let line_indent = spec_indent_of_line(src, t.start(i));
                    let needs_parens = !t.context_provides_parens(i);
                    let overhead = line_indent.len() + (if needs_parens {
                        4nat
                    } else {
                        0nat
                    }) + prefix.len() + 2 * quote.len();
                    if overhead + 16 > line_length {
                        None
                    } else {
                        let chunks = spec_pack_tokens(
                            spec_tokenize(inner),
                            (line_length - overhead) as nat,
                        );
                        if chunks.len() == 0 || (!needs_parens && chunks.len() < 2) {
                            None
                        } else {
                            let rep = string_replacement(line_indent, needs_parens, prefix, quote, chunks);
                            if rep == text {
                                None
                            } else {
                                Some((t.nodes@[i].start, t.nodes@[i].end, rep))
                            }
                        }
                    }
                }
            },
        }
    }
}

fn build_replacement(
    line_indent: &Vec<char>,
    needs_parens: bool,
    prefix: &Vec<char>,
    quote: &Vec<char>,
    chunks: &Vec<Vec<char>>,
) -> (r: Vec<char>)
    ensures
        r@ == string_replacement(
            line_indent@,
            needs_parens,
            prefix@,
            quote@,
            chunks@.map_values(|c: Vec<char>| c@),
        ),
{
    let ghost cs = chunks@.map_values(|c: Vec<char>| c@);
    let mut inner_indent = slice_to_vec(line_indent.as_slice(), 0, line_indent.len());
    assert(line_indent@.subrange(0, line_indent@.len() as int) == line_indent@);
    if needs_parens {
        let sp: Vec<char> = vec![' ', ' ', ' ', ' '];
        assert(sp@ == four_spaces());
        push_all(&mut inner_indent, sp.as_slice());
    }
    let ghost lines = cs.map_values(|c: Seq<char>| piece_line(inner_indent@, prefix@, quote@, c));
    let mut body: Vec<char> = Vec::new();
    let mut j: usize = 0;
    while j < chunks.len()
        invariant
            cs == chunks@.map_values(|c: Vec<char>| c@),
            lines == cs.map_values(|c: Seq<char>| piece_line(inner_indent@, prefix@, quote@, c)),
            j <= chunks@.len(),
            body@ == join_lines(lines.take(j as int)),
        decreases chunks@.len() - j,
    {
        let ghost before = body@;
        if j > 0 {
            body.push('\n');
        }
        push_all(&mut body, inner_indent.as_slice());
        push_all(&mut body, prefix.as_slice());
        push_all(&mut body, quote.as_slice());
        push_all(&mut body, chunks[j].as_slice());
        push_all(&mut body, quote.as_slice());
        proof {
            let tk = lines.take(j + 1);
            assert(tk.drop_last() == lines.take(j as int));
            assert(tk.last() == lines[j as int]);
            assert(lines[j as int] == piece_line(inner_indent@, prefix@, quote@, chunks@[j as int]@));
            if j == 0 {
                assert(before.len() == 0);
                assert(body@ =~= piece_line(inner_indent@, prefix@, quote@, chunks@[j as int]@));
            } else {
                assert(body@ =~= before + seq!['\n'] + piece_line(inner_indent@, prefix@, quote@, chunks@[j as int]@));
            }
        }
        j += 1;
    }
    assert(lines.take(chunks@.len() as int) == lines);
    if needs_parens {
        let mut out: Vec<char> = vec!['(', '\n'];
        push_all(&mut out, body.as_slice());
        out.push('\n');
        push_all(&mut out, line_indent.as_slice());
        out.push(')');
        assert(out@ =~= seq!['(', '\n'] + body@ + seq!['\n'] + line_indent@ + seq![')']);
        out
    } else {
        let e = crate::pyutil::line_end_chars(body.as_slice(), 0);
        proof {
            crate::pyutil::lemma_line_end_bounds(body@, 0);
        }
        let head = slice_to_vec(body.as_slice(), 0, e);
        let k = crate::chars::leading_count_of(head.as_slice(), ' ');
        let mut out = slice_to_vec(head.as_slice(), k, head.len());
        if e < body.len() {
            out.push('\n');
            let tail = slice_to_vec(body.as_slice(), e + 1, body.len());
            push_all(&mut out, tail.as_slice());
        }
        out
    }
}

proof fn lemma_prefix_len_bound(s: Seq<char>)
    ensures
        prefix_len(s) <= s.len(),
    decreases s.len(),
{
    if s.len() > 0 && is_prefix_char(s[0]) {
        lemma_prefix_len_bound(s.drop_first());
    }
}

/// The edit splitting the string literal at node `i`, if it is to be split.
pub fn consider_string(
    t: &SyntaxTree,
    src: &[char],
    i: usize,
    line_length: usize,
    tab_width: usize,
) -> (r: Option<(usize, usize, Vec<char>)>)
    requires
        t.wf(src@.len()),
        i < t.len(),
        size_ok(src@, tab_width as nat),
    ensures
        match r {
            Some((s, e, rep)) => spec_consider_string(src@, *t, i as int, line_length as nat, tab_width as nat)
                == Some((s, e, rep@)),
            None => spec_consider_string(src@, *t, i as int, line_length as nat, tab_width as nat) is None,
        },
{
    proof {
        assert(node_wf(t.nodes@[i as int], i as int, t.nodes@.len() as int, src@.len()));
    }
    if t.is_inside_typing_literal(src, i) {
        return None;
    }
    let start = t.nodes[i].start;
    let end = t.nodes[i].end;
    let text = t.node_text(src, i);
    let parsed = match parse_string_literal(text.as_slice()) {
        Some(p) => p,
        None => {
            return None;
        },
    };
    if parsed.is_triple_quoted || parsed.is_bytes {
        return None;
    }
    if !any_line_over_chars(src, start, end, line_length, tab_width) {
        return None;
    }
    if parsed.is_fstring && !fstring_safely_splittable(text.as_slice()) {
        return None;
    }
    if !contains_char(parsed.prefix.as_slice(), 'r') && !named_escapes_unbroken(text.as_slice()) {
        return None;
    }
    let line_indent = indent_of_line_chars(src, start);
    let needs_parens = !t.provides_parens(i);
    proof {
        lemma_prefix_len_bound(text@);
        assert(parsed.prefix@.len() <= text@.len());
        assert(parsed.inner@.len() <= text@.len());
        assert(parsed.quote@.len() <= 3);
    }
    let extra: usize = if needs_parens {
        4
    } else {
        0
    };
    let overhead = line_indent.len() + extra + parsed.prefix.len() + 2 * parsed.quote.len();
    if overhead + 16 > line_length {
        return None;
    }
    let target = line_length - overhead;
    let tokens = tokenize(parsed.inner.as_slice());
    proof {
        law_tokenize_concat(parsed.inner@);
    }
    assert(tokens@.map_values(|t: Vec<char>| t@).flatten() == parsed.inner@);
    let chunks = pack_tokens(tokens, target);
    if chunks.len() == 0 {
        return None;
    }
    if !needs_parens && chunks.len() < 2 {
        return None;
    }
    let rep = build_replacement(&line_indent, needs_parens, &parsed.prefix, &parsed.quote, &chunks);
    if crate::chars::eq_chars(rep.as_slice(), text.as_slice()) {
        return None;
    }
    Some((start, end, rep))
}


/// A split never changes the string's contents: the pieces of the
/// replacement hold, in order, exactly the text that stood between the
/// literal's quotes, each with the literal's prefix and quote.
pub proof fn law_split_keeps_text(src: Seq<char>, t: SyntaxTree, i: int, line_length: nat, tab: nat)
    requires
        spec_consider_string(src, t, i, line_length, tab) is Some,
    ensures
        spec_parse_string(t.text(src, i)) matches Some((prefix, quote, inner)) && spec_consider_string(
            src,
            t,
            i,
            line_length,
            tab,
        ) matches Some(edit) && exists|chunks: Seq<Seq<char>>|
            #[trigger] chunks.flatten() == inner && chunks.len() >= 1 && edit.2 == string_replacement(
                spec_indent_of_line(src, t.start(i)),
                !t.context_provides_parens(i),
                prefix,
                quote,
                chunks,
            ),
{
    let text = t.text(src, i);
    let (prefix, quote, inner) = spec_parse_string(text)->0;
    let line_indent = spec_indent_of_line(src, t.start(i));
    let needs_parens = !t.context_provides_parens(i);
    let overhead = line_indent.len() + (if needs_parens {
        4nat
    } else {
        0nat
    }) + prefix.len() + 2 * quote.len();
    let target = (line_length - overhead) as nat;
    let chunks = spec_pack_tokens(spec_tokenize(inner), target);
    law_tokenize_concat(inner);
    law_pack_keeps_text(spec_tokenize(inner), target);
    assert(chunks.flatten() == inner);
}


proof fn lemma_no_newline_concat(a: Seq<char>, b: Seq<char>)
    requires
        no_newline(a),
        no_newline(b),
    ensures
        no_newline(a + b),
{
    assert forall|j: int| 0 <= j < (a + b).len() implies (a + b)[j] != '\n' by {
        if j < a.len() {
            assert((a + b)[j] == a[j]);
        } else {
            assert((a + b)[j] == b[j - a.len()]);
        }
    }
}

proof fn lemma_join_lines_first(lines: Seq<Seq<char>>)
    requires
        lines.len() >= 2,
    ensures
        join_lines(lines) == lines[0] + seq!['\n'] + join_lines(lines.drop_first()),
    decreases lines.len(),
{
    let d = lines.drop_last();
    if lines.len() == 2 {
        assert(d.len() == 1);
        assert(join_lines(d) == d[0]);
        assert(lines.drop_first().len() == 1);
        assert(join_lines(lines.drop_first()) == lines.drop_first()[0]);
    } else {
        lemma_join_lines_first(d);
        assert(lines.drop_first().drop_last() =~= d.drop_first());
        assert(lines.drop_first().last() == lines.last());
        assert(d[0] == lines[0]);
        let x = join_lines(d.drop_first());
        assert(lines[0] + seq!['\n'] + x + seq!['\n'] + lines.last() =~= lines[0] + seq!['\n'] + (x + seq!['\n']
            + lines.last()));
    }
}

proof fn lemma_join_lines_split(lines: Seq<Seq<char>>)
    requires
        lines.len() >= 1,
        forall|k: int| 0 <= k < lines.len() ==> no_newline(#[trigger] lines[k]),
    ensures
        spec_split_lines(join_lines(lines)) == lines,
    decreases lines.len(),
{
    if lines.len() == 1 {
        lemma_split_lines_single(lines[0]);
        assert(seq![lines[0]] =~= lines);
    } else {
        let d = lines.drop_last();
        assert forall|k: int| 0 <= k < d.len() implies no_newline(#[trigger] d[k]) by {
            assert(d[k] == lines[k]);
        }
        lemma_join_lines_split(d);
        assert(no_newline(lines[lines.len() - 1]));
        lemma_split_lines_join(join_lines(d), lines.last());
        lemma_split_lines_single(lines.last());
        assert(d + seq![lines.last()] =~= lines);
    }
}

/// The layout of the text that replaces a split literal. With new
/// parentheses: a line holding `(`, then one line per chunk, each at the
/// literal's indentation plus four spaces, with the prefix and quotes around
/// the chunk, then `)` at the literal's indentation. Without: one line per
/// chunk; every line after the first at the literal's indentation, with the
/// prefix and quotes around the chunk, and the first the same without its
/// leading spaces (the literal already stands at its column).
pub proof fn law_split_layout(
    line_indent: Seq<char>,
    needs_parens: bool,
    prefix: Seq<char>,
    quote: Seq<char>,
    chunks: Seq<Seq<char>>,
)
    requires
        chunks.len() >= 1,
        no_newline(line_indent),
        no_newline(prefix),
        no_newline(quote),
        forall|k: int| 0 <= k < chunks.len() ==> no_newline(#[trigger] chunks[k]),
    ensures
        ({
            let lines = spec_split_lines(string_replacement(line_indent, needs_parens, prefix, quote, chunks));
            &&& needs_parens ==> {
                &&& lines.len() == chunks.len() + 2
                &&& lines[0] == seq!['(']
                &&& lines[lines.len() - 1] == line_indent + seq![')']
                &&& forall|k: int|
                    0 <= k < chunks.len() ==> #[trigger] lines[k + 1] == line_indent + seq![' ', ' ', ' ', ' '] + prefix
                        + quote + chunks[k] + quote
            }
            &&& !needs_parens ==> {
                &&& lines.len() == chunks.len()
                &&& lines[0] == crate::chars::trim_start_char(line_indent + prefix + quote + chunks[0] + quote, ' ')
                &&& forall|k: int|
                    1 <= k < chunks.len() ==> #[trigger] lines[k] == line_indent + prefix + quote + chunks[k] + quote
            }
        }),
{
    let inner_indent = if needs_parens {
        line_indent + four_spaces()
    } else {
        line_indent
    };
    assert(no_newline(four_spaces()));
    lemma_no_newline_concat(line_indent, four_spaces());
    let pieces = chunks.map_values(|c: Seq<char>| piece_line(inner_indent, prefix, quote, c));
    assert forall|k: int| 0 <= k < pieces.len() implies no_newline(#[trigger] pieces[k]) by {
        lemma_no_newline_concat(inner_indent, prefix);
        lemma_no_newline_concat(inner_indent + prefix, quote);
        lemma_no_newline_concat(inner_indent + prefix + quote, chunks[k]);
        lemma_no_newline_concat(inner_indent + prefix + quote + chunks[k], quote);
    }
    let body = join_lines(pieces);
    lemma_join_lines_split(pieces);
    let rep = string_replacement(line_indent, needs_parens, prefix, quote, chunks);
    let lines = spec_split_lines(rep);
    if needs_parens {
        let close = line_indent + seq![')'];
        assert(no_newline(seq![')']));
        lemma_no_newline_concat(line_indent, seq![')']);
        assert(rep =~= seq!['('] + seq!['\n'] + (body + seq!['\n'] + close));
        lemma_split_lines_join(seq!['('], body + seq!['\n'] + close);
        lemma_split_lines_join(body, close);
        lemma_split_lines_single(seq!['(']);
        lemma_split_lines_single(close);
        assert(lines =~= seq![seq!['(']] + (pieces + seq![close]));
        assert(four_spaces() =~= seq![' ', ' ', ' ', ' ']);
    } else {
        let p0 = pieces[0];
        crate::chars::lemma_leading_count_bound(p0, ' ');
        let first = crate::chars::trim_start_char(p0, ' ');
        assert forall|j: int| 0 <= j < first.len() implies first[j] != '\n' by {
            assert(first[j] == p0[j + crate::chars::leading_count(p0, ' ')]);
        }
        if pieces.len() == 1 {
            assert(body == p0);
            lemma_line_end_at(body, 0, body.len() as int);
            assert(body.subrange(0, body.len() as int) =~= body);
            lemma_split_lines_single(first);
            assert(lines =~= seq![first]);
        } else {
            lemma_join_lines_first(pieces);
            let rest = join_lines(pieces.drop_first());
            assert(body == p0 + seq!['\n'] + rest);
            assert forall|j: int| 0 <= j < p0.len() implies body[j] != '\n' by {
                assert(body[j] == p0[j]);
            }
            assert(body[p0.len() as int] == '\n');
            lemma_line_end_at(body, 0, p0.len() as int);
            assert(body.subrange(0, p0.len() as int) =~= p0);
            assert(body.subrange(p0.len() as int + 1, body.len() as int) =~= rest);
            assert forall|k: int| 0 <= k < pieces.drop_first().len() implies no_newline(
                #[trigger] pieces.drop_first()[k],
            ) by {
                assert(pieces.drop_first()[k] == pieces[k + 1]);
            }
            lemma_join_lines_split(pieces.drop_first());
            lemma_split_lines_join(first, rest);
            lemma_split_lines_single(first);
            assert(lines =~= seq![first] + pieces.drop_first());
            assert forall|k: int| 1 <= k < chunks.len() implies #[trigger] lines[k] == line_indent + prefix + quote
                + chunks[k] + quote by {
                assert(lines[k] == pieces.drop_first()[k - 1]);
                assert(pieces.drop_first()[k - 1] == pieces[k]);
            }
        }
    }
}

proof fn lemma_flatten_no_newline(chunks: Seq<Seq<char>>)
    requires
        no_newline(chunks.flatten()),
    ensures
        forall|k: int| 0 <= k < chunks.len() ==> no_newline(#[trigger] chunks[k]),
    decreases chunks.len(),
{
    if chunks.len() > 0 {
        let f = chunks.flatten();
        assert(f == chunks.first() + chunks.drop_first().flatten());
        let rest = chunks.drop_first().flatten();
        assert forall|j: int| 0 <= j < rest.len() implies rest[j] != '\n' by {
            assert(f[j + chunks.first().len()] == rest[j]);
        }
        lemma_flatten_no_newline(chunks.drop_first());
        assert forall|k: int| 0 <= k < chunks.len() implies no_newline(#[trigger] chunks[k]) by {
            if k == 0 {
                assert forall|j: int| 0 <= j < chunks[0].len() implies chunks[0][j] != '\n' by {
                    assert(f[j] == chunks[0][j]);
                }
            } else {
                assert(chunks[k] == chunks.drop_first()[k - 1]);
            }
        }
    }
}

/// When a single-line literal is split, every line of the replacement after
/// the first carries the literal's indentation (plus four spaces inside new
/// parentheses) followed by its prefix and quote; new parentheses open on a
/// line of their own and close on a line at the literal's indentation.
pub proof fn law_split_lines_indented(src: Seq<char>, t: SyntaxTree, i: int, line_length: nat, tab: nat)
    requires
        t.wf(src.len()),
        0 <= i < t.len(),
        spec_consider_string(src, t, i, line_length, tab) is Some,
        no_newline(t.text(src, i)),
    ensures
        spec_parse_string(t.text(src, i)) matches Some((prefix, quote, inner)) && spec_consider_string(
            src,
            t,
            i,
            line_length,
            tab,
        ) matches Some(edit) && ({
            let lines = spec_split_lines(edit.2);
            let ind = spec_indent_of_line(src, t.start(i));
            &&& t.context_provides_parens(i) ==> forall|k: int|
                1 <= k < lines.len() ==> starts_with(#[trigger] lines[k], ind + prefix + quote)
            &&& !t.context_provides_parens(i) ==> {
                &&& lines.len() >= 3
                &&& lines[0] == seq!['(']
                &&& lines[lines.len() - 1] == ind + seq![')']
                &&& forall|k: int|
                    1 <= k < lines.len() - 1 ==> starts_with(
                        #[trigger] lines[k],
                        ind + seq![' ', ' ', ' ', ' '] + prefix + quote,
                    )
            }
        }),
{
    law_split_keeps_text(src, t, i, line_length, tab);
    let text = t.text(src, i);
    let (prefix, quote, inner) = spec_parse_string(text)->0;
    let edit = spec_consider_string(src, t, i, line_length, tab)->0;
    let ind = spec_indent_of_line(src, t.start(i));
    let np = !t.context_provides_parens(i);
    let chunks = choose|chunks: Seq<Seq<char>>|
        #[trigger] chunks.flatten() == inner && chunks.len() >= 1 && edit.2 == string_replacement(
            ind,
            np,
            prefix,
            quote,
            chunks,
        );
    assert(node_wf(t.nodes@[i], i, t.nodes@.len() as int, src.len()));
    crate::pyutil::lemma_indent_blank(src, t.start(i));
    let k = prefix_len(text);
    let rest = text.subrange(k as int, text.len() as int);
    lemma_prefix_len_bound(text);
    assert forall|j: int| 0 <= j < prefix.len() implies prefix[j] != '\n' by {
        assert(prefix[j] == lower_prefix_char(text[j]));
    }
    assert(no_newline(quote));
    assert forall|j: int| 0 <= j < inner.len() implies inner[j] != '\n' by {
        assert(inner[j] == text[k + quote.len() + j]);
    }
    lemma_flatten_no_newline(chunks);
    law_split_layout(ind, np, prefix, quote, chunks);
    let lines = spec_split_lines(edit.2);
    if np {
        assert forall|m: int| 1 <= m < lines.len() - 1 implies starts_with(
            #[trigger] lines[m],
            ind + seq![' ', ' ', ' ', ' '] + prefix + quote,
        ) by {
            let w = ind + seq![' ', ' ', ' ', ' '] + prefix + quote;
            assert(lines[(m - 1) + 1] == w + chunks[m - 1] + quote);
            assert((w + chunks[m - 1] + quote).subrange(0, w.len() as int) =~= w);
        }
    } else {
        assert forall|m: int| 1 <= m < lines.len() implies starts_with(#[trigger] lines[m], ind + prefix + quote) by {
            let w = ind + prefix + quote;
            assert(lines[m] == w + chunks[m] + quote);
            assert((w + chunks[m] + quote).subrange(0, w.len() as int) =~= w);
        }
    }
}

/// Record the string-splitting edits of every node of `t`, in node order.
pub fn collect_edits(t: &SyntaxTree, src: &[char], opts: &crate::format::Options, edits: &mut crate::edits::EditSet)
    requires
        t.wf(src@.len()),
        size_ok(src@, opts.tab_width as nat),
        crate::edits::edits_within(old(edits)@, src@.len()),
    ensures
        final(edits)@ == old(edits)@ + crate::format::kind_edits(src@, *t, *opts, crate::format::EditKind::Strings),
        crate::edits::edits_within(final(edits)@, src@.len()),
{
    crate::format::push_kind_edits(edits, t, src, opts, crate::format::EditKind::Strings);
}

} // verus!
