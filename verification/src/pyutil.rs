//! Character-level text model: lines, indentation and display columns.
//!
//! Source text is held as a sequence of `char`s and every position is a
//! character offset into it.

use vstd::prelude::*;
use vstd::string::StringSliceAdditionalSpecFns;

verus! {

/// Number of bytes of `bytes` that begin a UTF-8 encoded character (that is,
/// are not continuation bytes).
pub open spec fn utf8_char_starts(bytes: Seq<u8>) -> nat
    decreases bytes.len(),
{
    if bytes.len() == 0 {
        0
    } else {
        utf8_char_starts(bytes.drop_last()) + if 0x80 <= bytes.last() && bytes.last() < 0xc0 {
            0nat
        } else {
            1nat
        }
    }
}

/// For each byte offset `b` of `bytes` (and its end), the number of characters
/// that start before it: the character offset matching byte offset `b`.
pub fn char_offsets(bytes: &[u8]) -> (r: Vec<usize>)
    ensures
        r@.len() == bytes@.len() + 1,
        forall|b: int| 0 <= b <= bytes@.len() ==> #[trigger] r@[b] == utf8_char_starts(bytes@.take(b)),
{
    let mut table: Vec<usize> = Vec::new();
    let mut count: usize = 0;
    let mut i: usize = 0;
    while i < bytes.len()
        invariant
            i <= bytes@.len(),
            table@.len() == i,
            count == utf8_char_starts(bytes@.take(i as int)),
            count <= i,
            forall|b: int| 0 <= b < i ==> #[trigger] table@[b] == utf8_char_starts(bytes@.take(b)),
        decreases bytes@.len() - i,
    {
        table.push(count);
        proof {
            assert(bytes@.take(i + 1).drop_last() == bytes@.take(i as int));
            assert(bytes@.take(i + 1).last() == bytes@[i as int]);
        }
        if !(0x80 <= bytes[i] && bytes[i] < 0xc0) {
            count += 1;
        }
        i += 1;
    }
    table.push(count);
    table
}


/// A continuation byte of UTF-8: one that does not begin a character.
pub open spec fn is_continuation(b: u8) -> bool {
    0x80 <= b && b < 0xc0
}

/// Byte offset `b` of `bytes` lies on a character boundary: at the end, or
/// at a byte that begins a character (`str::is_char_boundary`).
pub open spec fn at_char_boundary(bytes: Seq<u8>, b: int) -> bool {
    0 <= b <= bytes.len() && (b == bytes.len() || !is_continuation(bytes[b]))
}

proof fn lemma_char_starts_append(a: Seq<u8>, b: Seq<u8>)
    ensures
        utf8_char_starts(a + b) == utf8_char_starts(a) + utf8_char_starts(b),
    decreases b.len(),
{
    if b.len() == 0 {
        assert(a + b == a);
    } else {
        lemma_char_starts_append(a, b.drop_last());
        assert((a + b).drop_last() == a + b.drop_last());
        assert((a + b).last() == b.last());
    }
}

proof fn lemma_utf8_bytes(v: u32)
    ensures
        ((v & 0x7F) as u8) < 0x80,
        0xC0 <= 0xC0 | ((v >> 6) & 0x1F) as u8,
        0xC0 <= 0xE0 | ((v >> 12) & 0x0F) as u8,
        0xC0 <= 0xF0 | ((v >> 18) & 0x7) as u8,
        is_continuation(0x80 | (v & 0x3F) as u8),
        is_continuation(0x80 | ((v >> 6) & 0x3F) as u8),
        is_continuation(0x80 | ((v >> 12) & 0x3F) as u8),
{
    assert(((v & 0x7F) as u8) < 0x80) by (bit_vector);
    assert(0xC0 <= 0xC0 | ((v >> 6) & 0x1F) as u8) by (bit_vector);
    assert(0xC0 <= 0xE0 | ((v >> 12) & 0x0F) as u8) by (bit_vector);
    assert(0xC0 <= 0xF0 | ((v >> 18) & 0x7) as u8) by (bit_vector);
    assert(0x80 <= 0x80 | (v & 0x3F) as u8 && (0x80 | (v & 0x3F) as u8) < 0xc0) by (bit_vector);
    assert(0x80 <= 0x80 | ((v >> 6) & 0x3F) as u8 && (0x80 | ((v >> 6) & 0x3F) as u8) < 0xc0) by (bit_vector);
    assert(0x80 <= 0x80 | ((v >> 12) & 0x3F) as u8 && (0x80 | ((v >> 12) & 0x3F) as u8) < 0xc0)
        by (bit_vector);
}

proof fn lemma_char_starts_scalar(c: char)
    ensures
        utf8_char_starts(vstd::utf8::encode_scalar(c as u32)) == 1,
{
    let v = c as u32;
    let e = vstd::utf8::encode_scalar(v);
    lemma_utf8_bytes(v);
    let z = Seq::<u8>::empty();
    assert(utf8_char_starts(z) == 0);
    if vstd::utf8::has_width_1_encoding(v) {
        let x = vstd::utf8::leading_byte_width_1(v);
        assert(e =~= z.push(x));
        assert(z.push(x).drop_last() =~= z);
        assert(utf8_char_starts(z.push(x)) == 1);
    } else if vstd::utf8::has_width_2_encoding(v) {
        let x = vstd::utf8::leading_byte_width_2(v);
        let y = vstd::utf8::last_continuation_byte(v);
        assert(e =~= z.push(x).push(y));
        assert(z.push(x).push(y).drop_last() =~= z.push(x));
        assert(z.push(x).drop_last() =~= z);
        assert(utf8_char_starts(z.push(x)) == 1);
        assert(utf8_char_starts(z.push(x).push(y)) == 1);
    } else if vstd::utf8::has_width_3_encoding(v) {
        let x = vstd::utf8::leading_byte_width_3(v);
        let y = vstd::utf8::second_last_continuation_byte(v);
        let w = vstd::utf8::last_continuation_byte(v);
        assert(e =~= z.push(x).push(y).push(w));
        assert(z.push(x).push(y).push(w).drop_last() =~= z.push(x).push(y));
        assert(z.push(x).push(y).drop_last() =~= z.push(x));
        assert(z.push(x).drop_last() =~= z);
        assert(utf8_char_starts(z.push(x)) == 1);
        assert(utf8_char_starts(z.push(x).push(y)) == 1);
        assert(utf8_char_starts(z.push(x).push(y).push(w)) == 1);
    } else {
        let x = vstd::utf8::leading_byte_width_4(v);
        let y = vstd::utf8::third_last_continuation_byte(v);
        let w = vstd::utf8::second_last_continuation_byte(v);
        let u = vstd::utf8::last_continuation_byte(v);
        assert(e =~= z.push(x).push(y).push(w).push(u));
        assert(z.push(x).push(y).push(w).push(u).drop_last() =~= z.push(x).push(y).push(w));
        assert(z.push(x).push(y).push(w).drop_last() =~= z.push(x).push(y));
        assert(z.push(x).push(y).drop_last() =~= z.push(x));
        assert(z.push(x).drop_last() =~= z);
        assert(utf8_char_starts(z.push(x)) == 1);
        assert(utf8_char_starts(z.push(x).push(y)) == 1);
        assert(utf8_char_starts(z.push(x).push(y).push(w)) == 1);
        assert(utf8_char_starts(z.push(x).push(y).push(w).push(u)) == 1);
    }
}

/// The UTF-8 encoding of `s` begins exactly `s.len()` characters.
pub proof fn lemma_char_starts_encode(s: Seq<char>)
    ensures
        utf8_char_starts(vstd::utf8::encode_utf8(s)) == s.len(),
    decreases s.len(),
{
    if s.len() > 0 {
        lemma_char_starts_encode(s.drop_first());
        lemma_char_starts_scalar(s[0]);
        lemma_char_starts_append(vstd::utf8::encode_scalar(s[0] as u32), vstd::utf8::encode_utf8(s.drop_first()));
    }
}

/// A prefix of `bytes` begins no more characters than all of `bytes`.
pub proof fn lemma_char_starts_take(bytes: Seq<u8>, b: int)
    requires
        0 <= b <= bytes.len(),
    ensures
        utf8_char_starts(bytes.take(b)) <= utf8_char_starts(bytes),
{
    lemma_char_starts_append(bytes.take(b), bytes.skip(b));
    assert(bytes.take(b) + bytes.skip(b) == bytes);
}

/// A prefix-free count: no more characters begin than there are bytes.
pub proof fn lemma_char_starts_le_len(bytes: Seq<u8>)
    ensures
        utf8_char_starts(bytes) <= bytes.len(),
    decreases bytes.len(),
{
    if bytes.len() > 0 {
        lemma_char_starts_le_len(bytes.drop_last());
    }
}

/// The first byte of an encoding begins a character.
pub proof fn lemma_boundary_zero(src: Seq<char>)
    ensures
        at_char_boundary(vstd::utf8::encode_utf8(src), 0),
{
    let bytes = vstd::utf8::encode_utf8(src);
    if src.len() > 0 {
        let v = src[0] as u32;
        let e0 = vstd::utf8::encode_scalar(v);
        lemma_utf8_bytes(v);
        assert(bytes == e0 + vstd::utf8::encode_utf8(src.drop_first()));
        assert(bytes[0] == e0[0]);
    }
}


/// Encoding a concatenation concatenates the encodings.
pub proof fn lemma_encode_append(x: Seq<char>, y: Seq<char>)
    ensures
        vstd::utf8::encode_utf8(x + y) == vstd::utf8::encode_utf8(x) + vstd::utf8::encode_utf8(y),
    decreases x.len(),
{
    if x.len() == 0 {
        assert(x + y =~= y);
        assert(Seq::<u8>::empty() + vstd::utf8::encode_utf8(y) =~= vstd::utf8::encode_utf8(y));
    } else {
        lemma_encode_append(x.drop_first(), y);
        assert((x + y).drop_first() =~= x.drop_first() + y);
        assert((x + y)[0] == x[0]);
        let e0 = vstd::utf8::encode_scalar(x[0] as u32);
        assert(e0 + (vstd::utf8::encode_utf8(x.drop_first()) + vstd::utf8::encode_utf8(y)) =~= (e0
            + vstd::utf8::encode_utf8(x.drop_first())) + vstd::utf8::encode_utf8(y));
    }
}

/// Every byte of a character's encoding after the first is a continuation
/// byte.
proof fn lemma_scalar_tail(c: char, j: int)
    requires
        0 < j < vstd::utf8::encode_scalar(c as u32).len(),
    ensures
        is_continuation(vstd::utf8::encode_scalar(c as u32)[j]),
{
    lemma_utf8_bytes(c as u32);
}

/// At a character boundary `a` of the encoding of `src`, the characters
/// before it encode to the bytes before it.
pub proof fn lemma_boundary_prefix(src: Seq<char>, a: int)
    requires
        at_char_boundary(vstd::utf8::encode_utf8(src), a),
    ensures
        utf8_char_starts(vstd::utf8::encode_utf8(src).take(a)) <= src.len(),
        vstd::utf8::encode_utf8(src.take(utf8_char_starts(vstd::utf8::encode_utf8(src).take(a)) as int))
            == vstd::utf8::encode_utf8(src).take(a),
    decreases src.len(),
{
    let bytes = vstd::utf8::encode_utf8(src);
    if a == 0 {
        assert(bytes.take(0) =~= Seq::<u8>::empty());
        assert(src.take(0) =~= Seq::<char>::empty());
    } else {
        let e0 = vstd::utf8::encode_scalar(src[0] as u32);
        let rest = src.drop_first();
        let rb = vstd::utf8::encode_utf8(rest);
        let w = e0.len() as int;
        assert(bytes == e0 + rb);
        lemma_char_starts_scalar(src[0]);
        if a < w {
            lemma_scalar_tail(src[0], a);
            assert(bytes[a] == e0[a]);
        } else {
            let a2 = a - w;
            if a2 < rb.len() {
                assert(bytes[a] == rb[a2]);
            }
            lemma_boundary_prefix(rest, a2);
            let k = utf8_char_starts(rb.take(a2));
            assert(bytes.take(a) =~= e0 + rb.take(a2));
            lemma_char_starts_append(e0, rb.take(a2));
            assert(src.take(1 + k as int) =~= seq![src[0]] + rest.take(k as int));
            lemma_encode_append(seq![src[0]], rest.take(k as int));
            let one = seq![src[0]];
            assert(one.drop_first() =~= Seq::<char>::empty());
            assert(one[0] == src[0]);
            assert(vstd::utf8::encode_utf8(one.drop_first()) =~= Seq::<u8>::empty());
            assert(vstd::utf8::encode_utf8(one) =~= e0);
        }
    }
}

/// Character positions of boundaries keep the order of the byte offsets.
pub proof fn lemma_boundary_order(src: Seq<char>, a: int, b: int)
    requires
        at_char_boundary(vstd::utf8::encode_utf8(src), a),
        at_char_boundary(vstd::utf8::encode_utf8(src), b),
        a < b,
    ensures
        utf8_char_starts(vstd::utf8::encode_utf8(src).take(a)) < utf8_char_starts(
            vstd::utf8::encode_utf8(src).take(b),
        ),
{
    let bytes = vstd::utf8::encode_utf8(src);
    lemma_char_starts_take(bytes.take(b), a);
    assert(bytes.take(b).take(a) =~= bytes.take(a));
    lemma_boundary_prefix(src, a);
    lemma_boundary_prefix(src, b);
}

/// Between two boundaries, the characters encode to the bytes.
pub proof fn lemma_boundary_segment(src: Seq<char>, a: int, b: int)
    requires
        at_char_boundary(vstd::utf8::encode_utf8(src), a),
        at_char_boundary(vstd::utf8::encode_utf8(src), b),
        a <= b,
    ensures
        vstd::utf8::encode_utf8(
            src.subrange(
                utf8_char_starts(vstd::utf8::encode_utf8(src).take(a)) as int,
                utf8_char_starts(vstd::utf8::encode_utf8(src).take(b)) as int,
            ),
        ) == vstd::utf8::encode_utf8(src).subrange(a, b),
{
    let bytes = vstd::utf8::encode_utf8(src);
    let ca = utf8_char_starts(bytes.take(a)) as int;
    let cb = utf8_char_starts(bytes.take(b)) as int;
    lemma_boundary_prefix(src, a);
    lemma_boundary_prefix(src, b);
    if a < b {
        lemma_boundary_order(src, a, b);
    }
    assert(src.take(cb) =~= src.take(ca) + src.subrange(ca, cb));
    lemma_encode_append(src.take(ca), src.subrange(ca, cb));
    assert(bytes.take(b) =~= bytes.take(a) + bytes.subrange(a, b));
    let x = vstd::utf8::encode_utf8(src.subrange(ca, cb));
    assert(bytes.take(a) + x == bytes.take(a) + bytes.subrange(a, b));
    assert(x =~= (bytes.take(a) + x).subrange(a, (bytes.take(a) + x).len() as int));
    assert(bytes.subrange(a, b) =~= (bytes.take(a) + bytes.subrange(a, b)).subrange(a, b));
}

/// `s` holds no newline.
pub open spec fn no_newline(s: Seq<char>) -> bool {
    forall|j: int| 0 <= j < s.len() ==> s[j] != '\n'
}

/// A text without a newline is a single line.
pub proof fn lemma_split_lines_single(s: Seq<char>)
    requires
        no_newline(s),
    ensures
        spec_split_lines(s) == seq![s],
    decreases s.len(),
{
    if s.len() == 0 {
        assert(s =~= Seq::<char>::empty());
    } else {
        let d = s.drop_last();
        assert forall|j: int| 0 <= j < d.len() implies d[j] != '\n' by {
            assert(d[j] == s[j]);
        }
        lemma_split_lines_single(d);
        assert(s.last() == s[s.len() - 1]);
        assert(d.push(s.last()) =~= s);
        assert(seq![d].update(0, d.push(s.last())) =~= seq![s]);
    }
}

/// The lines of a text hold no newline.
pub proof fn lemma_split_lines_no_newline(s: Seq<char>)
    ensures
        spec_split_lines(s).len() >= 1,
        forall|k: int| 0 <= k < spec_split_lines(s).len() ==> no_newline(#[trigger] spec_split_lines(s)[k]),
    decreases s.len(),
{
    if s.len() > 0 {
        lemma_split_lines_no_newline(s.drop_last());
        let prev = spec_split_lines(s.drop_last());
        if s.last() != '\n' {
            let l = prev.last().push(s.last());
            assert(no_newline(prev[prev.len() - 1]));
            assert forall|j: int| 0 <= j < l.len() implies l[j] != '\n' by {
                if j < l.len() - 1 {
                    assert(l[j] == prev.last()[j]);
                }
            }
            let u = prev.update(prev.len() - 1, l);
            assert forall|k: int| 0 <= k < u.len() implies no_newline(#[trigger] u[k]) by {
                if k < u.len() - 1 {
                    assert(u[k] == prev[k]);
                }
            }
        } else {
            let u = prev.push(Seq::<char>::empty());
            assert forall|k: int| 0 <= k < u.len() implies no_newline(#[trigger] u[k]) by {
                if k < u.len() - 1 {
                    assert(u[k] == prev[k]);
                }
            }
        }
    }
}

/// The lines of two texts joined by a newline are the lines of the first
/// followed by the lines of the second.
pub proof fn lemma_split_lines_join(a: Seq<char>, b: Seq<char>)
    ensures
        spec_split_lines(a + seq!['\n'] + b) == spec_split_lines(a) + spec_split_lines(b),
{
    let s = a + seq!['\n'] + b;
    let m: int = a.len() as int + 1;
    assert(s[m - 1] == '\n');
    lemma_split_at_line_start(s, m, s.len() as int);
    let pre = s.subrange(0, m);
    assert(pre.drop_last() =~= a);
    assert(pre.last() == '\n');
    assert(spec_split_lines(pre) == spec_split_lines(a).push(Seq::<char>::empty()));
    assert(spec_split_lines(pre).drop_last() =~= spec_split_lines(a));
    assert(s.subrange(m, s.len() as int) =~= b);
    assert(s.subrange(0, s.len() as int) =~= s);
}

/// The end of the line holding `pos` is the first newline at or after it.
pub proof fn lemma_line_end_at(s: Seq<char>, pos: int, e: int)
    requires
        0 <= pos <= e <= s.len(),
        forall|j: int| pos <= j < e ==> s[j] != '\n',
        e == s.len() || s[e] == '\n',
    ensures
        spec_line_end(s, pos) == e,
    decreases e - pos,
{
    if pos < e {
        lemma_line_end_at(s, pos + 1, e);
    }
}

proof fn lemma_blank_run(s: Seq<char>, pos: int)
    requires
        0 <= pos <= s.len(),
    ensures
        pos <= spec_blank_run_end(s, pos) <= s.len(),
        forall|j: int| pos <= j < spec_blank_run_end(s, pos) ==> is_blank_char(#[trigger] s[j]),
    decreases s.len() - pos,
{
    if pos < s.len() && is_blank_char(s[pos]) {
        lemma_blank_run(s, pos + 1);
    }
}

/// The indentation of a line is made of spaces and tabs only.
pub proof fn lemma_indent_blank(s: Seq<char>, pos: int)
    requires
        0 <= pos <= s.len(),
    ensures
        forall|j: int|
            0 <= j < spec_indent_of_line(s, pos).len() ==> is_blank_char(#[trigger] spec_indent_of_line(s, pos)[j]),
        no_newline(spec_indent_of_line(s, pos)),
{
    lemma_line_start_bounds(s, pos);
    let st = spec_line_start(s, pos);
    lemma_blank_run(s, st);
    let ind = spec_indent_of_line(s, pos);
    assert forall|j: int| 0 <= j < ind.len() implies is_blank_char(#[trigger] ind[j]) by {
        assert(ind[j] == s[st + j]);
    }
}

/// Texts small enough for every count and every column they reach to fit
/// in a `usize`.
pub open spec fn size_ok(s: Seq<char>, tab: nat) -> bool {
    &&& s.len() <= usize::MAX / 8
    &&& spec_longest_line(s, tab) <= usize::MAX
}

/// A space or a tab: the characters that make up indentation.
pub open spec fn is_blank_char(c: char) -> bool {
    c == ' ' || c == '\t'
}

/// Offset of the first character of the line that holds position `pos`.
pub open spec fn spec_line_start(s: Seq<char>, pos: int) -> int
    decreases pos,
{
    if pos <= 0 {
        0
    } else if s[pos - 1] == '\n' {
        pos
    } else {
        spec_line_start(s, pos - 1)
    }
}

/// Offset of the newline that ends the line holding `pos`, or the length of `s`.
pub open spec fn spec_line_end(s: Seq<char>, pos: int) -> int
    decreases s.len() - pos,
{
    if pos >= s.len() {
        s.len() as int
    } else if s[pos] == '\n' {
        pos
    } else {
        spec_line_end(s, pos + 1)
    }
}

/// End of the run of spaces and tabs that starts at `pos`.
pub open spec fn spec_blank_run_end(s: Seq<char>, pos: int) -> int
    decreases s.len() - pos,
{
    if pos >= s.len() || pos < 0 {
        pos
    } else if is_blank_char(s[pos]) {
        spec_blank_run_end(s, pos + 1)
    } else {
        pos
    }
}

/// The indentation (leading spaces and tabs) of the line holding `pos`.
pub open spec fn spec_indent_of_line(s: Seq<char>, pos: int) -> Seq<char> {
    let start = spec_line_start(s, pos);
    s.subrange(start, spec_blank_run_end(s, start))
}

/// Display width of `line`: one column per character, tabs advancing to the
/// next multiple of `tab`. A tab width of 0 never divides: a tab then takes
/// one column like any other character.
pub open spec fn spec_columns(line: Seq<char>, tab: nat) -> nat
    decreases line.len(),
{
    if line.len() == 0 {
        0
    } else {
        let col = spec_columns(line.drop_last(), tab);
        if line.last() == '\t' && tab > 0 {
            (col + tab - col % tab) as nat
        } else {
            col + 1
        }
    }
}

/// The pieces of `s` between newlines (`str::split('\n')`): one more piece
/// than there are newlines.
pub open spec fn spec_split_lines(s: Seq<char>) -> Seq<Seq<char>>
    decreases s.len(),
{
    if s.len() == 0 {
        seq![Seq::<char>::empty()]
    } else {
        let prev = spec_split_lines(s.drop_last());
        if s.last() == '\n' {
            prev.push(Seq::<char>::empty())
        } else {
            prev.update(prev.len() - 1, prev.last().push(s.last()))
        }
    }
}

/// Largest display width among `lines`.
pub open spec fn spec_max_columns(lines: Seq<Seq<char>>, tab: nat) -> nat
    decreases lines.len(),
{
    if lines.len() == 0 {
        0
    } else {
        let rest = spec_max_columns(lines.drop_last(), tab);
        let here = spec_columns(lines.last(), tab);
        if here > rest {
            here
        } else {
            rest
        }
    }
}

/// Display width of the widest line of `text`.
pub open spec fn spec_longest_line(text: Seq<char>, tab: nat) -> nat {
    spec_max_columns(spec_split_lines(text), tab)
}

pub proof fn lemma_split_lines_nonempty(s: Seq<char>)
    ensures
        spec_split_lines(s).len() >= 1,
    decreases s.len(),
{
    if s.len() > 0 {
        lemma_split_lines_nonempty(s.drop_last());
    }
}

/// The display width never exceeds `tab` columns per character, and is one
/// column per character with a tab width of 0.
pub proof fn lemma_columns_bound(line: Seq<char>, tab: nat)
    ensures
        tab >= 1 ==> spec_columns(line, tab) <= line.len() * tab,
        tab == 0 ==> spec_columns(line, tab) == line.len(),
    decreases line.len(),
{
    if line.len() > 0 {
        lemma_columns_bound(line.drop_last(), tab);
        let col = spec_columns(line.drop_last(), tab);
        if tab >= 1 {
            assert(col % tab >= 0) by (nonlinear_arith)
                requires
                    tab >= 1,
            ;
            assert((line.len() - 1) * tab + tab == line.len() * tab) by (nonlinear_arith);
        }
    }
}

/// Offset of the first character of the line holding `pos`.
pub fn line_start_chars(source: &[char], pos: usize) -> (r: usize)
    requires
        pos <= source@.len(),
    ensures
        r as int == spec_line_start(source@, pos as int),
{
    let mut i = pos;
    while i > 0
        invariant
            i <= pos <= source@.len(),
            spec_line_start(source@, i as int) == spec_line_start(source@, pos as int),
        decreases i,
    {
        if source[i - 1] == '\n' {
            return i;
        }
        i -= 1;
    }
    0
}

/// Offset of the end of the line holding `pos` (its newline, or the end of
/// the source).
pub fn line_end_chars(source: &[char], pos: usize) -> (r: usize)
    requires
        pos <= source@.len(),
    ensures
        r as int == spec_line_end(source@, pos as int),
{
    let mut i = pos;
    while i < source.len()
        invariant
            pos <= i <= source@.len(),
            spec_line_end(source@, i as int) == spec_line_end(source@, pos as int),
        decreases source@.len() - i,
    {
        if source[i] == '\n' {
            return i;
        }
        i += 1;
    }
    source.len()
}

/// End of the run of spaces and tabs that starts at `pos`.
pub fn blank_run_end(source: &[char], pos: usize) -> (r: usize)
    requires
        pos <= source@.len(),
    ensures
        r as int == spec_blank_run_end(source@, pos as int),
        pos <= r <= source@.len(),
{
    let mut i = pos;
    while i < source.len() && (source[i] == ' ' || source[i] == '\t')
        invariant
            pos <= i <= source@.len(),
            spec_blank_run_end(source@, i as int) == spec_blank_run_end(source@, pos as int),
        decreases source@.len() - i,
    {
        i += 1;
    }
    i
}

/// Copy of `source[start..end]`.
pub fn slice_to_vec(source: &[char], start: usize, end: usize) -> (r: Vec<char>)
    requires
        start <= end <= source@.len(),
    ensures
        r@ == source@.subrange(start as int, end as int),
{
    let mut out: Vec<char> = Vec::new();
    let mut i = start;
    while i < end
        invariant
            start <= i <= end <= source@.len(),
            out@ == source@.subrange(start as int, i as int),
        decreases end - i,
    {
        out.push(source[i]);
        i += 1;
    }
    out
}

/// Append all of `s` to `out`.
pub fn push_all(out: &mut Vec<char>, s: &[char])
    ensures
        final(out)@ == old(out)@ + s@,
{
    let mut i: usize = 0;
    while i < s.len()
        invariant
            i <= s@.len(),
            out@ == old(out)@ + s@.subrange(0, i as int),
        decreases s@.len() - i,
    {
        out.push(s[i]);
        i += 1;
        assert(s@.subrange(0, i as int) == s@.subrange(0, i - 1 as int).push(s@[i - 1]));
    }
    assert(s@.subrange(0, s@.len() as int) == s@);
}

/// The indentation (leading spaces and tabs) of the line holding `pos`.
pub fn indent_of_line_chars(source: &[char], pos: usize) -> (r: Vec<char>)
    requires
        pos <= source@.len(),
    ensures
        r@ == spec_indent_of_line(source@, pos as int),
        r@.len() <= source@.len(),
{
    let start = line_start_chars(source, pos);
    proof {
        lemma_line_start_bounds(source@, pos as int);
    }
    let end = blank_run_end(source, start);
    slice_to_vec(source, start, end)
}

pub proof fn lemma_line_start_bounds(s: Seq<char>, pos: int)
    requires
        0 <= pos <= s.len(),
    ensures
        0 <= spec_line_start(s, pos) <= pos,
    decreases pos,
{
    if pos > 0 && s[pos - 1] != '\n' {
        lemma_line_start_bounds(s, pos - 1);
    }
}

pub proof fn lemma_line_end_bounds(s: Seq<char>, pos: int)
    requires
        0 <= pos <= s.len(),
    ensures
        pos <= spec_line_end(s, pos) <= s.len(),
    decreases s.len() - pos,
{
    if pos < s.len() && s[pos] != '\n' {
        lemma_line_end_bounds(s, pos + 1);
    }
}

proof fn lemma_columns_prefix(line: Seq<char>, i: int, tab: nat)
    requires
        0 <= i <= line.len(),
    ensures
        spec_columns(line.subrange(0, i), tab) <= spec_columns(line, tab),
    decreases line.len() - i,
{
    if i < line.len() {
        lemma_columns_prefix(line, i + 1, tab);
        assert(line.subrange(0, i + 1) == line.subrange(0, i).push(line[i]));
        lemma_columns_push(line.subrange(0, i), line[i], tab);
    } else {
        assert(line.subrange(0, i) == line);
    }
}

proof fn lemma_last_within_max(lines: Seq<Seq<char>>, tab: nat)
    requires
        lines.len() > 0,
    ensures
        spec_columns(lines.last(), tab) <= spec_max_columns(lines, tab),
{
}

/// Display width of `line`, tabs expanding to the next multiple of `tab_width`.
pub fn columns(line: &[char], tab_width: usize) -> (r: usize)
    requires
        spec_columns(line@, tab_width as nat) <= usize::MAX,
    ensures
        r == spec_columns(line@, tab_width as nat),
{
    let mut col: usize = 0;
    let mut i: usize = 0;
    while i < line.len()
        invariant
            i <= line@.len(),
            spec_columns(line@, tab_width as nat) <= usize::MAX,
            col == spec_columns(line@.subrange(0, i as int), tab_width as nat),
        decreases line@.len() - i,
    {
        proof {
            lemma_columns_prefix(line@, i + 1, tab_width as nat);
            assert(line@.subrange(0, i + 1).drop_last() == line@.subrange(0, i as int));
        }
        if line[i] == '\t' && tab_width > 0 {
            col = col + (tab_width - col % tab_width);
        } else {
            col = col + 1;
        }
        i += 1;
    }
    assert(line@.subrange(0, line@.len() as int) == line@);
    col
}

/// Visible column (in characters) of `pos` within its line; tabs expand to
/// `tab_width` columns.
pub fn visible_column_chars(source: &[char], pos: usize, tab_width: usize) -> (r: usize)
    requires
        pos <= source@.len(),
        spec_columns(source@.subrange(spec_line_start(source@, pos as int), pos as int), tab_width as nat)
            <= usize::MAX,
    ensures
        r == spec_columns(
            source@.subrange(spec_line_start(source@, pos as int), pos as int),
            tab_width as nat,
        ),
{
    let start = line_start_chars(source, pos);
    proof {
        lemma_line_start_bounds(source@, pos as int);
    }
    let prefix = slice_to_vec(source, start, pos);
    columns(prefix.as_slice(), tab_width)
}

/// Display width of the widest line of `text`, or `None` when it does not
/// fit in a `usize`.
pub fn longest_line_checked(text: &[char], tab_width: usize) -> (r: Option<usize>)
    ensures
        match r {
            Some(v) => v == spec_longest_line(text@, tab_width as nat),
            None => spec_longest_line(text@, tab_width as nat) > usize::MAX,
        },
{
    let ghost tab = tab_width as nat;
    let mut max: usize = 0;
    let mut col: usize = 0;
    let mut i: usize = 0;
    while i < text.len()
        invariant
            tab == tab_width as nat,
            i <= text@.len(),
            spec_split_lines(text@.subrange(0, i as int)).len() >= 1,
            col == spec_columns(spec_split_lines(text@.subrange(0, i as int)).last(), tab),
            max == spec_max_columns(spec_split_lines(text@.subrange(0, i as int)).drop_last(), tab),
        decreases text@.len() - i,
    {
        let ghost prefix = text@.subrange(0, i as int);
        let ghost next = text@.subrange(0, i + 1);
        proof {
            assert(next.drop_last() == prefix);
            assert(next.last() == text@[i as int]);
            lemma_split_lines_nonempty(prefix);
            lemma_split_lines_nonempty(next);
            lemma_longest_prefix(text@, i + 1, tab);
            lemma_last_within_max(spec_split_lines(next), tab);
        }
        let c = text[i];
        if c == '\n' {
            proof {
                let lines = spec_split_lines(prefix);
                assert(spec_split_lines(next) == lines.push(Seq::<char>::empty()));
                assert(spec_split_lines(next).drop_last() == lines);
                assert(lines == lines.drop_last().push(lines.last()));
            }
            if col > max {
                max = col;
            }
            col = 0;
        } else {
            proof {
                let lines = spec_split_lines(prefix);
                let upd = lines.update(lines.len() - 1, lines.last().push(c));
                assert(spec_split_lines(next) == upd);
                assert(upd.drop_last() == lines.drop_last());
                assert(upd.last().drop_last() == lines.last());
            }
            let step: usize = if c == '\t' && tab_width > 0 {
                tab_width - col % tab_width
            } else {
                1
            };
            match col.checked_add(step) {
                Some(v) => {
                    col = v;
                },
                None => {
                    return None;
                },
            }
        }
        i += 1;
    }
    proof {
        let lines = spec_split_lines(text@.subrange(0, i as int));
        assert(lines == lines.drop_last().push(lines.last()));
        assert(text@.subrange(0, i as int) == text@);
    }
    if col > max {
        Some(col)
    } else {
        Some(max)
    }
}

/// Display width of the widest line of `text`.
pub fn longest_line_chars(text: &[char], tab_width: usize) -> (r: usize)
    requires
        spec_longest_line(text@, tab_width as nat) <= usize::MAX,
    ensures
        r == spec_longest_line(text@, tab_width as nat),
{
    match longest_line_checked(text, tab_width) {
        Some(v) => v,
        None => 0,
    }
}

/// True when some line touching `source[start..end]` (counted from the
/// beginning of the line holding `start`) is wider than `limit` columns.
pub fn any_line_over_chars(source: &[char], start: usize, end: usize, limit: usize, tab_width: usize) -> (r: bool)
    requires
        start <= end <= source@.len(),
        spec_longest_line(source@, tab_width as nat) <= usize::MAX,
    ensures
        r == (spec_longest_line(
            source@.subrange(spec_line_start(source@, start as int), end as int),
            tab_width as nat,
        ) > limit),
{
    let from = line_start_chars(source, start);
    proof {
        lemma_line_start_bounds(source@, start as int);
        lemma_line_segment_within_longest(source@, start as int, end as int, tab_width as nat);
    }
    let segment = slice_to_vec(source, from, end);
    longest_line_chars(segment.as_slice(), tab_width) > limit
}


/// The characters of `s`.
pub fn str_chars(s: &str) -> (r: Vec<char>)
    ensures
        r@ == s@,
{
    broadcast use vstd::string::group_string_axioms;
    let mut out: Vec<char> = Vec::new();
    for c in it: s.chars()
        invariant
            out@ == it.seq().take(it.index() as int),
    {
        out.push(c);
    }
    out
}


/// `String::push`: appends `c` to `s`.
#[verifier::external_body]
fn string_push(s: &mut String, c: char)
    ensures
        final(s)@ == old(s)@.push(c),
{
    s.push(c);
}

/// A `String` holding the characters of `v`.
pub fn chars_to_string(v: &[char]) -> (r: String)
    ensures
        r@ == v@,
{
    let mut out = String::new();
    let mut i: usize = 0;
    while i < v.len()
        invariant
            i <= v@.len(),
            out@ == v@.subrange(0, i as int),
        decreases v@.len() - i,
    {
        string_push(&mut out, v[i]);
        i += 1;
        assert(v@.subrange(0, i as int) == v@.subrange(0, i - 1 as int).push(v@[i - 1]));
    }
    assert(v@.subrange(0, v@.len() as int) == v@);
    out
}


/// The pieces of `s` between newlines (`str::split('\n')`).
pub fn split_lines(s: &[char]) -> (r: Vec<Vec<char>>)
    ensures
        r@.map_values(|l: Vec<char>| l@) == spec_split_lines(s@),
        r@.len() >= 1,
{
    let mut out: Vec<Vec<char>> = Vec::new();
    let mut cur: Vec<char> = Vec::new();
    let mut i: usize = 0;
    while i < s.len()
        invariant
            i <= s@.len(),
            out@.map_values(|l: Vec<char>| l@).push(cur@) == spec_split_lines(s@.subrange(0, i as int)),
        decreases s@.len() - i,
    {
        let ghost prev = out@.map_values(|l: Vec<char>| l@);
        let ghost prefix = s@.subrange(0, i as int);
        proof {
            assert(s@.subrange(0, i + 1).drop_last() == prefix);
            assert(s@.subrange(0, i + 1).last() == s@[i as int]);
        }
        if s[i] == '\n' {
            let line = cur;
            cur = Vec::new();
            out.push(line);
            proof {
                assert(out@.map_values(|l: Vec<char>| l@) =~= prev.push(line@));
            }
        } else {
            let ghost old_cur = cur@;
            cur.push(s[i]);
            proof {
                let lines = prev.push(old_cur);
                assert(lines.last() == old_cur);
                assert(lines.update(lines.len() - 1, lines.last().push(s@[i as int])) =~= prev.push(cur@));
            }
        }
        i += 1;
    }
    let ghost prev = out@.map_values(|l: Vec<char>| l@);
    out.push(cur);
    assert(out@.map_values(|l: Vec<char>| l@) =~= prev.push(cur@));
    assert(s@.subrange(0, s@.len() as int) == s@);
    out
}

/// Number of trailing spaces and tabs of `s`.
pub open spec fn trailing_blank(s: Seq<char>) -> nat
    decreases s.len(),
{
    if s.len() > 0 && is_blank_char(s.last()) {
        1 + trailing_blank(s.drop_last())
    } else {
        0
    }
}

pub fn trailing_blank_len(s: &[char]) -> (r: usize)
    ensures
        r == trailing_blank(s@),
        r <= s@.len(),
{
    let mut i: usize = s.len();
    assert(s@.subrange(0, s@.len() as int) == s@);
    while i > 0 && (s[i - 1] == ' ' || s[i - 1] == '\t')
        invariant
            i <= s@.len(),
            trailing_blank(s@) == (s@.len() - i) + trailing_blank(s@.subrange(0, i as int)),
        decreases i,
    {
        proof {
            let rest = s@.subrange(0, i as int);
            assert(rest.drop_last() == s@.subrange(0, i - 1));
        }
        i -= 1;
    }
    proof {
        let rest = s@.subrange(0, i as int);
        if i > 0 {
            assert(rest.last() == s@[i - 1]);
        }
    }
    s.len() - i
}

/// Number of leading spaces and tabs of `s`.
pub open spec fn leading_blank(s: Seq<char>) -> nat
    decreases s.len(),
{
    if s.len() > 0 && is_blank_char(s[0]) {
        1 + leading_blank(s.drop_first())
    } else {
        0
    }
}

pub fn leading_blank_len(s: &[char]) -> (r: usize)
    ensures
        r == leading_blank(s@),
        r <= s@.len(),
{
    let mut i: usize = 0;
    assert(s@.subrange(0, s@.len() as int) == s@);
    while i < s.len() && (s[i] == ' ' || s[i] == '\t')
        invariant
            i <= s@.len(),
            leading_blank(s@) == i + leading_blank(s@.subrange(i as int, s@.len() as int)),
        decreases s@.len() - i,
    {
        proof {
            let rest = s@.subrange(i as int, s@.len() as int);
            assert(rest.drop_first() == s@.subrange(i + 1, s@.len() as int));
        }
        i += 1;
    }
    proof {
        let rest = s@.subrange(i as int, s@.len() as int);
        if i < s@.len() {
            assert(rest[0] == s@[i as int]);
        }
    }
    i
}


/// `spec_line_start` lands at the start of a line.
pub proof fn lemma_line_start_at_line_start(s: Seq<char>, pos: int)
    requires
        0 <= pos <= s.len(),
    ensures
        spec_line_start(s, pos) == 0 || s[spec_line_start(s, pos) - 1] == '\n',
    decreases pos,
{
    if pos > 0 && s[pos - 1] != '\n' {
        lemma_line_start_at_line_start(s, pos - 1);
    }
}

proof fn lemma_split_at_line_start(s: Seq<char>, a: int, b: int)
    requires
        0 <= a <= b <= s.len(),
        a == 0 || s[a - 1] == '\n',
    ensures
        spec_split_lines(s.subrange(0, a)).len() >= 1,
        spec_split_lines(s.subrange(0, a)).last() == Seq::<char>::empty(),
        spec_split_lines(s.subrange(0, b)) == spec_split_lines(s.subrange(0, a)).drop_last() + spec_split_lines(
            s.subrange(a, b),
        ),
    decreases b - a,
{
    let pre = s.subrange(0, a);
    lemma_split_lines_nonempty(pre);
    if a > 0 {
        assert(pre.drop_last() == s.subrange(0, a - 1));
        assert(pre.last() == '\n');
    } else {
        assert(pre.len() == 0);
    }
    let x = spec_split_lines(pre);
    if b == a {
        assert(s.subrange(a, b).len() == 0);
        assert(x.drop_last() + seq![Seq::<char>::empty()] =~= x);
    } else {
        lemma_split_at_line_start(s, a, b - 1);
        let t = s.subrange(0, b);
        let u = s.subrange(a, b);
        assert(t.drop_last() == s.subrange(0, b - 1));
        assert(u.drop_last() == s.subrange(a, b - 1));
        assert(t.last() == s[b - 1]);
        assert(u.last() == s[b - 1]);
        let p = x.drop_last();
        let q = spec_split_lines(s.subrange(a, b - 1));
        lemma_split_lines_nonempty(s.subrange(a, b - 1));
        if s[b - 1] == '\n' {
            assert((p + q).push(Seq::<char>::empty()) =~= p + q.push(Seq::<char>::empty()));
        } else {
            let pq = p + q;
            assert(pq.last() == q.last());
            assert(pq.update(pq.len() - 1, pq.last().push(s[b - 1])) =~= p + q.update(
                q.len() - 1,
                q.last().push(s[b - 1]),
            ));
        }
    }
}

proof fn lemma_max_columns_append(a: Seq<Seq<char>>, b: Seq<Seq<char>>, tab: nat)
    ensures
        spec_max_columns(a + b, tab) >= spec_max_columns(b, tab),
    decreases b.len(),
{
    if b.len() > 0 {
        lemma_max_columns_append(a, b.drop_last(), tab);
        assert((a + b).drop_last() == a + b.drop_last());
        assert((a + b).last() == b.last());
    }
}

proof fn lemma_columns_push(line: Seq<char>, c: char, tab: nat)
    ensures
        spec_columns(line.push(c), tab) >= spec_columns(line, tab),
{
    assert(line.push(c).drop_last() == line);
    let col = spec_columns(line, tab);
    if tab >= 1 {
        assert(col % tab < tab) by (nonlinear_arith)
            requires
                tab >= 1,
        ;
    }
}

proof fn lemma_longest_prefix(s: Seq<char>, b: int, tab: nat)
    requires
        0 <= b <= s.len(),
    ensures
        spec_longest_line(s.subrange(0, b), tab) <= spec_longest_line(s, tab),
    decreases s.len() - b,
{
    if b < s.len() {
        lemma_longest_prefix(s, b + 1, tab);
        let t = s.subrange(0, b + 1);
        let x = spec_split_lines(s.subrange(0, b));
        lemma_split_lines_nonempty(s.subrange(0, b));
        assert(t.drop_last() == s.subrange(0, b));
        assert(t.last() == s[b]);
        if s[b] == '\n' {
            assert(x.push(Seq::<char>::empty()).drop_last() == x);
        } else {
            let y = x.update(x.len() - 1, x.last().push(s[b]));
            assert(y.drop_last() == x.drop_last());
            assert(x == x.drop_last().push(x.last()));
            lemma_columns_push(x.last(), s[b], tab);
        }
    } else {
        assert(s.subrange(0, b) == s);
    }
}

/// No part of a text that starts at a line start is wider than the text's
/// widest line.
pub proof fn lemma_segment_within_longest(s: Seq<char>, a: int, b: int, tab: nat)
    requires
        0 <= a <= b <= s.len(),
        a == 0 || s[a - 1] == '\n',
    ensures
        spec_longest_line(s.subrange(a, b), tab) <= spec_longest_line(s, tab),
{
    lemma_split_at_line_start(s, a, b);
    lemma_max_columns_append(spec_split_lines(s.subrange(0, a)).drop_last(), spec_split_lines(s.subrange(a, b)), tab);
    lemma_longest_prefix(s, b, tab);
}

/// The text from the start of the line holding `start` up to `end` is no
/// wider than the whole text.
pub proof fn lemma_line_segment_within_longest(s: Seq<char>, start: int, end: int, tab: nat)
    requires
        0 <= start <= end <= s.len(),
    ensures
        spec_longest_line(s.subrange(spec_line_start(s, start), end), tab) <= spec_longest_line(s, tab),
{
    lemma_line_start_bounds(s, start);
    lemma_line_start_at_line_start(s, start);
    lemma_segment_within_longest(s, spec_line_start(s, start), end, tab);
}

/// Offset of the first byte of the line holding byte `pos` of `bytes`.
pub open spec fn spec_byte_line_start(bytes: Seq<u8>, pos: int) -> int
    decreases pos,
{
    if pos <= 0 {
        0
    } else if bytes[pos - 1] == 10 {
        pos
    } else {
        spec_byte_line_start(bytes, pos - 1)
    }
}

/// Offset of the newline byte that ends the line holding byte `pos`, or the
/// length of `bytes`.
pub open spec fn spec_byte_line_end(bytes: Seq<u8>, pos: int) -> int
    decreases bytes.len() - pos,
{
    if pos >= bytes.len() {
        bytes.len() as int
    } else if bytes[pos] == 10 {
        pos
    } else {
        spec_byte_line_end(bytes, pos + 1)
    }
}

/// Byte offset of the start of the line containing byte `byte` of `source`.
pub fn line_start(source: &str, byte: usize) -> (r: usize)
    requires
        byte <= source.spec_bytes().len(),
    ensures
        r as int == spec_byte_line_start(source.spec_bytes(), byte as int),
{
    let bytes = source.as_bytes();
    let mut i = byte;
    while i > 0
        invariant
            bytes@ == source.spec_bytes(),
            i <= byte <= bytes@.len(),
            spec_byte_line_start(bytes@, i as int) == spec_byte_line_start(bytes@, byte as int),
        decreases i,
    {
        if bytes[i - 1] == 10 {
            return i;
        }
        i -= 1;
    }
    0
}

/// Byte offset of the end of the line containing byte `byte` of `source`
/// (its newline, or the end of the source).
pub fn line_end(source: &str, byte: usize) -> (r: usize)
    requires
        byte <= source.spec_bytes().len(),
    ensures
        r as int == spec_byte_line_end(source.spec_bytes(), byte as int),
{
    let bytes = source.as_bytes();
    let mut i = byte;
    while i < bytes.len()
        invariant
            bytes@ == source.spec_bytes(),
            byte <= i <= bytes@.len(),
            spec_byte_line_end(bytes@, i as int) == spec_byte_line_end(bytes@, byte as int),
        decreases bytes@.len() - i,
    {
        if bytes[i] == 10 {
            return i;
        }
        i += 1;
    }
    bytes.len()
}

/// Character offset of byte `byte` of `source`, with the bound it obeys.
fn char_pos_of(source: &str, byte: usize) -> (r: usize)
    requires
        byte <= source.spec_bytes().len(),
    ensures
        r == utf8_char_starts(source.spec_bytes().take(byte as int)),
        r <= source@.len(),
{
    let bytes = source.as_bytes();
    let offs = char_offsets(bytes);
    proof {
        lemma_char_starts_encode(source@);
        lemma_char_starts_take(bytes@, byte as int);
    }
    offs[byte]
}

/// Indentation (the spaces and tabs that begin it) of the line containing
/// byte `byte` of `source`.
pub fn indent_of_line(source: &str, byte: usize) -> (r: String)
    requires
        byte <= source.spec_bytes().len(),
    ensures
        r@ == spec_indent_of_line(source@, utf8_char_starts(source.spec_bytes().take(byte as int)) as int),
{
    let pos = char_pos_of(source, byte);
    let src = str_chars(source);
    let ind = indent_of_line_chars(src.as_slice(), pos);
    chars_to_string(ind.as_slice())
}

/// Visible column of byte `byte` within its line: the display width of the
/// characters before it on that line, tabs expanding to `tab_width` columns.
pub fn visible_column(source: &str, byte: usize, tab_width: usize) -> (r: usize)
    requires
        byte <= source.spec_bytes().len(),
        ({
            let p = utf8_char_starts(source.spec_bytes().take(byte as int)) as int;
            spec_columns(source@.subrange(spec_line_start(source@, p), p), tab_width as nat) <= usize::MAX
        }),
    ensures
        ({
            let p = utf8_char_starts(source.spec_bytes().take(byte as int)) as int;
            r == spec_columns(source@.subrange(spec_line_start(source@, p), p), tab_width as nat)
        }),
{
    let pos = char_pos_of(source, byte);
    let src = str_chars(source);
    visible_column_chars(src.as_slice(), pos, tab_width)
}

/// Display width of the widest line of `text`, tabs expanding to
/// `tab_width` columns.
pub fn longest_line(text: &str, tab_width: usize) -> (r: usize)
    requires
        spec_longest_line(text@, tab_width as nat) <= usize::MAX,
    ensures
        r == spec_longest_line(text@, tab_width as nat),
{
    let t = str_chars(text);
    longest_line_chars(t.as_slice(), tab_width)
}

/// True when some line touching bytes `start..end` of `source` (counted
/// from the beginning of the line holding `start`) is wider than `limit`
/// columns.
pub fn any_line_over(source: &str, start: usize, end: usize, limit: usize, tab_width: usize) -> (r: bool)
    requires
        start <= end <= source.spec_bytes().len(),
        ({
            let a = utf8_char_starts(source.spec_bytes().take(start as int)) as int;
            let b = utf8_char_starts(source.spec_bytes().take(end as int)) as int;
            spec_longest_line(source@.subrange(spec_line_start(source@, a), b), tab_width as nat) <= usize::MAX
        }),
    ensures
        ({
            let a = utf8_char_starts(source.spec_bytes().take(start as int)) as int;
            let b = utf8_char_starts(source.spec_bytes().take(end as int)) as int;
            r == (spec_longest_line(source@.subrange(spec_line_start(source@, a), b), tab_width as nat) > limit)
        }),
{
    let a = char_pos_of(source, start);
    let b = char_pos_of(source, end);
    proof {
        let bytes = source.spec_bytes();
        lemma_char_starts_append(bytes.take(start as int), bytes.take(end as int).skip(start as int));
        assert(bytes.take(start as int) + bytes.take(end as int).skip(start as int) == bytes.take(end as int));
    }
    let src = str_chars(source);
    let from = line_start_chars(src.as_slice(), a);
    proof {
        lemma_line_start_bounds(src@, a as int);
    }
    let segment = slice_to_vec(src.as_slice(), from, b);
    longest_line_chars(segment.as_slice(), tab_width) > limit
}

} // verus!

