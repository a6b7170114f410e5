//! Buffered text replacements applied to a source text.
//!
//! Each edit replaces the bytes `start..end` of the source (`apply`), or the
//! characters `start..end` of a source held as characters (`apply_chars`). Edits are
//! applied in order of their start offset; among edits that start together,
//! insertions come first and then the broader edit before the narrower. An
//! edit that begins before the end of an earlier kept edit is dropped, so of
//! two overlapping edits the earlier, broader one is kept, and an edit that
//! overlaps nothing is never dropped.

use vstd::prelude::*;
use vstd::string::StringSliceAdditionalSpecFns;
use crate::pyutil::{str_chars, slice_to_vec, push_all, chars_to_string, char_offsets, utf8_char_starts};
use crate::pyutil::{lemma_char_starts_encode, lemma_char_starts_take, at_char_boundary, lemma_char_starts_le_len};
use crate::pyutil::{lemma_boundary_order, lemma_boundary_segment, lemma_boundary_zero, lemma_encode_append};
use vstd::utf8::encode_utf8;

verus! {

/// An edit as the contracts see it: start, end and replacement text.
pub type EditView = (usize, usize, Seq<char>);

/// Replace the characters `start..end` of the source with `replacement`.
pub struct Edit {
    pub start: usize,
    pub end: usize,
    pub replacement: String,
}

impl View for Edit {
    type V = EditView;

    open spec fn view(&self) -> EditView {
        (self.start, self.end, self.replacement@)
    }
}

/// A set of pending edits, in the order they were pushed.
pub struct EditSet {
    edits: Vec<Edit>,
}

impl View for EditSet {
    type V = Seq<EditView>;

    closed spec fn view(&self) -> Seq<EditView> {
        self.edits@.map_values(|e: Edit| e@)
    }
}

/// `a` comes no later than `b` when ordering by start; among edits with the
/// same start, insertions (empty ranges) come first, then the others by end,
/// the larger end first, so an edit comes before the edits it covers.
pub open spec fn key_le(a: EditView, b: EditView) -> bool {
    a.0 < b.0 || (a.0 == b.0 && (a.0 == a.1 || (b.0 != b.1 && a.1 >= b.1)))
}

/// Insert `e` into the `(start, end)`-ordered `s` after every edit whose key is
/// not larger (so edits with equal keys keep their push order).
pub open spec fn insert_sorted(s: Seq<EditView>, e: EditView) -> Seq<EditView>
    decreases s.len(),
{
    if s.len() == 0 || key_le(s.last(), e) {
        s.push(e)
    } else {
        insert_sorted(s.drop_last(), e).push(s.last())
    }
}

/// Stable sort of `s` by `key_le`.
pub open spec fn sort_edits(s: Seq<EditView>) -> Seq<EditView>
    decreases s.len(),
{
    if s.len() == 0 {
        s
    } else {
        insert_sorted(sort_edits(s.drop_last()), s.last())
    }
}

/// Walk the sorted edits and keep each one that starts at or after the end
/// of the last kept one.
pub open spec fn drop_overlaps(s: Seq<EditView>) -> Seq<EditView>
    decreases s.len(),
{
    if s.len() == 0 {
        s
    } else {
        let kept = drop_overlaps(s.drop_last());
        if kept.len() > 0 && kept.last().1 > s.last().0 {
            kept
        } else {
            kept.push(s.last())
        }
    }
}

/// The edits that `apply` carries out, in the order it carries them out.
pub open spec fn effective_edits(s: Seq<EditView>) -> Seq<EditView> {
    drop_overlaps(sort_edits(s))
}

/// Copy `src` from `cursor`, substituting each edit of `edits` in turn.
pub open spec fn splice(src: Seq<char>, edits: Seq<EditView>, cursor: int) -> Seq<char>
    decreases edits.len(),
{
    if edits.len() == 0 {
        src.subrange(cursor, src.len() as int)
    } else {
        src.subrange(cursor, edits[0].0 as int) + edits[0].2 + splice(
            src,
            edits.drop_first(),
            edits[0].1 as int,
        )
    }
}

/// What `apply` produces from `src` and the pushed edits `s`.
pub open spec fn spec_apply(src: Seq<char>, s: Seq<EditView>) -> Seq<char> {
    splice(src, effective_edits(s), 0)
}

/// Character offset of byte offset `b` of `bytes`: the number of characters
/// that begin before it.
pub open spec fn char_pos(bytes: Seq<u8>, b: usize) -> usize {
    utf8_char_starts(bytes.take(b as int)) as usize
}

/// The edit `e`, its byte offsets into `bytes` turned into character
/// offsets.
pub open spec fn edit_in_chars(bytes: Seq<u8>, e: EditView) -> EditView {
    (char_pos(bytes, e.0), char_pos(bytes, e.1), e.2)
}

/// The edits `s`, their byte offsets into `bytes` turned into character
/// offsets.
pub open spec fn edits_in_chars(bytes: Seq<u8>, s: Seq<EditView>) -> Seq<EditView> {
    s.map_values(|e: EditView| edit_in_chars(bytes, e))
}

/// Every edit's offsets lie within a text of length `n`.
pub open spec fn edits_within(s: Seq<EditView>, n: nat) -> bool {
    forall|i: int| 0 <= i < s.len() ==> #[trigger] s[i].0 <= n && s[i].1 <= n
}

/// `s` is ordered by `key_le`.
pub open spec fn sorted_by_key(s: Seq<EditView>) -> bool {
    forall|i: int, j: int| 0 <= i < j < s.len() ==> key_le(#[trigger] s[i], #[trigger] s[j])
}

/// Each edit of `s` starts at or after the end of the one before it.
pub open spec fn chained(s: Seq<EditView>) -> bool {
    forall|i: int| 0 <= i < s.len() - 1 ==> #[trigger] s[i].1 <= s[i + 1].0
}

proof fn lemma_insert_sorted_at(m: Seq<EditView>, e: EditView, p: int)
    requires
        0 <= p <= m.len(),
        forall|j: int| p <= j < m.len() ==> !key_le(#[trigger] m[j], e),
        p == 0 || key_le(m[p - 1], e),
    ensures
        insert_sorted(m, e) == m.insert(p, e),
    decreases m.len(),
{
    if p == m.len() {
        assert(m.push(e) =~= m.insert(p, e));
    } else {
        assert(!key_le(m.last(), e));
        let d = m.drop_last();
        lemma_insert_sorted_at(d, e, p);
        assert(d.insert(p, e).push(m.last()) =~= m.insert(p, e));
    }
}

proof fn lemma_insert_sorted_props(m: Seq<EditView>, e: EditView, n: nat)
    requires
        sorted_by_key(m),
    ensures
        sorted_by_key(insert_sorted(m, e)),
        insert_sorted(m, e).to_multiset() == m.to_multiset().insert(e),
        insert_sorted(m, e).len() == m.len() + 1,
        edits_within(m, n) && e.0 <= n && e.1 <= n ==> edits_within(insert_sorted(m, e), n),
    decreases m.len(),
{
    broadcast use vstd::seq_lib::group_to_multiset_ensures;
    if m.len() == 0 || key_le(m.last(), e) {
        let r = m.push(e);
        assert forall|i: int, j: int| 0 <= i < j < r.len() implies key_le(#[trigger] r[i], #[trigger] r[j]) by {
            if j == r.len() - 1 && i < m.len() - 1 {
                assert(key_le(m[i], m.last()));
            }
        }
    } else {
        let d = m.drop_last();
        assert forall|i: int, j: int| 0 <= i < j < d.len() implies key_le(#[trigger] d[i], #[trigger] d[j]) by {
            assert(key_le(m[i], m[j]));
        }
        lemma_insert_sorted_props(d, e, n);
        let t = insert_sorted(d, e);
        let r = t.push(m.last());
        assert(m == d.push(m.last()));
        assert forall|i: int| 0 <= i < t.len() implies key_le(#[trigger] t[i], m.last()) by {
            assert(t.to_multiset().count(t[i]) > 0);
            assert(t.to_multiset().contains(t[i]));
            if t[i] == e {
            } else {
                assert(d.to_multiset().contains(t[i]));
                let k = choose|k: int| 0 <= k < d.len() && d[k] == t[i];
                assert(key_le(m[k], m[m.len() - 1]));
            }
        }
        assert forall|i: int, j: int| 0 <= i < j < r.len() implies key_le(#[trigger] r[i], #[trigger] r[j]) by {
            if j == r.len() - 1 {
                assert(key_le(t[i], m.last()));
            } else {
                assert(r[i] == t[i] && r[j] == t[j]);
            }
        }
        if edits_within(m, n) && e.0 <= n && e.1 <= n {
            assert forall|i: int| 0 <= i < r.len() implies #[trigger] r[i].0 <= n && r[i].1 <= n by {
                if i < t.len() {
                    assert(r[i] == t[i]);
                    assert(edits_within(d, n));
                }
            }
        }
    }
}

/// Sorting keeps exactly the pushed edits and orders them by `key_le`.
pub proof fn law_sort_edits(s: Seq<EditView>, n: nat)
    ensures
        sorted_by_key(sort_edits(s)),
        sort_edits(s).to_multiset() == s.to_multiset(),
        sort_edits(s).len() == s.len(),
        edits_within(s, n) ==> edits_within(sort_edits(s), n),
    decreases s.len(),
{
    broadcast use vstd::seq_lib::group_to_multiset_ensures;
    if s.len() > 0 {
        let d = s.drop_last();
        law_sort_edits(d, n);
        lemma_insert_sorted_props(sort_edits(d), s.last(), n);
        assert(s == d.push(s.last()));
        if edits_within(s, n) {
            assert(edits_within(d, n));
        }
    }
}

/// The kept edits form a chain, and each is one of the sorted edits.
pub proof fn lemma_drop_overlaps(s: Seq<EditView>, n: nat)
    ensures
        chained(drop_overlaps(s)),
        drop_overlaps(s).len() <= s.len(),
        edits_within(s, n) ==> edits_within(drop_overlaps(s), n),
        forall|i: int| 0 <= i < drop_overlaps(s).len() ==> s.contains(#[trigger] drop_overlaps(s)[i]),
    decreases s.len(),
{
    if s.len() > 0 {
        let d = s.drop_last();
        lemma_drop_overlaps(d, n);
        let kept = drop_overlaps(d);
        let r = drop_overlaps(s);
        assert forall|i: int| 0 <= i < r.len() implies s.contains(#[trigger] r[i]) by {
            if i < kept.len() {
                assert(r[i] == kept[i]);
                assert(d.contains(kept[i]));
                let k = choose|k: int| 0 <= k < d.len() && d[k] == kept[i];
                assert(s[k] == d[k]);
            } else {
                assert(s[s.len() - 1] == r[i]);
            }
        }
        if edits_within(s, n) {
            assert(edits_within(d, n));
        }
    }
}

/// Applying a chained, in-range list of edits never reads outside `src`.
proof fn lemma_splice_step(src: Seq<char>, edits: Seq<EditView>, i: int)
    requires
        0 <= i < edits.len(),
    ensures
        splice(src, edits.skip(i), if i == 0 { 0 } else { edits[i - 1].1 as int }) == src.subrange(
            if i == 0 { 0 } else { edits[i - 1].1 as int },
            edits[i].0 as int,
        ) + edits[i].2 + splice(src, edits.skip(i + 1), edits[i].1 as int),
{
    assert(edits.skip(i).drop_first() == edits.skip(i + 1));
    assert(edits.skip(i)[0] == edits[i]);
}

impl EditSet {
    /// An empty set of edits.
    pub fn new() -> (r: Self)
        ensures
            r@ == Seq::<EditView>::empty(),
    {
        let r = EditSet { edits: Vec::new() };
        assert(r@ =~= Seq::<EditView>::empty());
        r
    }

    /// Record an edit replacing `start..end` with `replacement`.
    pub fn push(&mut self, start: usize, end: usize, replacement: String)
        ensures
            final(self)@ == old(self)@.push((start, end, replacement@)),
    {
        let e = Edit { start, end, replacement };
        self.edits.push(e);
        assert(self@ =~= old(self)@.push((start, end, e.replacement@)));
    }

    /// Indices of the edits in stable `key_le` order.
    fn sorted_order(&self) -> (ord: Vec<usize>)
        ensures
            ord@.len() == self@.len(),
            forall|j: int| 0 <= j < ord@.len() ==> #[trigger] ord@[j] < self@.len(),
            ord@.map_values(|k: usize| self@[k as int]) == sort_edits(self@),
    {
        let ghost v = self@;
        let n = self.edits.len();
        let mut ord: Vec<usize> = Vec::new();
        let mut i: usize = 0;
        while i < n
            invariant
                n == self.edits@.len(),
                v == self@,
                v.len() == n,
                i <= n,
                ord@.len() == i,
                forall|j: int| 0 <= j < ord@.len() ==> #[trigger] ord@[j] < i,
                ord@.map_values(|k: usize| v[k as int]) == sort_edits(v.take(i as int)),
            decreases n - i,
        {
            let ghost m = ord@.map_values(|k: usize| v[k as int]);
            let s = self.edits[i].start;
            let en = self.edits[i].end;
            proof {
                assert(v[i as int] == self.edits@[i as int]@);
            }
            let mut p = ord.len();
            while p > 0 && (self.edits[ord[p - 1]].start > s || (self.edits[ord[p - 1]].start == s
                && self.edits[ord[p - 1]].end != s && (en == s || self.edits[ord[p - 1]].end < en)))
                invariant
                    n == self.edits@.len(),
                    v == self@,
                    v.len() == n,
                    i < n,
                    s == v[i as int].0,
                    en == v[i as int].1,
                    p <= ord@.len(),
                    m == ord@.map_values(|k: usize| v[k as int]),
                    forall|j: int| 0 <= j < ord@.len() ==> #[trigger] ord@[j] < i,
                    forall|j: int| p <= j < m.len() ==> !key_le(#[trigger] m[j], v[i as int]),
                decreases p,
            {
                proof {
                    let k = ord@[p - 1];
                    assert(v[k as int] == self.edits@[k as int]@);
                    assert(m[p - 1] == v[k as int]);
                }
                p -= 1;
            }
            proof {
                if p > 0 {
                    let k = ord@[p - 1];
                    assert(v[k as int] == self.edits@[k as int]@);
                    assert(m[p - 1] == v[k as int]);
                }
                lemma_insert_sorted_at(m, v[i as int], p as int);
                assert(v.take(i + 1).drop_last() == v.take(i as int));
                assert(v.take(i + 1).last() == v[i as int]);
            }
            ord.insert(p, i);
            proof {
                assert(ord@.map_values(|k: usize| v[k as int]) =~= m.insert(p as int, v[i as int]));
            }
            i += 1;
        }
        assert(v.take(n as int) == v);
        ord
    }

    /// Indices of the edits that will be carried out, in order.
    fn kept_order(&self) -> (kept: Vec<usize>)
        ensures
            forall|j: int| 0 <= j < kept@.len() ==> #[trigger] kept@[j] < self@.len(),
            kept@.map_values(|k: usize| self@[k as int]) == effective_edits(self@),
    {
        let ghost v = self@;
        let ord = self.sorted_order();
        let ghost sorted = sort_edits(v);
        let mut kept: Vec<usize> = Vec::new();
        let mut i: usize = 0;
        while i < ord.len()
            invariant
                v == self@,
                ord@.len() == v.len(),
                self.edits@.len() == v.len(),
                forall|j: int| 0 <= j < ord@.len() ==> #[trigger] ord@[j] < v.len(),
                ord@.map_values(|k: usize| v[k as int]) == sorted,
                i <= ord@.len(),
                forall|j: int| 0 <= j < kept@.len() ==> #[trigger] kept@[j] < v.len(),
                kept@.map_values(|k: usize| v[k as int]) == drop_overlaps(sorted.take(i as int)),
            decreases ord@.len() - i,
        {
            let k = ord[i];
            let ghost before = kept@.map_values(|k: usize| v[k as int]);
            proof {
                assert(sorted.take(i + 1).drop_last() == sorted.take(i as int));
                assert(sorted.take(i + 1).last() == sorted[i as int]);
                assert(sorted[i as int] == v[k as int]);
                assert(v[k as int] == self.edits@[k as int]@);
            }
            let overlaps = if kept.len() > 0 {
                let last = kept[kept.len() - 1];
                proof {
                    assert(before.last() == v[last as int]);
                    assert(v[last as int] == self.edits@[last as int]@);
                }
                self.edits[last].end > self.edits[k].start
            } else {
                false
            };
            if !overlaps {
                kept.push(k);
                proof {
                    assert(kept@.map_values(|k: usize| v[k as int]) =~= before.push(v[k as int]));
                }
            }
            i += 1;
        }
        assert(sorted.take(ord@.len() as int) == sorted);
        kept
    }

    /// Carry out the edits on `source` (characters), as `apply` does.
    pub fn apply_chars(&self, source: &[char]) -> (r: Vec<char>)
        requires
            edits_within(self@, source@.len()),
        ensures
            r@ == spec_apply(source@, self@),
    {
        let ghost v = self@;
        let ghost eff = effective_edits(v);
        let kept = self.kept_order();
        proof {
            law_sort_edits(v, source@.len());
            lemma_drop_overlaps(sort_edits(v), source@.len());
            assert(eff == kept@.map_values(|k: usize| v[k as int]));
        }
        let mut out: Vec<char> = Vec::new();
        let mut cursor: usize = 0;
        let mut i: usize = 0;
        assert(eff.skip(0) == eff);
        assert(out@ + splice(source@, eff.skip(0), 0) == splice(source@, eff, 0));
        while i < kept.len()
            invariant
                v == self@,
                self.edits@.len() == v.len(),
                eff == effective_edits(v),
                eff == kept@.map_values(|k: usize| v[k as int]),
                forall|j: int| 0 <= j < kept@.len() ==> #[trigger] kept@[j] < v.len(),
                chained(eff),
                edits_within(eff, source@.len()),
                i <= kept@.len(),
                cursor <= source@.len(),
                i == 0 ==> cursor == 0,
                i > 0 ==> cursor == eff[i - 1].1,
                spec_apply(source@, v) == out@ + splice(source@, eff.skip(i as int), cursor as int),
            decreases kept@.len() - i,
        {
            let k = kept[i];
            proof {
                assert(eff[i as int] == v[k as int]);
                assert(v[k as int] == self.edits@[k as int]@);
                assert(eff[i as int].0 <= source@.len() && eff[i as int].1 <= source@.len());
                if i > 0 {
                    assert(eff[i - 1].1 <= eff[i as int].0);
                }
                lemma_splice_step(source@, eff, i as int);
            }
            let e = &self.edits[k];
            let piece = slice_to_vec(source, cursor, e.start);
            push_all(&mut out, piece.as_slice());
            let rep = str_chars(e.replacement.as_str());
            push_all(&mut out, rep.as_slice());
            cursor = e.end;
            i += 1;
        }
        proof {
            assert(eff.skip(i as int).len() == 0);
        }
        let tail = slice_to_vec(source, cursor, source.len());
        push_all(&mut out, tail.as_slice());
        out
    }

    /// Carry out the edits on `source`, their offsets counted in bytes:
    /// edits sorted by `key_le` (ties in push order), each one dropped when it
    /// starts before the end of the last kept one, the rest spliced in.
    pub fn apply(self, source: &str) -> (r: String)
        requires
            edits_within(self@, source.spec_bytes().len()),
        ensures
            r@ == spec_apply(source@, edits_in_chars(source.spec_bytes(), self@)),
            edits_on_boundaries(source.spec_bytes(), self@) ==> encode_utf8(r@) == splice_bytes(
                source.spec_bytes(),
                effective_edits(self@),
                0,
            ),
    {
        proof {
            if edits_on_boundaries(source.spec_bytes(), self@) {
                law_apply_splices_bytes(source@, self@);
            }
        }
        let bytes = source.as_bytes();
        let offs = char_offsets(bytes);
        let src = str_chars(source);
        let ghost v = self@;
        let ghost conv_all = edits_in_chars(bytes@, v);
        proof {
            lemma_char_starts_encode(source@);
        }
        let mut conv = EditSet::new();
        let mut i: usize = 0;
        while i < self.edits.len()
            invariant
                v == self@,
                self.edits@.len() == v.len(),
                bytes@ == source.spec_bytes(),
                utf8_char_starts(bytes@) == source@.len(),
                offs@.len() == bytes@.len() + 1,
                forall|b: int| 0 <= b <= bytes@.len() ==> #[trigger] offs@[b] == utf8_char_starts(bytes@.take(b)),
                edits_within(v, bytes@.len()),
                conv_all == edits_in_chars(bytes@, v),
                i <= v.len(),
                conv@ == conv_all.take(i as int),
                edits_within(conv@, source@.len()),
            decreases v.len() - i,
        {
            let e = &self.edits[i];
            proof {
                assert(v[i as int] == self.edits@[i as int]@);
                assert(edits_within(v, bytes@.len()));
                let ev = v[i as int];
                assert(ev.0 <= bytes@.len());
                assert(ev.1 <= bytes@.len());
                lemma_char_starts_take(bytes@, e.start as int);
                lemma_char_starts_take(bytes@, e.end as int);
            }
            let cs = offs[e.start];
            let ce = offs[e.end];
            let rep = e.replacement.clone();
            let ghost before = conv@;
            assert(edits_within(before, source@.len()));
            conv.push(cs, ce, rep);
            proof {
                assert(conv_all.take(i + 1) =~= conv_all.take(i as int).push(conv_all[i as int]));
                assert(conv_all[i as int] == (cs, ce, rep@));
                assert(cs == utf8_char_starts(bytes@.take(e.start as int)));
                assert(ce == utf8_char_starts(bytes@.take(e.end as int)));
                assert forall|k: int| 0 <= k < conv@.len() implies #[trigger] conv@[k].0 <= source@.len()
                    && conv@[k].1 <= source@.len() by {
                    if k < before.len() {
                        assert(conv@[k] == before[k]);
                        assert(before[k].0 <= source@.len() && before[k].1 <= source@.len());
                    } else {
                        assert(conv@[k] == (cs, ce, rep@));
                    }
                }
            }
            i += 1;
        }
        assert(conv_all.take(v.len() as int) =~= conv_all);
        let out = conv.apply_chars(src.as_slice());
        chars_to_string(out.as_slice())
    }
}


/// With no edits, `apply` gives back the source unchanged.
pub proof fn law_apply_without_edits(src: Seq<char>)
    ensures
        spec_apply(src, Seq::empty()) == src,
{
    assert(src.subrange(0, src.len() as int) == src);
}

proof fn lemma_single(e: EditView)
    ensures
        sort_edits(seq![e]) == seq![e],
        drop_overlaps(seq![e]) == seq![e],
{
    let s = seq![e];
    let d = s.drop_last();
    assert(d =~= Seq::<EditView>::empty());
    assert(sort_edits(d) == d);
    assert(drop_overlaps(d) == d);
    assert(s.last() == e);
    assert(insert_sorted(d, e) == d.push(e));
    assert(d.push(e) =~= s);
}

proof fn lemma_insert_sorted_members(m: Seq<EditView>, e: EditView)
    ensures
        forall|i: int|
            0 <= i < insert_sorted(m, e).len() ==> #[trigger] insert_sorted(m, e)[i] == e || m.contains(
                insert_sorted(m, e)[i],
            ),
    decreases m.len(),
{
    if m.len() == 0 || key_le(m.last(), e) {
        let r = m.push(e);
        assert forall|i: int| 0 <= i < r.len() implies #[trigger] r[i] == e || m.contains(r[i]) by {
            if i < m.len() {
                assert(r[i] == m[i]);
            }
        }
    } else {
        let d = m.drop_last();
        lemma_insert_sorted_members(d, e);
        let t = insert_sorted(d, e);
        let r = t.push(m.last());
        assert forall|i: int| 0 <= i < r.len() implies #[trigger] r[i] == e || m.contains(r[i]) by {
            if i < t.len() {
                assert(r[i] == t[i]);
                if t[i] != e {
                    let k = choose|k: int| 0 <= k < d.len() && d[k] == t[i];
                    assert(m[k] == d[k]);
                }
            } else {
                assert(m[m.len() - 1] == r[i]);
            }
        }
    }
}

proof fn lemma_sort_members(s: Seq<EditView>)
    ensures
        forall|i: int| 0 <= i < sort_edits(s).len() ==> s.contains(#[trigger] sort_edits(s)[i]),
    decreases s.len(),
{
    if s.len() > 0 {
        let d = s.drop_last();
        lemma_sort_members(d);
        lemma_insert_sorted_members(sort_edits(d), s.last());
        let r = sort_edits(s);
        assert forall|i: int| 0 <= i < r.len() implies s.contains(#[trigger] r[i]) by {
            if r[i] == s.last() {
                assert(s[s.len() - 1] == r[i]);
            } else {
                assert(sort_edits(d).contains(r[i]));
                let k = choose|k: int| 0 <= k < sort_edits(d).len() && sort_edits(d)[k] == r[i];
                assert(d.contains(sort_edits(d)[k]));
                let m = choose|m: int| 0 <= m < d.len() && d[m] == r[i];
                assert(s[m] == d[m]);
            }
        }
    }
}

/// A single edit inside the source replaces exactly its range.
pub proof fn law_apply_single_edit(src: Seq<char>, e: EditView)
    requires
        e.0 <= e.1 <= src.len(),
    ensures
        spec_apply(src, seq![e]) == src.subrange(0, e.0 as int) + e.2 + src.subrange(e.1 as int, src.len() as int),
{
    lemma_single(e);
    assert(effective_edits(seq![e]) == seq![e]);
    assert(seq![e].drop_first() =~= Seq::<EditView>::empty());
    assert(seq![e][0] == e);
    assert(splice(src, Seq::<EditView>::empty(), e.1 as int) == src.subrange(e.1 as int, src.len() as int));
    assert(splice(src, seq![e], 0) == src.subrange(0, e.0 as int) + e.2 + splice(
        src,
        Seq::<EditView>::empty(),
        e.1 as int,
    ));
}

/// The edits `apply` carries out are among those pushed, and never
/// overlap: each starts at or after the end of the one before it.
pub proof fn law_effective_edits(s: Seq<EditView>, n: nat)
    ensures
        chained(effective_edits(s)),
        forall|i: int| 0 <= i < effective_edits(s).len() ==> s.contains(#[trigger] effective_edits(s)[i]),
        edits_within(s, n) ==> edits_within(effective_edits(s), n),
{
    law_sort_edits(s, n);
    lemma_drop_overlaps(sort_edits(s), n);
    lemma_sort_members(s);
    let sorted = sort_edits(s);
    let eff = effective_edits(s);
    assert forall|i: int| 0 <= i < eff.len() implies s.contains(#[trigger] eff[i]) by {
        assert(sorted.contains(eff[i]));
        let k = choose|k: int| 0 <= k < sorted.len() && sorted[k] == eff[i];
        assert(s.contains(sorted[k]));
    }
}

/// Two edits that do not overlap give the same result whichever is pushed
/// first.
pub proof fn law_disjoint_edits_commute(src: Seq<char>, a: EditView, b: EditView)
    requires
        a.0 < b.0,
        a.1 <= b.0,
    ensures
        spec_apply(src, seq![a, b]) == spec_apply(src, seq![b, a]),
{
    assert(seq![a, b].drop_last() == seq![a]);
    assert(seq![b, a].drop_last() == seq![b]);
    lemma_single(a);
    lemma_single(b);
    assert(insert_sorted(seq![a], b) == seq![a].push(b));
    assert(seq![b].drop_last() =~= Seq::<EditView>::empty());
    assert(seq![b].last() == b);
    assert(!key_le(b, a));
    assert(insert_sorted(seq![b], a) == insert_sorted(Seq::<EditView>::empty(), a).push(b));
    assert(seq![a].push(b) =~= seq![a, b]);
    assert(Seq::<EditView>::empty().push(a).push(b) =~= seq![a, b]);
}

/// Of two overlapping edits, the one that starts first (of two that start
/// together and replace something, the one that ends later and so covers the
/// other) is carried out and the other dropped, whichever was pushed first.
pub proof fn law_overlap_keeps_first(src: Seq<char>, a: EditView, b: EditView)
    requires
        a.0 < b.0 || (a.0 == b.0 && a.1 > b.1 && b.1 > b.0),
        b.0 < a.1,
    ensures
        spec_apply(src, seq![a, b]) == spec_apply(src, seq![a]),
        spec_apply(src, seq![b, a]) == spec_apply(src, seq![a]),
{
    assert(seq![a, b].drop_last() == seq![a]);
    assert(seq![b, a].drop_last() == seq![b]);
    lemma_single(a);
    lemma_single(b);
    assert(insert_sorted(seq![a], b) == seq![a].push(b));
    assert(seq![b].drop_last() =~= Seq::<EditView>::empty());
    assert(seq![b].last() == b);
    assert(!key_le(b, a));
    assert(insert_sorted(seq![b], a) == insert_sorted(Seq::<EditView>::empty(), a).push(b));
    let ab = seq![a].push(b);
    assert(Seq::<EditView>::empty().push(a).push(b) =~= ab);
    assert(ab.drop_last() == seq![a]);
    assert(drop_overlaps(ab) == seq![a]);
}

/// An insertion at the start of an edit overlaps nothing: both are carried
/// out, the inserted text first, whichever was pushed first.
pub proof fn law_insertion_before_edit_kept(src: Seq<char>, a: EditView, b: EditView)
    requires
        a.0 == a.1,
        a.1 == b.0,
        b.0 < b.1 <= src.len(),
    ensures
        spec_apply(src, seq![a, b]) == src.subrange(0, a.0 as int) + a.2 + b.2 + src.subrange(
            b.1 as int,
            src.len() as int,
        ),
        spec_apply(src, seq![b, a]) == spec_apply(src, seq![a, b]),
{
    assert(seq![a, b].drop_last() == seq![a]);
    assert(seq![b, a].drop_last() == seq![b]);
    lemma_single(a);
    lemma_single(b);
    assert(key_le(a, b));
    assert(!key_le(b, a));
    assert(insert_sorted(seq![a], b) == seq![a].push(b));
    assert(seq![b].drop_last() =~= Seq::<EditView>::empty());
    assert(seq![b].last() == b);
    assert(insert_sorted(seq![b], a) == insert_sorted(Seq::<EditView>::empty(), a).push(b));
    let ab = seq![a].push(b);
    assert(Seq::<EditView>::empty().push(a).push(b) =~= ab);
    assert(ab.drop_last() == seq![a]);
    assert(drop_overlaps(ab) == seq![a].push(b));
    assert(ab =~= seq![a, b]);
    assert(ab.drop_first() =~= seq![b]);
    assert(seq![b].drop_first() =~= Seq::<EditView>::empty());
    assert(splice(src, Seq::<EditView>::empty(), b.1 as int) == src.subrange(b.1 as int, src.len() as int));
    assert(splice(src, seq![b], a.1 as int) == src.subrange(a.1 as int, b.0 as int) + b.2 + splice(
        src,
        Seq::<EditView>::empty(),
        b.1 as int,
    ));
    assert(src.subrange(a.1 as int, b.0 as int) =~= Seq::<char>::empty());
    assert(splice(src, ab, 0) == src.subrange(0, a.0 as int) + a.2 + splice(src, seq![b], a.1 as int));
}

/// Edits of `m` that start and end at the same offsets are the same edit.
pub open spec fn keys_distinct(m: vstd::multiset::Multiset<EditView>) -> bool {
    forall|x: EditView, y: EditView|
        #![trigger m.contains(x), m.contains(y)]
        m.contains(x) && m.contains(y) && x.0 == y.0 && x.1 == y.1 ==> x == y
}

proof fn lemma_sorted_last_is_max(a: Seq<EditView>, y: EditView)
    requires
        sorted_by_key(a),
        a.len() > 0,
        a.contains(y),
    ensures
        key_le(y, a.last()),
{
    let k = choose|k: int| 0 <= k < a.len() && a[k] == y;
    if k < a.len() - 1 {
        assert(key_le(a[k], a[a.len() - 1]));
    }
}

/// Two sequences sorted by `key_le` that hold the same edits, where edits
/// with the same offsets are equal, are the same sequence.
proof fn lemma_sorted_unique(a: Seq<EditView>, b: Seq<EditView>)
    requires
        sorted_by_key(a),
        sorted_by_key(b),
        a.to_multiset() == b.to_multiset(),
        keys_distinct(a.to_multiset()),
    ensures
        a == b,
    decreases a.len(),
{
    broadcast use vstd::seq_lib::group_to_multiset_ensures;
    assert(a.to_multiset().len() == a.len());
    assert(b.to_multiset().len() == b.len());
    if a.len() == 0 {
        assert(a =~= b);
    } else {
        let x = a.last();
        let y = b.last();
        assert(a.to_multiset().contains(x));
        assert(b.to_multiset().contains(y));
        assert(a.contains(y));
        assert(b.contains(x));
        lemma_sorted_last_is_max(a, y);
        lemma_sorted_last_is_max(b, x);
        assert(x == y);
        let a2 = a.drop_last();
        let b2 = b.drop_last();
        assert(a == a2.push(x));
        assert(b == b2.push(y));
        assert(a2.to_multiset() == a.to_multiset().remove(x));
        assert(b2.to_multiset() == b.to_multiset().remove(y));
        assert forall|i: int, j: int| 0 <= i < j < a2.len() implies key_le(#[trigger] a2[i], #[trigger] a2[j]) by {
            assert(key_le(a[i], a[j]));
        }
        assert forall|i: int, j: int| 0 <= i < j < b2.len() implies key_le(#[trigger] b2[i], #[trigger] b2[j]) by {
            assert(key_le(b[i], b[j]));
        }
        let m2 = a2.to_multiset();
        assert forall|u: EditView, w: EditView|
            #![trigger m2.contains(u), m2.contains(w)]
            m2.contains(u) && m2.contains(w) && u.0 == w.0 && u.1 == w.1 implies u == w by {
            assert(a.to_multiset().contains(u));
            assert(a.to_multiset().contains(w));
        }
        lemma_sorted_unique(a2, b2);
    }
}

/// The result of `apply` does not depend on the order the edits were pushed
/// in, as long as no two different edits have both the same start and the
/// same end.
pub proof fn law_apply_order_independent(src: Seq<char>, s1: Seq<EditView>, s2: Seq<EditView>)
    requires
        s1.to_multiset() == s2.to_multiset(),
        keys_distinct(s1.to_multiset()),
    ensures
        spec_apply(src, s1) == spec_apply(src, s2),
{
    law_sort_edits(s1, 0);
    law_sort_edits(s2, 0);
    lemma_sorted_unique(sort_edits(s1), sort_edits(s2));
}

/// Both offsets of `e` lie on character boundaries of `bytes`.
pub open spec fn on_boundaries(bytes: Seq<u8>, e: EditView) -> bool {
    at_char_boundary(bytes, e.0 as int) && at_char_boundary(bytes, e.1 as int)
}

/// Every edit's offsets lie on character boundaries of `bytes`.
pub open spec fn edits_on_boundaries(bytes: Seq<u8>, s: Seq<EditView>) -> bool {
    forall|i: int| 0 <= i < s.len() ==> on_boundaries(bytes, #[trigger] s[i])
}

/// Copy `bytes` from `cursor`, substituting each edit of `edits` in turn:
/// its byte range replaced by the UTF-8 bytes of its replacement.
pub open spec fn splice_bytes(bytes: Seq<u8>, edits: Seq<EditView>, cursor: int) -> Seq<u8>
    decreases edits.len(),
{
    if edits.len() == 0 {
        bytes.subrange(cursor, bytes.len() as int)
    } else {
        bytes.subrange(cursor, edits[0].0 as int) + encode_utf8(edits[0].2) + splice_bytes(
            bytes,
            edits.drop_first(),
            edits[0].1 as int,
        )
    }
}

proof fn lemma_char_pos_order(src: Seq<char>, a: usize, b: usize)
    requires
        at_char_boundary(encode_utf8(src), a as int),
        at_char_boundary(encode_utf8(src), b as int),
    ensures
        (char_pos(encode_utf8(src), a) < char_pos(encode_utf8(src), b)) == (a < b),
        (char_pos(encode_utf8(src), a) == char_pos(encode_utf8(src), b)) == (a == b),
        char_pos(encode_utf8(src), a) as int == utf8_char_starts(encode_utf8(src).take(a as int)),
{
    let bytes = encode_utf8(src);
    lemma_char_starts_le_len(bytes.take(a as int));
    lemma_char_starts_le_len(bytes.take(b as int));
    if a < b {
        lemma_boundary_order(src, a as int, b as int);
    } else if b < a {
        lemma_boundary_order(src, b as int, a as int);
    }
}

proof fn lemma_key_le_in_chars(src: Seq<char>, x: EditView, y: EditView)
    requires
        on_boundaries(encode_utf8(src), x),
        on_boundaries(encode_utf8(src), y),
    ensures
        key_le(edit_in_chars(encode_utf8(src), x), edit_in_chars(encode_utf8(src), y)) == key_le(x, y),
{
    lemma_char_pos_order(src, x.0, y.0);
    lemma_char_pos_order(src, x.1, y.1);
    lemma_char_pos_order(src, y.1, x.1);
    lemma_char_pos_order(src, x.0, x.1);
    lemma_char_pos_order(src, y.0, y.1);
}

proof fn lemma_insert_sorted_in_chars(src: Seq<char>, s: Seq<EditView>, e: EditView)
    requires
        edits_on_boundaries(encode_utf8(src), s),
        on_boundaries(encode_utf8(src), e),
    ensures
        insert_sorted(edits_in_chars(encode_utf8(src), s), edit_in_chars(encode_utf8(src), e)) == edits_in_chars(
            encode_utf8(src),
            insert_sorted(s, e),
        ),
    decreases s.len(),
{
    let bytes = encode_utf8(src);
    let ms = edits_in_chars(bytes, s);
    let me = edit_in_chars(bytes, e);
    if s.len() == 0 {
        assert(edits_in_chars(bytes, s.push(e)) =~= ms.push(me));
    } else {
        assert(on_boundaries(bytes, s[s.len() - 1]));
        lemma_key_le_in_chars(src, s.last(), e);
        assert(ms.last() == edit_in_chars(bytes, s.last()));
        if key_le(s.last(), e) {
            assert(edits_in_chars(bytes, s.push(e)) =~= ms.push(me));
        } else {
            let d = s.drop_last();
            assert(ms.drop_last() =~= edits_in_chars(bytes, d));
            assert forall|i: int| 0 <= i < d.len() implies on_boundaries(bytes, #[trigger] d[i]) by {
                assert(d[i] == s[i]);
            }
            lemma_insert_sorted_in_chars(src, d, e);
            assert(edits_in_chars(bytes, insert_sorted(d, e).push(s.last())) =~= edits_in_chars(
                bytes,
                insert_sorted(d, e),
            ).push(edit_in_chars(bytes, s.last())));
        }
    }
}

proof fn lemma_sort_in_chars(src: Seq<char>, s: Seq<EditView>)
    requires
        edits_on_boundaries(encode_utf8(src), s),
    ensures
        sort_edits(edits_in_chars(encode_utf8(src), s)) == edits_in_chars(encode_utf8(src), sort_edits(s)),
    decreases s.len(),
{
    let bytes = encode_utf8(src);
    if s.len() == 0 {
        assert(edits_in_chars(bytes, s) =~= s.map_values(|e: EditView| edit_in_chars(bytes, e)));
        assert(edits_in_chars(bytes, s).len() == 0);
    } else {
        let d = s.drop_last();
        let ms = edits_in_chars(bytes, s);
        assert(ms.drop_last() =~= edits_in_chars(bytes, d));
        assert(ms.last() == edit_in_chars(bytes, s.last()));
        assert forall|i: int| 0 <= i < d.len() implies on_boundaries(bytes, #[trigger] d[i]) by {
            assert(d[i] == s[i]);
        }
        lemma_sort_in_chars(src, d);
        lemma_sort_members(d);
        let sd = sort_edits(d);
        assert forall|i: int| 0 <= i < sd.len() implies on_boundaries(bytes, #[trigger] sd[i]) by {
            assert(d.contains(sd[i]));
            let k = choose|k: int| 0 <= k < d.len() && d[k] == sd[i];
        }
        assert(on_boundaries(bytes, s[s.len() - 1]));
        lemma_insert_sorted_in_chars(src, sd, s.last());
    }
}

proof fn lemma_drop_overlaps_in_chars(src: Seq<char>, s: Seq<EditView>)
    requires
        edits_on_boundaries(encode_utf8(src), s),
    ensures
        drop_overlaps(edits_in_chars(encode_utf8(src), s)) == edits_in_chars(encode_utf8(src), drop_overlaps(s)),
    decreases s.len(),
{
    let bytes = encode_utf8(src);
    if s.len() == 0 {
        assert(edits_in_chars(bytes, s).len() == 0);
        assert(edits_in_chars(bytes, s) =~= s);
    } else {
        let d = s.drop_last();
        let ms = edits_in_chars(bytes, s);
        assert(ms.drop_last() =~= edits_in_chars(bytes, d));
        assert(ms.last() == edit_in_chars(bytes, s.last()));
        assert forall|i: int| 0 <= i < d.len() implies on_boundaries(bytes, #[trigger] d[i]) by {
            assert(d[i] == s[i]);
        }
        lemma_drop_overlaps_in_chars(src, d);
        lemma_drop_overlaps(d, 0);
        let kept = drop_overlaps(d);
        assert(on_boundaries(bytes, s[s.len() - 1]));
        if kept.len() > 0 {
            assert(d.contains(kept[kept.len() - 1]));
            let k = choose|k: int| 0 <= k < d.len() && d[k] == kept[kept.len() - 1];
            assert(on_boundaries(bytes, d[k]));
            lemma_char_pos_order(src, kept.last().1, s.last().0);
            lemma_char_pos_order(src, s.last().0, kept.last().1);
            assert(edits_in_chars(bytes, kept).last() == edit_in_chars(bytes, kept.last()));
        }
        assert(edits_in_chars(bytes, kept.push(s.last())) =~= edits_in_chars(bytes, kept).push(
            edit_in_chars(bytes, s.last()),
        ));
    }
}

proof fn lemma_splice_in_chars(src: Seq<char>, es: Seq<EditView>, cursor: usize)
    requires
        edits_on_boundaries(encode_utf8(src), es),
        at_char_boundary(encode_utf8(src), cursor as int),
        chained(es),
        es.len() > 0 ==> cursor <= es[0].0,
    ensures
        encode_utf8(splice(src, edits_in_chars(encode_utf8(src), es), char_pos(encode_utf8(src), cursor) as int))
            == splice_bytes(encode_utf8(src), es, cursor as int),
    decreases es.len(),
{
    let bytes = encode_utf8(src);
    let ms = edits_in_chars(bytes, es);
    lemma_char_pos_order(src, cursor, cursor);
    if es.len() == 0 {
        assert(at_char_boundary(bytes, bytes.len() as int));
        lemma_boundary_segment(src, cursor as int, bytes.len() as int);
        lemma_char_starts_encode(src);
        assert(bytes.take(bytes.len() as int) =~= bytes);
    } else {
        let e = es[0];
        assert(on_boundaries(bytes, es[0]));
        assert(ms[0] == edit_in_chars(bytes, e));
        let rest = es.drop_first();
        assert(ms.drop_first() =~= edits_in_chars(bytes, rest));
        assert forall|i: int| 0 <= i < rest.len() implies on_boundaries(bytes, #[trigger] rest[i]) by {
            assert(rest[i] == es[i + 1]);
        }
        assert forall|i: int| 0 <= i < rest.len() - 1 implies #[trigger] rest[i].1 <= rest[i + 1].0 by {
            assert(rest[i] == es[i + 1] && rest[i + 1] == es[i + 2]);
        }
        if rest.len() > 0 {
            assert(rest[0] == es[1]);
        }
        lemma_splice_in_chars(src, rest, e.1);
        lemma_char_pos_order(src, e.0, e.0);
        lemma_char_pos_order(src, e.1, e.1);
        lemma_boundary_segment(src, cursor as int, e.0 as int);
        let a = src.subrange(char_pos(bytes, cursor) as int, char_pos(bytes, e.0) as int);
        let b = splice(src, rest.map_values(|x: EditView| edit_in_chars(bytes, x)), char_pos(bytes, e.1) as int);
        lemma_encode_append(a, e.2);
        lemma_encode_append(a + e.2, b);
    }
}

/// With byte offsets on character boundaries, `apply` splices the source's
/// UTF-8 bytes: the edits sorted and filtered as `effective_edits` does on
/// their byte offsets, each kept edit's byte range replaced by the bytes of
/// its replacement.
pub proof fn law_apply_splices_bytes(src: Seq<char>, s: Seq<EditView>)
    requires
        edits_on_boundaries(encode_utf8(src), s),
    ensures
        encode_utf8(spec_apply(src, edits_in_chars(encode_utf8(src), s))) == splice_bytes(
            encode_utf8(src),
            effective_edits(s),
            0,
        ),
{
    let bytes = encode_utf8(src);
    lemma_sort_in_chars(src, s);
    lemma_sort_members(s);
    let sorted = sort_edits(s);
    assert forall|i: int| 0 <= i < sorted.len() implies on_boundaries(bytes, #[trigger] sorted[i]) by {
        assert(s.contains(sorted[i]));
        let k = choose|k: int| 0 <= k < s.len() && s[k] == sorted[i];
    }
    lemma_drop_overlaps_in_chars(src, sorted);
    law_effective_edits(s, 0);
    let eff = effective_edits(s);
    assert forall|i: int| 0 <= i < eff.len() implies on_boundaries(bytes, #[trigger] eff[i]) by {
        assert(s.contains(eff[i]));
        let k = choose|k: int| 0 <= k < s.len() && s[k] == eff[i];
    }
    lemma_boundary_zero(src);
    assert(bytes.take(0) =~= Seq::<u8>::empty());
    lemma_splice_in_chars(src, eff, 0);
}

/// With byte offsets on character boundaries, the result of `apply` does not
/// depend on the order the edits were pushed in, as long as no two different
/// edits have both the same start and the same end.
pub proof fn law_apply_bytes_order_independent(src: Seq<char>, s1: Seq<EditView>, s2: Seq<EditView>)
    requires
        s1.to_multiset() == s2.to_multiset(),
        keys_distinct(s1.to_multiset()),
        edits_on_boundaries(encode_utf8(src), s1),
        edits_on_boundaries(encode_utf8(src), s2),
    ensures
        spec_apply(src, edits_in_chars(encode_utf8(src), s1)) == spec_apply(
            src,
            edits_in_chars(encode_utf8(src), s2),
        ),
{
    let bytes = encode_utf8(src);
    law_sort_edits(s1, 0);
    law_sort_edits(s2, 0);
    lemma_sorted_unique(sort_edits(s1), sort_edits(s2));
    lemma_sort_in_chars(src, s1);
    lemma_sort_in_chars(src, s2);
    lemma_sort_members(s1);
    let sorted = sort_edits(s1);
    assert forall|i: int| 0 <= i < sorted.len() implies on_boundaries(bytes, #[trigger] sorted[i]) by {
        assert(s1.contains(sorted[i]));
        let k = choose|k: int| 0 <= k < s1.len() && s1[k] == sorted[i];
    }
    lemma_drop_overlaps_in_chars(src, sorted);
}

} // verus!
