//! Spans: the partition of a line into alternating matched and unmatched
//! pieces, driven by the byte offsets of the matches found in it.

use vstd::prelude::*;
use vstd::string::StringSliceAdditionalSpecFns;
use vstd::utf8::encode_utf8;
use vstd::utf8::is_char_boundary;

verus! {

/// One contiguous piece of a line, given by byte offsets `[start, end)`,
/// tagged with whether it is part of a match.
#[derive(Clone, Copy, Debug, PartialEq, Eq, Structural)]
pub struct Span {
    pub start: usize,
    pub end: usize,
    pub matched: bool,
}

impl View for Span {
    type V = (int, int, bool);

    open spec fn view(&self) -> (int, int, bool) {
        (self.start as int, self.end as int, self.matched)
    }
}

/// The mathematical model of a sequence of spans.
pub open spec fn span_models(v: Seq<Span>) -> Seq<(int, int, bool)> {
    v.map_values(|sp: Span| sp@)
}

/// The mathematical model of a sequence of match offset pairs.
pub open spec fn match_models(v: Seq<(usize, usize)>) -> Seq<(int, int)> {
    v.map_values(|m: (usize, usize)| (m.0 as int, m.1 as int))
}

/// Well-formed match offsets within a line of byte length `len`, where every
/// match starts at or after `from`: each match is a half-open interval inside
/// `[from, len)`, and matches are pairwise ordered and non-overlapping.
pub open spec fn matches_wf_from(ms: Seq<(int, int)>, from: int, len: int) -> bool {
    &&& forall|i: int|
        0 <= i < ms.len() ==> from <= #[trigger] ms[i].0 && ms[i].0 <= ms[i].1 && ms[i].1 <= len
    &&& forall|i: int, j: int| 0 <= i < j < ms.len() ==> #[trigger] ms[i].1 <= #[trigger] ms[j].0
}

/// Well-formed match offsets within a line of byte length `len`.
pub open spec fn matches_wf(ms: Seq<(int, int)>, len: int) -> bool {
    matches_wf_from(ms, 0, len)
}

/// The partition of `[from, len)` induced by the matches `ms`: before each
/// match its (possibly empty, then omitted) unmatched gap, then the match
/// itself if it is not empty, and after the last match the remaining
/// unmatched tail. This is the sequence of spans a line is rendered from.
pub open spec fn spans_of(ms: Seq<(int, int)>, from: int, len: int) -> Seq<(int, int, bool)>
    decreases ms.len(),
{
    if ms.len() == 0 {
        if from < len {
            seq![(from, len, false)]
        } else {
            Seq::empty()
        }
    } else {
        let s = ms[0].0;
        let e = ms[0].1;
        let gap: Seq<(int, int, bool)> = if from < s {
            seq![(from, s, false)]
        } else {
            Seq::empty()
        };
        let hit: Seq<(int, int, bool)> = if s < e {
            seq![(s, e, true)]
        } else {
            Seq::empty()
        };
        gap + hit + spans_of(ms.drop_first(), e, len)
    }
}

/// The spans exactly tile the interval `[lo, hi)`: each is non-empty, the
/// first starts at `lo`, the last ends at `hi`, and each begins where the
/// previous one ends — no gaps, no overlaps.
pub open spec fn tiles(spans: Seq<(int, int, bool)>, lo: int, hi: int) -> bool {
    &&& (spans.len() == 0 ==> lo == hi)
    &&& (spans.len() > 0 ==> spans[0].0 == lo && spans[spans.len() - 1].1 == hi)
    &&& forall|i: int| 0 <= i < spans.len() ==> (#[trigger] spans[i]).0 < spans[i].1
    &&& forall|i: int| 0 <= i < spans.len() - 1 ==> (#[trigger] spans[i]).1 == spans[i + 1].0
}

/// Consecutive spans never carry the same tag.
pub open spec fn alternates(spans: Seq<(int, int, bool)>) -> bool {
    forall|i: int| 0 <= i < spans.len() - 1 ==> (#[trigger] spans[i]).2 != spans[i + 1].2
}

/// Tilings compose: a tiling of `[lo, mid)` followed by one of `[mid, hi)`
/// tiles `[lo, hi)`.
pub proof fn lemma_tiles_concat(a: Seq<(int, int, bool)>, b: Seq<(int, int, bool)>, lo: int, mid: int, hi: int)
    requires
        tiles(a, lo, mid),
        tiles(b, mid, hi),
    ensures
        tiles(a + b, lo, hi),
{
    let c = a + b;
    assert forall|i: int| 0 <= i < c.len() implies (#[trigger] c[i]).0 < c[i].1 by {
        if i < a.len() {
            assert(c[i] == a[i]);
        } else {
            assert(c[i] == b[i - a.len()]);
        }
    }
    assert forall|i: int| 0 <= i < c.len() - 1 implies (#[trigger] c[i]).1 == c[i + 1].0 by {
        if i + 1 < a.len() {
            assert(c[i] == a[i] && c[i + 1] == a[i + 1]);
        } else if i >= a.len() {
            assert(c[i] == b[i - a.len()] && c[i + 1] == b[i + 1 - a.len()]);
        } else {
            assert(c[i] == a[i] && c[i + 1] == b[0]);
            assert(a[a.len() - 1].1 == mid);
        }
    }
    if a.len() == 0 {
        assert(c =~= b);
    } else if b.len() == 0 {
        assert(c =~= a);
    } else {
        assert(c[0] == a[0]);
        assert(c[c.len() - 1] == b[b.len() - 1]);
    }
}

/// The span partition induced by well-formed matches tiles the whole
/// interval: every span is non-empty and together, in order, they cover
/// `[from, len)` with no gap and no overlap.
pub proof fn lemma_spans_of_tiles(ms: Seq<(int, int)>, from: int, len: int)
    requires
        matches_wf_from(ms, from, len),
        from <= len,
    ensures
        tiles(spans_of(ms, from, len), from, len),
    decreases ms.len(),
{
    if ms.len() == 0 {
    } else {
        let s = ms[0].0;
        let e = ms[0].1;
        let gap: Seq<(int, int, bool)> = if from < s {
            seq![(from, s, false)]
        } else {
            Seq::empty()
        };
        let hit: Seq<(int, int, bool)> = if s < e {
            seq![(s, e, true)]
        } else {
            Seq::empty()
        };
        let rest = ms.drop_first();
        assert forall|i: int|
            0 <= i < rest.len() implies e <= #[trigger] rest[i].0 && rest[i].0 <= rest[i].1
            && rest[i].1 <= len by {
            assert(rest[i] == ms[i + 1]);
            assert(ms[0].1 <= ms[i + 1].0);
        }
        assert forall|i: int, j: int|
            0 <= i < j < rest.len() implies #[trigger] rest[i].1 <= #[trigger] rest[j].0 by {
            assert(rest[i] == ms[i + 1] && rest[j] == ms[j + 1]);
            assert(ms[i + 1].1 <= ms[j + 1].0);
        }
        lemma_spans_of_tiles(rest, e, len);
        assert(tiles(gap, from, s));
        assert(tiles(hit, s, e));
        lemma_tiles_concat(gap, hit, from, s, e);
        lemma_tiles_concat(gap + hit, spans_of(rest, e, len), from, e, len);
        assert(gap + hit + spans_of(rest, e, len) == (gap + hit) + spans_of(rest, e, len));
    }
}

/// Dropping the first span of a tiling leaves a tiling of what remains.
pub proof fn lemma_tiles_drop_first(spans: Seq<(int, int, bool)>, lo: int, hi: int)
    requires
        tiles(spans, lo, hi),
        spans.len() > 0,
    ensures
        tiles(spans.drop_first(), spans[0].1, hi),
{
    let mid = spans[0].1;
    let rest = spans.drop_first();
    assert forall|i: int| 0 <= i < rest.len() implies (#[trigger] rest[i]).0 < rest[i].1 by {
        assert(rest[i] == spans[i + 1]);
    }
    assert forall|i: int| 0 <= i < rest.len() - 1 implies (#[trigger] rest[i]).1 == rest[i + 1].0 by {
        assert(rest[i] == spans[i + 1] && rest[i + 1] == spans[i + 2]);
        assert(spans[i + 1].1 == spans[i + 2].0);
    }
    if rest.len() > 0 {
        assert(rest[0] == spans[1]);
        assert(spans[0].1 == spans[1].0);
        assert(rest[rest.len() - 1] == spans[spans.len() - 1]);
    }
}

/// A tiled interval is not reversed: its lower bound is at most its upper.
pub proof fn lemma_tiles_bounds(spans: Seq<(int, int, bool)>, lo: int, hi: int)
    requires
        tiles(spans, lo, hi),
    ensures
        lo <= hi,
    decreases spans.len(),
{
    if spans.len() > 0 {
        lemma_tiles_drop_first(spans, lo, hi);
        lemma_tiles_bounds(spans.drop_first(), spans[0].1, hi);
    }
}

/// The concatenation, in order, of the slices of `s` that the spans select.
pub open spec fn concat_spans<A>(s: Seq<A>, spans: Seq<(int, int, bool)>) -> Seq<A>
    decreases spans.len(),
{
    if spans.len() == 0 {
        Seq::empty()
    } else {
        s.subrange(spans[0].0, spans[0].1) + concat_spans(s, spans.drop_first())
    }
}

/// Slices taken along a tiling of `[lo, hi)` concatenate to `s[lo..hi]`.
pub proof fn lemma_concat_spans_tiles<A>(s: Seq<A>, spans: Seq<(int, int, bool)>, lo: int, hi: int)
    requires
        tiles(spans, lo, hi),
        0 <= lo <= hi <= s.len(),
    ensures
        concat_spans(s, spans) == s.subrange(lo, hi),
    decreases spans.len(),
{
    if spans.len() == 0 {
        assert(concat_spans(s, spans) =~= s.subrange(lo, hi));
    } else {
        let mid = spans[0].1;
        let rest = spans.drop_first();
        lemma_tiles_drop_first(spans, lo, hi);
        lemma_tiles_bounds(rest, mid, hi);
        lemma_concat_spans_tiles(s, rest, mid, hi);
        assert(concat_spans(s, spans) == s.subrange(lo, mid) + s.subrange(mid, hi));
        assert(s.subrange(lo, mid) + s.subrange(mid, hi) =~= s.subrange(lo, hi));
    }
}

/// Coverage: for well-formed matches, the span partition of a line
/// reproduces the line exactly — the selected slices concatenate, in order,
/// back to the whole sequence (`s` stands for the line's bytes).
pub proof fn lemma_partition_covers<A>(s: Seq<A>, ms: Seq<(int, int)>)
    requires
        matches_wf(ms, s.len() as int),
    ensures
        concat_spans(s, spans_of(ms, 0, s.len() as int)) == s,
{
    lemma_spans_of_tiles(ms, 0, s.len() as int);
    lemma_concat_spans_tiles(s, spans_of(ms, 0, s.len() as int), 0, s.len() as int);
    assert(s.subrange(0, s.len() as int) =~= s);
}

/// Alternation: when every match is non-empty and no two matches touch,
/// consecutive spans of the partition never carry the same tag. (With
/// adjacent matches the matched spans follow one another, and with empty
/// matches two unmatched spans can; those inputs are excluded here.)
/// The second conclusion pins the first span's tag: it is a matched span
/// exactly when the first match starts at `from`.
pub proof fn lemma_spans_of_alternates(ms: Seq<(int, int)>, from: int, len: int)
    requires
        matches_wf_from(ms, from, len),
        from <= len,
        forall|i: int| 0 <= i < ms.len() ==> (#[trigger] ms[i]).0 < ms[i].1,
        forall|i: int| 0 <= i < ms.len() - 1 ==> (#[trigger] ms[i]).1 < ms[i + 1].0,
    ensures
        alternates(spans_of(ms, from, len)),
        spans_of(ms, from, len).len() > 0 ==> (spans_of(ms, from, len)[0].2 <==> ms.len() > 0
            && ms[0].0 == from),
    decreases ms.len(),
{
    if ms.len() == 0 {
    } else {
        let s = ms[0].0;
        let e = ms[0].1;
        let gap: Seq<(int, int, bool)> = if from < s {
            seq![(from, s, false)]
        } else {
            Seq::empty()
        };
        let hit: Seq<(int, int, bool)> = seq![(s, e, true)];
        let rest_ms = ms.drop_first();
        let rest = spans_of(rest_ms, e, len);
        assert forall|i: int|
            0 <= i < rest_ms.len() implies e <= (#[trigger] rest_ms[i]).0 && rest_ms[i].0
            <= rest_ms[i].1 && rest_ms[i].1 <= len by {
            assert(rest_ms[i] == ms[i + 1]);
            assert(ms[0].1 <= ms[i + 1].0);
        }
        assert forall|i: int, j: int|
            0 <= i < j < rest_ms.len() implies #[trigger] rest_ms[i].1 <= #[trigger] rest_ms[j].0 by {
            assert(rest_ms[i] == ms[i + 1] && rest_ms[j] == ms[j + 1]);
            assert(ms[i + 1].1 <= ms[j + 1].0);
        }
        assert forall|i: int| 0 <= i < rest_ms.len() implies (#[trigger] rest_ms[i]).0
            < rest_ms[i].1 by {
            assert(rest_ms[i] == ms[i + 1]);
        }
        assert forall|i: int| 0 <= i < rest_ms.len() - 1 implies (#[trigger] rest_ms[i]).1
            < rest_ms[i + 1].0 by {
            assert(rest_ms[i] == ms[i + 1] && rest_ms[i + 1] == ms[i + 2]);
            assert(ms[i + 1].1 < ms[i + 2].0);
        }
        lemma_spans_of_alternates(rest_ms, e, len);
        if rest.len() > 0 {
            if rest_ms.len() > 0 {
                assert(rest_ms[0] == ms[1]);
                assert(ms[0].1 < ms[1].0);
                assert(!rest[0].2);
            } else {
                assert(!rest[0].2);
            }
        }
        let sp = spans_of(ms, from, len);
        assert(sp == gap + hit + rest);
        let g = gap.len() as int;
        assert forall|i: int| 0 <= i < sp.len() - 1 implies (#[trigger] sp[i]).2 != sp[i + 1].2 by {
            if i < g {
                assert(sp[i] == gap[0]);
                assert(sp[i + 1] == hit[0]);
            } else if i == g {
                assert(sp[i] == hit[0]);
                assert(sp[i + 1] == rest[0]);
            } else {
                assert(sp[i] == rest[i - g - 1]);
                assert(sp[i + 1] == rest[i - g]);
                assert(rest[i - g - 1].2 != rest[i - g].2);
            }
        }
        if g > 0 {
            assert(sp[0] == gap[0]);
        } else {
            assert(sp[0] == hit[0]);
        }
    }
}

/// Build the span partition of a line of byte length `len` from the match
/// offsets `ms`, walking the matches once and emitting the non-empty gap
/// before each match, each non-empty match, and the final unmatched tail.
#[verifier::rlimit(50)]
pub fn partition_spans(ms: &Vec<(usize, usize)>, len: usize) -> (r: Vec<Span>)
    requires
        matches_wf(match_models(ms@), len as int),
    ensures
        span_models(r@) == spans_of(match_models(ms@), 0, len as int),
{
    let ghost mm = match_models(ms@);
    let mut out: Vec<Span> = Vec::new();
    let mut prev: usize = 0;
    let mut i: usize = 0;
    proof {
        assert(mm.skip(0) =~= mm);
        assert(span_models(out@) =~= Seq::<(int, int, bool)>::empty());
        assert(span_models(out@) + spans_of(mm, 0, len as int) =~= spans_of(mm, 0, len as int));
    }
    while i < ms.len()
        invariant
            matches_wf(mm, len as int),
            mm == match_models(ms@),
            i <= ms.len(),
            prev <= len,
            i == 0 ==> prev == 0,
            i > 0 ==> prev == mm[i - 1].1,
            span_models(out@) + spans_of(mm.skip(i as int), prev as int, len as int)
                == spans_of(mm, 0, len as int),
        decreases ms.len() - i,
    {
        let (s, e) = ms[i];
        proof {
            assert(mm[i as int] == (s as int, e as int));
            assert(mm.skip(i as int)[0] == mm[i as int]);
            assert(mm.skip(i as int).drop_first() =~= mm.skip(i as int + 1));
            if i > 0 {
                assert(mm[i - 1].1 <= mm[i as int].0);
            }
        }
        let ghost before = span_models(out@);
        if prev < s {
            out.push(Span { start: prev, end: s, matched: false });
            proof {
                assert(span_models(out@) =~= before.push((prev as int, s as int, false)));
            }
        }
        let ghost mid = span_models(out@);
        if s < e {
            out.push(Span { start: s, end: e, matched: true });
            proof {
                assert(span_models(out@) =~= mid.push((s as int, e as int, true)));
            }
        }
        proof {
            let gap: Seq<(int, int, bool)> = if prev < s {
                seq![(prev as int, s as int, false)]
            } else {
                Seq::empty()
            };
            let hit: Seq<(int, int, bool)> = if s < e {
                seq![(s as int, e as int, true)]
            } else {
                Seq::empty()
            };
            assert(spans_of(mm.skip(i as int), prev as int, len as int) == gap + hit
                + spans_of(mm.skip(i as int + 1), e as int, len as int));
            assert(span_models(out@) =~= before + gap + hit);
            assert(span_models(out@) + spans_of(mm.skip(i as int + 1), e as int, len as int)
                =~= spans_of(mm, 0, len as int));
        }
        prev = e;
        i = i + 1;
    }
    proof {
        assert(mm.skip(i as int) =~= Seq::<(int, int)>::empty());
    }
    if prev < len {
        let ghost before = span_models(out@);
        out.push(Span { start: prev, end: len, matched: false });
        proof {
            assert(span_models(out@) =~= before.push((prev as int, len as int, false)));
            assert(span_models(out@) =~= before + spans_of(
                Seq::<(int, int)>::empty(),
                prev as int,
                len as int,
            ));
        }
    } else {
        proof {
            assert(span_models(out@) + spans_of(
                Seq::<(int, int)>::empty(),
                prev as int,
                len as int,
            ) =~= span_models(out@));
        }
    }
    out
}

/// The offsets of the matched spans, in order.
pub open spec fn matched_intervals(spans: Seq<(int, int, bool)>) -> Seq<(int, int)>
    decreases spans.len(),
{
    if spans.len() == 0 {
        Seq::empty()
    } else {
        let rest = matched_intervals(spans.drop_first());
        if spans[0].2 {
            seq![(spans[0].0, spans[0].1)] + rest
        } else {
            rest
        }
    }
}

/// The non-empty matches, in order.
pub open spec fn nonempty_matches(ms: Seq<(int, int)>) -> Seq<(int, int)>
    decreases ms.len(),
{
    if ms.len() == 0 {
        Seq::empty()
    } else {
        let rest = nonempty_matches(ms.drop_first());
        if ms[0].0 < ms[0].1 {
            seq![ms[0]] + rest
        } else {
            rest
        }
    }
}

/// Collecting matched offsets distributes over concatenation.
pub proof fn lemma_matched_intervals_concat(a: Seq<(int, int, bool)>, b: Seq<(int, int, bool)>)
    ensures
        matched_intervals(a + b) == matched_intervals(a) + matched_intervals(b),
    decreases a.len(),
{
    if a.len() == 0 {
        assert(a + b =~= b);
        assert(matched_intervals(a) + matched_intervals(b) =~= matched_intervals(b));
    } else {
        assert((a + b).drop_first() =~= a.drop_first() + b);
        assert((a + b)[0] == a[0]);
        lemma_matched_intervals_concat(a.drop_first(), b);
        assert(matched_intervals(a + b) =~= matched_intervals(a) + matched_intervals(b));
    }
}

/// Exactness of the tags: the matched spans of the partition are exactly
/// the non-empty matches, in order, with their offsets; nothing else is
/// ever tagged as matched.
pub proof fn lemma_matched_spans(ms: Seq<(int, int)>, from: int, len: int)
    requires
        matches_wf_from(ms, from, len),
        from <= len,
    ensures
        matched_intervals(spans_of(ms, from, len)) == nonempty_matches(ms),
    decreases ms.len(),
{
    if ms.len() == 0 {
        if from < len {
            let single: Seq<(int, int, bool)> = seq![(from, len, false)];
            assert(single.drop_first() =~= Seq::<(int, int, bool)>::empty());
            assert(matched_intervals(Seq::<(int, int, bool)>::empty()) =~= Seq::<
                (int, int),
            >::empty());
            assert(matched_intervals(single) =~= Seq::<(int, int)>::empty());
        }
    } else {
        let s = ms[0].0;
        let e = ms[0].1;
        let gap: Seq<(int, int, bool)> = if from < s {
            seq![(from, s, false)]
        } else {
            Seq::empty()
        };
        let hit: Seq<(int, int, bool)> = if s < e {
            seq![(s, e, true)]
        } else {
            Seq::empty()
        };
        let rest_ms = ms.drop_first();
        let rest = spans_of(rest_ms, e, len);
        assert forall|i: int|
            0 <= i < rest_ms.len() implies e <= (#[trigger] rest_ms[i]).0 && rest_ms[i].0
            <= rest_ms[i].1 && rest_ms[i].1 <= len by {
            assert(rest_ms[i] == ms[i + 1]);
            assert(ms[0].1 <= ms[i + 1].0);
        }
        assert forall|i: int, j: int|
            0 <= i < j < rest_ms.len() implies #[trigger] rest_ms[i].1 <= #[trigger] rest_ms[j].0 by {
            assert(rest_ms[i] == ms[i + 1] && rest_ms[j] == ms[j + 1]);
            assert(ms[i + 1].1 <= ms[j + 1].0);
        }
        lemma_matched_spans(rest_ms, e, len);
        lemma_matched_intervals_concat(gap, hit);
        lemma_matched_intervals_concat(gap + hit, rest);
        assert(matched_intervals(Seq::<(int, int, bool)>::empty()) =~= Seq::<(int, int)>::empty());
        if from < s {
            assert(gap.drop_first() =~= Seq::<(int, int, bool)>::empty());
            assert(matched_intervals(gap) =~= Seq::<(int, int)>::empty());
        }
        if s < e {
            assert(hit.drop_first() =~= Seq::<(int, int, bool)>::empty());
            assert(matched_intervals(hit) =~= seq![(s, e)]);
        }
        assert(matched_intervals(spans_of(ms, from, len)) =~= nonempty_matches(ms));
    }
}

/// Every offset named by the spans lies on a character boundary of `bytes`.
pub open spec fn spans_on_boundaries(bytes: Seq<u8>, spans: Seq<(int, int, bool)>) -> bool {
    forall|i: int|
        0 <= i < spans.len() ==> is_char_boundary(bytes, (#[trigger] spans[i]).0)
            && is_char_boundary(bytes, spans[i].1)
}

/// Every span lies within the tiled interval.
pub proof fn lemma_tiles_elem_bounds(spans: Seq<(int, int, bool)>, lo: int, hi: int)
    requires
        tiles(spans, lo, hi),
    ensures
        forall|i: int|
            0 <= i < spans.len() ==> lo <= (#[trigger] spans[i]).0 && spans[i].1 <= hi,
    decreases spans.len(),
{
    if spans.len() > 0 {
        let mid = spans[0].1;
        let rest = spans.drop_first();
        lemma_tiles_drop_first(spans, lo, hi);
        lemma_tiles_bounds(rest, mid, hi);
        lemma_tiles_elem_bounds(rest, mid, hi);
        assert forall|i: int|
            0 <= i < spans.len() implies lo <= (#[trigger] spans[i]).0 && spans[i].1 <= hi by {
            if i > 0 {
                assert(spans[i] == rest[i - 1]);
            }
        }
    }
}

/// Every offset of every span produced from the matches is either `from`,
/// `len`, or an offset of some match: so if those all lie on character
/// boundaries of `bytes`, the span offsets do too.
pub proof fn lemma_spans_of_boundaries(
    bytes: Seq<u8>,
    ms: Seq<(int, int)>,
    from: int,
    len: int,
)
    requires
        forall|i: int|
            0 <= i < ms.len() ==> is_char_boundary(bytes, (#[trigger] ms[i]).0)
                && is_char_boundary(bytes, ms[i].1),
        is_char_boundary(bytes, from),
        is_char_boundary(bytes, len),
    ensures
        forall|i: int|
            0 <= i < spans_of(ms, from, len).len() ==> is_char_boundary(
                bytes,
                (#[trigger] spans_of(ms, from, len)[i]).0,
            ) && is_char_boundary(bytes, spans_of(ms, from, len)[i].1),
    decreases ms.len(),
{
    if ms.len() == 0 {
    } else {
        let s = ms[0].0;
        let e = ms[0].1;
        let gap: Seq<(int, int, bool)> = if from < s {
            seq![(from, s, false)]
        } else {
            Seq::empty()
        };
        let hit: Seq<(int, int, bool)> = if s < e {
            seq![(s, e, true)]
        } else {
            Seq::empty()
        };
        let rest_ms = ms.drop_first();
        let rest = spans_of(rest_ms, e, len);
        assert forall|i: int|
            0 <= i < rest_ms.len() implies is_char_boundary(bytes, (#[trigger] rest_ms[i]).0)
            && is_char_boundary(bytes, rest_ms[i].1) by {
            assert(rest_ms[i] == ms[i + 1]);
        }
        assert(is_char_boundary(bytes, ms[0].0) && is_char_boundary(bytes, ms[0].1));
        lemma_spans_of_boundaries(bytes, rest_ms, e, len);
        let sp = spans_of(ms, from, len);
        assert(sp == gap + hit + rest);
        let g = gap.len() as int;
        assert forall|i: int|
            0 <= i < sp.len() implies is_char_boundary(bytes, (#[trigger] sp[i]).0)
            && is_char_boundary(bytes, sp[i].1) by {
            if i < g {
                assert(sp[i] == gap[0]);
            } else if i < g + hit.len() {
                assert(sp[i] == hit[0]);
            } else {
                assert(sp[i] == rest[i - g - hit.len()]);
            }
        }
    }
}

/// The slice of `line` between byte offsets `start` and `end`, both of
/// which must lie on character boundaries: its bytes are exactly the bytes
/// of the line between those offsets.
pub fn span_text<'a>(line: &'a str, start: usize, end: usize) -> (r: &'a str)
    requires
        start <= end,
        end as int <= encode_utf8(line@).len(),
        is_char_boundary(encode_utf8(line@), start as int),
        is_char_boundary(encode_utf8(line@), end as int),
    ensures
        encode_utf8(r@) == encode_utf8(line@).subrange(start as int, end as int),
{
    proof {
        vstd::utf8::encode_utf8_valid_utf8(line@);
        vstd::utf8::valid_utf8_split(encode_utf8(line@), start as int);
    }
    let (_, rest) = line.split_at(start);
    let ghost bytes = encode_utf8(line@);
    let ghost sub = bytes.subrange(start as int, bytes.len() as int);
    proof {
        assert(rest.spec_bytes() == sub);
        if end as int == bytes.len() {
            vstd::utf8::is_char_boundary_start_end_of_seq(sub);
            assert(is_char_boundary(sub, end - start));
        } else if end > start {
            vstd::utf8::is_char_boundary_iff_not_is_continuation_byte(bytes, end as int);
            vstd::utf8::is_char_boundary_iff_not_is_continuation_byte(sub, end - start);
            assert(sub[end - start] == bytes[end as int]);
        } else {
            vstd::utf8::is_char_boundary_start_end_of_seq(sub);
            reveal_with_fuel(vstd::utf8::is_char_boundary, 1);
            assert(is_char_boundary(sub, 0));
        }
    }
    let (mid, _) = rest.split_at(end - start);
    proof {
        assert(mid.spec_bytes() =~= bytes.subrange(start as int, end as int));
    }
    mid
}

} // verus!

