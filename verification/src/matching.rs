//! Pattern matching: a compiled pattern, the matches it finds in a line, and
//! the partition of a line into spans driven by those matches.

use crate::spans::concat_spans;
use crate::spans::lemma_partition_covers;
use crate::spans::lemma_spans_of_boundaries;
use crate::spans::lemma_spans_of_tiles;
use crate::spans::lemma_matched_spans;
use crate::spans::lemma_tiles_elem_bounds;
use crate::spans::match_models;
use crate::spans::matched_intervals;
use crate::spans::matches_wf;
use crate::spans::nonempty_matches;
use crate::spans::partition_spans;
use crate::spans::span_models;
use crate::spans::span_text;
use crate::spans::spans_of;
use crate::spans::spans_on_boundaries;
use crate::spans::tiles;
use crate::spans::Span;
use vstd::prelude::*;
use vstd::utf8::encode_utf8;
use vstd::utf8::is_char_boundary;

verus! {

/// Declares regex::Regex, the compiled regular expression type, so that a
/// value of it can be held and carried; it stays opaque here.
#[verifier::external_type_specification]
#[verifier::external_body]
pub struct ExRegex(regex::Regex);

/// Whether the regular expression engine accepts a pattern text: acceptance
/// depends on the text alone.
pub uninterp spec fn pattern_accepted(pat: Seq<char>) -> bool;

/// The matches that the pattern compiled from `pat` finds in `line`, as
/// half-open byte offset intervals into the line's UTF-8 encoding: a
/// function of the pattern text and the line alone.
pub uninterp spec fn found_matches(pat: Seq<char>, line: Seq<char>) -> Seq<(int, int)>;

/// A compiled pattern, kept together with the text it was compiled from;
/// the text is what contracts speak about.
pub struct Pattern {
    re: regex::Regex,
    text: String,
}

/// A line is kept (produces an output line) exactly when it is non-empty
/// and the pattern finds at least one match in it.
pub open spec fn keep_line(pat: Seq<char>, line: Seq<char>) -> bool {
    line.len() > 0 && found_matches(pat, line).len() > 0
}

/// The span partition of a line under the pattern compiled from `pat`.
pub open spec fn line_spans(pat: Seq<char>, line: Seq<char>) -> Seq<(int, int, bool)> {
    spans_of(found_matches(pat, line), 0, encode_utf8(line).len() as int)
}

/// Relies on str::len: the length of a string in bytes; a string's byte
/// length always fits in usize, and is zero exactly for the empty string.
#[verifier::external_body]
fn str_byte_len(s: &str) -> (r: usize)
    ensures
        r as int == encode_utf8(s@).len() as int,
        r == 0 <==> s@.len() == 0,
{
    s.len()
}

impl Pattern {
    /// The pattern text this value was compiled from.
    pub closed spec fn pat(&self) -> Seq<char> {
        self.text@
    }

    /// Relies on regex::Regex::new: whether a pattern text compiles is
    /// decided by the text alone; on failure the error's message is
    /// returned. The compiled value is stored beside its text, so what it
    /// later finds is a function of that text.
    #[verifier::external_body]
    pub fn compile(pattern: &str) -> (r: Result<Pattern, String>)
        ensures
            r is Ok <==> pattern_accepted(pattern@),
            r is Ok ==> r->Ok_0.pat() == pattern@,
    {
        match regex::Regex::new(pattern) {
            Ok(re) => Ok(Pattern { re, text: pattern.to_owned() }),
            Err(e) => Err(format!("{}", e)),
        }
    }

    /// Relies on regex::Regex::find_iter: it yields the successive
    /// non-overlapping matches in the line, in order, each a half-open
    /// interval of byte offsets into the line, and every offset falls on a
    /// UTF-8 character boundary.
    #[verifier::external_body]
    fn find_raw(&self, line: &str) -> (r: Vec<(usize, usize)>)
        ensures
            match_models(r@) == found_matches(self.pat(), line@),
            matches_wf(match_models(r@), encode_utf8(line@).len() as int),
            forall|i: int|
                0 <= i < r@.len() ==> is_char_boundary(
                    encode_utf8(line@),
                    (#[trigger] match_models(r@)[i]).0,
                ) && is_char_boundary(encode_utf8(line@), match_models(r@)[i].1),
    {
        self.re.find_iter(line).map(|m| (m.start(), m.end())).collect()
    }

    /// Split `line` into its span partition under this pattern: `None` for
    /// an empty line or a line without a match (such lines produce no
    /// output), otherwise the non-empty sequence of matched/unmatched
    /// spans, which tile the line's bytes exactly — each span non-empty,
    /// no gap, no overlap — so that their slices concatenate back to the
    /// whole line.
    pub fn partition(&self, line: &str) -> (r: Option<Vec<Span>>)
        ensures
            r is Some <==> keep_line(self.pat(), line@),
            r is Some ==> span_models(r->Some_0@) == line_spans(self.pat(), line@),
            r is Some ==> r->Some_0@.len() > 0,
            r is Some ==> tiles(
                span_models(r->Some_0@),
                0,
                encode_utf8(line@).len() as int,
            ),
            r is Some ==> concat_spans(encode_utf8(line@), span_models(r->Some_0@))
                == encode_utf8(line@),
            r is Some ==> spans_on_boundaries(encode_utf8(line@), span_models(r->Some_0@)),
            r is Some ==> matched_intervals(span_models(r->Some_0@)) == nonempty_matches(
                found_matches(self.pat(), line@),
            ),
    {
        if line.is_empty() {
            return None;
        }
        let ms = self.find_raw(line);
        if ms.len() == 0 {
            proof {
                assert(match_models(ms@).len() == 0);
            }
            return None;
        }
        let blen = str_byte_len(line);
        let sp = partition_spans(&ms, blen);
        proof {
            lemma_spans_of_tiles(match_models(ms@), 0, blen as int);
            lemma_partition_covers(encode_utf8(line@), match_models(ms@));
            assert(span_models(sp@).len() > 0);
            vstd::utf8::encode_utf8_valid_utf8(line@);
            vstd::utf8::is_char_boundary_start_end_of_seq(encode_utf8(line@));
            lemma_spans_of_boundaries(encode_utf8(line@), match_models(ms@), 0, blen as int);
            lemma_matched_spans(match_models(ms@), 0, blen as int);
        }
        Some(sp)
    }

    /// Like `partition`, but hand each span back as the slice of the line
    /// it names, paired with its tag: `None` exactly when the line produces
    /// no output, otherwise one piece per span, whose bytes are exactly the
    /// line's bytes between the span's offsets. A renderer prints the
    /// pieces in order, emphasising the tagged ones.
    pub fn partition_texts<'a>(&self, line: &'a str) -> (r: Option<Vec<(&'a str, bool)>>)
        ensures
            r is Some <==> keep_line(self.pat(), line@),
            r is Some ==> ({
                let sp = line_spans(self.pat(), line@);
                let bytes = encode_utf8(line@);
                &&& r->Some_0@.len() == sp.len()
                &&& forall|k: int|
                    0 <= k < sp.len() ==> encode_utf8((#[trigger] r->Some_0@[k]).0@)
                        == bytes.subrange(sp[k].0, sp[k].1) && r->Some_0@[k].1 == sp[k].2
            }),
    {
        let spans = match self.partition(line) {
            Some(spans) => spans,
            None => {
                return None;
            },
        };
        let ghost lsp = line_spans(self.pat(), line@);
        let ghost bytes = encode_utf8(line@);
        proof {
            lemma_tiles_elem_bounds(lsp, 0, bytes.len() as int);
        }
        let mut out: Vec<(&'a str, bool)> = Vec::new();
        let mut k: usize = 0;
        while k < spans.len()
            invariant
                lsp == line_spans(self.pat(), line@),
                bytes == encode_utf8(line@),
                span_models(spans@) == lsp,
                tiles(lsp, 0, bytes.len() as int),
                spans_on_boundaries(bytes, lsp),
                forall|i: int|
                    0 <= i < lsp.len() ==> 0 <= (#[trigger] lsp[i]).0 && lsp[i].1
                        <= bytes.len(),
                k <= spans.len(),
                out@.len() == k,
                forall|j: int|
                    0 <= j < k ==> encode_utf8((#[trigger] out@[j]).0@) == bytes.subrange(
                        lsp[j].0,
                        lsp[j].1,
                    ) && out@[j].1 == lsp[j].2,
            decreases spans.len() - k,
        {
            let sp = spans[k];
            proof {
                assert(lsp[k as int] == spans@[k as int]@);
            }
            let piece = span_text(line, sp.start, sp.end);
            out.push((piece, sp.matched));
            k = k + 1;
        }
        Some(out)
    }
}

/// The mathematical model of a sequence of filtered entries: each kept
/// line's index paired with its span models.
pub open spec fn entry_models(v: Seq<(usize, Vec<Span>)>) -> Seq<(int, Seq<(int, int, bool)>)> {
    v.map_values(|p: (usize, Vec<Span>)| (p.0 as int, span_models(p.1@)))
}

/// The entries that filtering a sequence of lines produces, numbering the
/// lines from `base`: for each kept line, in order, its index and its span
/// partition.
pub open spec fn kept_entries(pat: Seq<char>, lines: Seq<Seq<char>>, base: int) -> Seq<
    (int, Seq<(int, int, bool)>),
>
    decreases lines.len(),
{
    if lines.len() == 0 {
        Seq::empty()
    } else {
        let rest = kept_entries(pat, lines.drop_first(), base + 1);
        if keep_line(pat, lines[0]) {
            seq![(base, line_spans(pat, lines[0]))] + rest
        } else {
            rest
        }
    }
}

/// Appending one line to the input appends at most one entry: the new
/// line's, and only if it is kept.
pub proof fn lemma_kept_entries_push(pat: Seq<char>, lines: Seq<Seq<char>>, x: Seq<char>, base: int)
    ensures
        kept_entries(pat, lines.push(x), base) == kept_entries(pat, lines, base) + (if keep_line(
            pat,
            x,
        ) {
            seq![(base + lines.len(), line_spans(pat, x))]
        } else {
            Seq::empty()
        }),
    decreases lines.len(),
{
    let tail: Seq<(int, Seq<(int, int, bool)>)> = if keep_line(pat, x) {
        seq![(base + lines.len(), line_spans(pat, x))]
    } else {
        Seq::empty()
    };
    if lines.len() == 0 {
        assert(lines.push(x).drop_first() =~= Seq::<Seq<char>>::empty());
        assert(lines.push(x)[0] == x);
        assert(kept_entries(pat, Seq::<Seq<char>>::empty(), base + 1) == Seq::<
            (int, Seq<(int, int, bool)>),
        >::empty());
        assert(kept_entries(pat, lines.push(x), base) =~= kept_entries(pat, lines, base) + tail);
    } else {
        assert(lines.push(x).drop_first() =~= lines.drop_first().push(x));
        assert(lines.push(x)[0] == lines[0]);
        lemma_kept_entries_push(pat, lines.drop_first(), x, base + 1);
        assert(base + 1 + lines.drop_first().len() == base + lines.len());
        assert(kept_entries(pat, lines.push(x), base) =~= kept_entries(pat, lines, base) + tail);
    }
}

/// Filter a sequence of lines by a pattern: for each line that is non-empty
/// and has at least one match, in order, return its index together with its
/// span partition; all other lines produce nothing.
pub fn filter_lines(pattern: &Pattern, lines: &Vec<String>) -> (r: Vec<(usize, Vec<Span>)>)
    ensures
        entry_models(r@) == kept_entries(
            pattern.pat(),
            lines@.map_values(|l: String| l@),
            0,
        ),
{
    let ghost lv = lines@.map_values(|l: String| l@);
    let mut out: Vec<(usize, Vec<Span>)> = Vec::new();
    let mut i: usize = 0;
    proof {
        assert(lv.take(0) =~= Seq::<Seq<char>>::empty());
        assert(entry_models(out@) =~= kept_entries(pattern.pat(), lv.take(0), 0));
    }
    while i < lines.len()
        invariant
            lv == lines@.map_values(|l: String| l@),
            i <= lines.len(),
            entry_models(out@) == kept_entries(pattern.pat(), lv.take(i as int), 0),
        decreases lines.len() - i,
    {
        proof {
            assert(lv[i as int] == lines@[i as int]@);
        }
        let ghost before = entry_models(out@);
        match pattern.partition(lines[i].as_str()) {
            Some(sp) => {
                let ghost spm = span_models(sp@);
                out.push((i, sp));
                proof {
                    assert(entry_models(out@) =~= before.push((i as int, spm)));
                }
            },
            None => {},
        }
        proof {
            assert(lv.take(i as int + 1) =~= lv.take(i as int).push(lv[i as int]));
            lemma_kept_entries_push(pattern.pat(), lv.take(i as int), lv[i as int], 0);
            assert(entry_models(out@) =~= kept_entries(pattern.pat(), lv.take(i as int + 1), 0));
        }
        i = i + 1;
    }
    proof {
        assert(lv.take(lines.len() as int) =~= lv);
    }
    out
}

} // verus!
