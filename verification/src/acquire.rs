//! Input acquisition: turning the full text of an input into the ordered
//! sequence of lines the highlighter works on, each trimmed of surrounding
//! whitespace. Reading the text itself (a file, standard input) is I/O and
//! stays outside the library; this module owns the pure part.

use vstd::prelude::*;

verus! {

/// `s` with its leading and trailing whitespace removed: a function of the
/// characters alone.
pub uninterp spec fn trimmed(s: Seq<char>) -> Seq<char>;

/// The lines of a text, split at line endings, without the terminators: a
/// function of the characters alone.
pub uninterp spec fn split_lines(text: Seq<char>) -> Seq<Seq<char>>;

/// Relies on str::trim: it returns the string with leading and trailing
/// whitespace removed, a subslice of its input.
#[verifier::external_body]
fn trim_str<'a>(s: &'a str) -> (r: &'a str)
    ensures
        r@ == trimmed(s@),
        r@.len() <= s@.len(),
{
    s.trim()
}

/// Relies on str::lines: it yields the lines of the text, split at line
/// endings and without the terminators, and yields nothing for an empty
/// text.
#[verifier::external_body]
fn lines_raw(text: &str) -> (r: Vec<String>)
    ensures
        r@.map_values(|l: String| l@) == split_lines(text@),
        text@.len() == 0 ==> r@.len() == 0,
{
    text.lines().map(|l| l.to_owned()).collect()
}

/// Split a full input text into its lines and trim surrounding whitespace
/// from each: the ordered line sequence that file-mode acquisition hands to
/// the highlighter. The result is a function of the text alone, so reading
/// an unmodified file twice yields identical line sequences.
pub fn split_trimmed_lines(text: &str) -> (r: Vec<String>)
    ensures
        r@.map_values(|l: String| l@) == split_lines(text@).map_values(|l: Seq<char>| trimmed(l)),
{
    let ghost target = split_lines(text@).map_values(|l: Seq<char>| trimmed(l));
    let raw = lines_raw(text);
    let mut out: Vec<String> = Vec::new();
    let mut i: usize = 0;
    proof {
        assert(out@.map_values(|l: String| l@) =~= target.take(0));
    }
    while i < raw.len()
        invariant
            target == split_lines(text@).map_values(|l: Seq<char>| trimmed(l)),
            raw@.map_values(|l: String| l@) == split_lines(text@),
            i <= raw.len(),
            out@.map_values(|l: String| l@) == target.take(i as int),
        decreases raw.len() - i,
    {
        let ghost before = out@.map_values(|l: String| l@);
        let t = trim_str(raw[i].as_str());
        proof {
            assert(raw@[i as int]@ == split_lines(text@)[i as int]);
            assert(target[i as int] == trimmed(split_lines(text@)[i as int]));
        }
        out.push(t.to_owned());
        proof {
            assert(out@.map_values(|l: String| l@) =~= before.push(t@));
            assert(target.take(i as int + 1) =~= target.take(i as int).push(target[i as int]));
        }
        i = i + 1;
    }
    proof {
        assert(target.take(raw.len() as int) =~= target);
    }
    out
}

} // verus!
