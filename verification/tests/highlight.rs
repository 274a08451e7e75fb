use minigrep::matching::Pattern;
use minigrep::spans::Span;

fn span(start: usize, end: usize, matched: bool) -> Span {
    Span { start, end, matched }
}

#[test]
fn two_matches_alternate() {
    let p = Pattern::compile("at").unwrap();
    let spans = p.partition("the cat sat").unwrap();
    assert_eq!(
        spans,
        vec![span(0, 5, false), span(5, 7, true), span(7, 9, false), span(9, 11, true)]
    );
}

#[test]
fn spans_concatenate_to_line() {
    let p = Pattern::compile("at").unwrap();
    let line = "the cat sat";
    let spans = p.partition(line).unwrap();
    let mut joined = String::new();
    for sp in &spans {
        joined.push_str(&line[sp.start..sp.end]);
    }
    assert_eq!(joined, line);
}

#[test]
fn no_match_yields_nothing() {
    let p = Pattern::compile("xyz").unwrap();
    assert_eq!(p.partition("hello"), None);
}

#[test]
fn empty_line_yields_nothing() {
    let p = Pattern::compile("at").unwrap();
    assert_eq!(p.partition(""), None);
    let q = Pattern::compile("x*").unwrap();
    assert_eq!(q.partition(""), None);
}

#[test]
fn adjacent_matches_all_matched() {
    let p = Pattern::compile("a").unwrap();
    let spans = p.partition("aaa").unwrap();
    assert_eq!(spans, vec![span(0, 1, true), span(1, 2, true), span(2, 3, true)]);
}

#[test]
fn match_in_middle() {
    let p = Pattern::compile("cat").unwrap();
    let spans = p.partition("a cat!").unwrap();
    assert_eq!(spans, vec![span(0, 2, false), span(2, 5, true), span(5, 6, false)]);
}

#[test]
fn match_spanning_whole_line() {
    let p = Pattern::compile("cat").unwrap();
    let spans = p.partition("cat").unwrap();
    assert_eq!(spans, vec![span(0, 3, true)]);
}

#[test]
fn empty_matches_leave_line_unmatched() {
    let p = Pattern::compile("x*").unwrap();
    let spans = p.partition("b").unwrap();
    assert_eq!(spans, vec![span(0, 1, false)]);
}

#[test]
fn empty_match_after_real_match() {
    let p = Pattern::compile("a*").unwrap();
    let spans = p.partition("aab").unwrap();
    assert_eq!(spans, vec![span(0, 2, true), span(2, 3, false)]);
}

#[test]
fn offsets_are_bytes() {
    let p = Pattern::compile("b").unwrap();
    let line = "\u{e9}b";
    let spans = p.partition(line).unwrap();
    assert_eq!(spans, vec![span(0, 2, false), span(2, 3, true)]);
    assert_eq!(&line[2..3], "b");
}

#[test]
fn pieces_carry_text_and_tags() {
    let p = Pattern::compile("at").unwrap();
    let pieces = p.partition_texts("the cat sat").unwrap();
    assert_eq!(
        pieces,
        vec![("the c", false), ("at", true), (" s", false), ("at", true)]
    );
}

#[test]
fn pieces_respect_multibyte_text() {
    let p = Pattern::compile("b").unwrap();
    let pieces = p.partition_texts("\u{e9}b\u{e9}").unwrap();
    assert_eq!(pieces, vec![("\u{e9}", false), ("b", true), ("\u{e9}", false)]);
}

#[test]
fn pieces_absent_without_match() {
    let p = Pattern::compile("xyz").unwrap();
    assert_eq!(p.partition_texts("hello"), None);
    assert_eq!(p.partition_texts(""), None);
}

#[test]
fn partition_spans_emits_gaps_and_tail() {
    let spans = minigrep::spans::partition_spans(&vec![(2, 4)], 5);
    assert_eq!(spans, vec![span(0, 2, false), span(2, 4, true), span(4, 5, false)]);
}

#[test]
fn span_text_slices_by_byte_offsets() {
    assert_eq!(minigrep::spans::span_text("hello", 1, 3), "el");
    assert_eq!(minigrep::spans::span_text("\u{e9}b", 0, 2), "\u{e9}");
    assert_eq!(minigrep::spans::span_text("cat", 0, 3), "cat");
}

#[test]
fn invalid_pattern_rejected() {
    assert!(Pattern::compile("(").is_err());
    assert!(Pattern::compile("[a-").is_err());
    assert!(Pattern::compile("cat").is_ok());
}

#[test]
fn filter_keeps_matching_lines_in_order() {
    let p = Pattern::compile("at").unwrap();
    let lines = vec![
        String::from("the cat sat"),
        String::from(""),
        String::from("dog"),
        String::from("at"),
    ];
    let kept = minigrep::matching::filter_lines(&p, &lines);
    assert_eq!(kept.len(), 2);
    assert_eq!(kept[0].0, 0);
    assert_eq!(
        kept[0].1,
        vec![span(0, 5, false), span(5, 7, true), span(7, 9, false), span(9, 11, true)]
    );
    assert_eq!(kept[1].0, 3);
    assert_eq!(kept[1].1, vec![span(0, 2, true)]);
}

#[test]
fn filter_drops_everything_without_matches() {
    let p = Pattern::compile("zzz").unwrap();
    let lines = vec![String::from("the cat sat"), String::from("")];
    let kept = minigrep::matching::filter_lines(&p, &lines);
    assert_eq!(kept.len(), 0);
}
