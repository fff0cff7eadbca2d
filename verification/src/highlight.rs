//! The highlight engine: from a matcher and a body to styled runs.

use crate::engine::{compiles, leftmost_match, pattern_of, selected, Matcher};
use crate::runs::{
    faithful, joined, laid_out, lemma_rendering, merge_runs, plain_run, rendering, tiles, views,
    RunView, StyledRun,
};
use crate::scan::{all_spans, find_spans, lemma_scan_in_order};
use crate::text::{byte_len, lemma_whole_text};
use vstd::prelude::*;

verus! {

/// The runs that show `text` under a matcher compiled from `pattern`, or
/// under no matcher at all.
pub open spec fn highlighted(pattern: Option<Seq<char>>, text: Seq<char>) -> Seq<RunView> {
    match pattern {
        None => seq![plain_run(text)],
        Some(pattern) => rendering(text, all_spans(pattern, text)),
    }
}

/// Whether each run of `runs` ends before any later one begins.
pub open spec fn runs_ascend(runs: Seq<RunView>) -> bool {
    forall|i: int, j: int|
        0 <= i < j < runs.len()
            ==> (#[trigger] runs[i]).start < runs[i].end <= (#[trigger] runs[j]).start
}

/// Renders `body`: without a matcher as one plain run, with one as the runs
/// that its matches cut the body into.
pub fn render<'a>(matcher: Option<&Matcher>, body: &'a str) -> (runs: Vec<StyledRun<'a>>)
    ensures
        views(runs@) == highlighted(pattern_of(matcher), body@),
        joined(views(runs@)) == body@,
        runs_ascend(views(runs@)),
        1 <= runs.len(),
        runs.len() <= byte_len(body@) || runs.len() == 1,
{
    proof {
        lemma_highlighted(pattern_of(matcher), body@);
        run_count_is_bounded(pattern_of(matcher), body@);
    }
    match matcher {
        None => {
            let mut runs: Vec<StyledRun<'a>> = Vec::new();
            let end = body.as_bytes().len();
            runs.push(StyledRun { text: body, start: 0, end, matched: false });
            assert(views(runs@) =~= seq![plain_run(body@)]);
            runs
        },
        Some(matcher) => {
            let spans = find_spans(matcher, body);
            merge_runs(body, &spans)
        },
    }
}

/// Renders `body` under `pattern` in one call.
pub fn highlight<'a>(pattern: &str, body: &'a str) -> (runs: Vec<StyledRun<'a>>)
    ensures
        views(runs@) == highlighted(selected(pattern@), body@),
        joined(views(runs@)) == body@,
        runs_ascend(views(runs@)),
{
    let matcher = Matcher::compile(pattern);
    render(matcher.as_ref(), body)
}

/// Reconstruction: whatever the pattern and the body, and whether or not
/// there is a matcher, the texts of the runs joined in order are the body.
pub proof fn reconstruction(pattern: Option<Seq<char>>, text: Seq<char>)
    ensures
        joined(highlighted(pattern, text)) == text,
{
    lemma_highlighted(pattern, text);
}

/// Span ordering: every run holds the bytes from its start up to its end,
/// and ends before any later run begins. So the offsets of the matched runs
/// strictly increase, and no two runs overlap.
pub proof fn runs_never_overlap(pattern: Option<Seq<char>>, text: Seq<char>)
    ensures
        runs_ascend(highlighted(pattern, text)),
{
    lemma_highlighted(pattern, text);
}

/// A body that holds at least one byte is tiled from end to end by runs
/// that hold at least one byte each and alternate in their tag: no two
/// neighbours are both matched or both plain.
pub proof fn runs_tile_the_body(pattern: Option<Seq<char>>, text: Seq<char>)
    requires
        byte_len(text) > 0,
    ensures
        tiles(text, highlighted(pattern, text)),
        highlighted(pattern, text).last().end == byte_len(text),
{
    lemma_highlighted(pattern, text);
}

/// What holds of the runs of every body under every pattern, compiled or not:
/// there is at least one run, the runs joined are the body, every run ends
/// before any later one begins, and a body that holds at least one byte is
/// tiled by runs that hold at least one byte each and alternate in their tag.
pub proof fn lemma_highlighted(pattern: Option<Seq<char>>, text: Seq<char>)
    ensures
        highlighted(pattern, text).len() >= 1,
        joined(highlighted(pattern, text)) == text,
        runs_ascend(highlighted(pattern, text)),
        byte_len(text) > 0 ==> tiles(text, highlighted(pattern, text)),
        highlighted(pattern, text).last().end == byte_len(text),
{
    let runs = highlighted(pattern, text);
    match pattern {
        None => {
            assert(runs.drop_last() =~= Seq::<RunView>::empty());
            assert(joined(runs.drop_last()) =~= Seq::<char>::empty());
            assert(joined(runs) =~= text);
            if byte_len(text) > 0 {
                lemma_rendering(text, Seq::empty());
                lemma_whole_text(text);
                assert(rendering(text, Seq::empty()) =~= runs);
            }
        },
        Some(pattern) => {
            lemma_scan_in_order(pattern, text, 0);
            lemma_rendering(text, all_spans(pattern, text));
        },
    }
    assert forall|i: int, j: int| 0 <= i < j < runs.len()
        implies (#[trigger] runs[i]).start < runs[i].end <= (#[trigger] runs[j]).start
    by {
        lemma_tiles_ascend(text, runs, i, j);
    }
}

/// A pattern that does not compile has no matcher, and without a matcher
/// the body is shown as a single plain run that holds all of it, whatever
/// the body is.
pub proof fn invalid_pattern_passes_through(pattern: Seq<char>, text: Seq<char>)
    requires
        !compiles(pattern),
    ensures
        selected(pattern) is None,
        highlighted(selected(pattern), text) == seq![plain_run(text)],
        plain_run(text).text == text,
        !plain_run(text).matched,
{
}

/// A body in which the scan records no span is shown as a single plain run
/// that holds all of it.
pub proof fn no_span_passes_through(pattern: Seq<char>, text: Seq<char>)
    requires
        all_spans(pattern, text).len() == 0,
    ensures
        highlighted(Some(pattern), text) == seq![plain_run(text)],
{
    let spans = all_spans(pattern, text);
    lemma_whole_text(text);
    assert(laid_out(text, spans) =~= Seq::<RunView>::empty());
    assert(rendering(text, spans) =~= seq![plain_run(text)]);
}

/// A body in which the engine finds no match at all is shown as a single
/// plain run that holds all of it.
pub proof fn no_match_passes_through(pattern: Seq<char>, text: Seq<char>)
    requires
        leftmost_match(pattern, text, 0) is None,
    ensures
        all_spans(pattern, text).len() == 0,
        highlighted(Some(pattern), text) == seq![plain_run(text)],
{
    no_span_passes_through(pattern, text);
}

/// The tags tell the truth: under a matcher, the bytes of matched runs are
/// exactly the bytes inside the spans that the scan records; without one,
/// no run is matched.
pub proof fn tags_are_faithful(pattern: Seq<char>, text: Seq<char>)
    ensures
        faithful(highlighted(Some(pattern), text), all_spans(pattern, text)),
        forall|i: int|
            0 <= i < highlighted(None, text).len()
                ==> !(#[trigger] highlighted(None, text)[i]).matched,
{
    lemma_scan_in_order(pattern, text, 0);
    lemma_rendering(text, all_spans(pattern, text));
}

/// There are never more runs than the body has bytes, but for the one run
/// that shows an empty body.
pub proof fn run_count_is_bounded(pattern: Option<Seq<char>>, text: Seq<char>)
    ensures
        highlighted(pattern, text).len() <= byte_len(text)
            || highlighted(pattern, text).len() == 1,
{
    let runs = highlighted(pattern, text);
    lemma_highlighted(pattern, text);
    if byte_len(text) > 0 {
        lemma_tiles_count(text, runs, runs.len() - 1);
    }
}

/// In a tiling the run at index `i` ends at offset `i + 1` or later.
pub proof fn lemma_tiles_count(text: Seq<char>, runs: Seq<RunView>, i: int)
    requires
        tiles(text, runs),
        0 <= i < runs.len(),
    ensures
        runs[i].end >= i + 1,
    decreases i,
{
    if i > 0 {
        lemma_tiles_count(text, runs, i - 1);
        assert(runs[i - 1].end == runs[i].start);
    }
    assert(runs[i].start < runs[i].end);
}

/// In a tiling a run ends before any later run begins.
pub proof fn lemma_tiles_ascend(text: Seq<char>, runs: Seq<RunView>, i: int, j: int)
    requires
        tiles(text, runs),
        0 <= i < j < runs.len(),
    ensures
        runs[i].start < runs[i].end <= runs[j].start,
    decreases j - i,
{
    if i + 1 < j {
        lemma_tiles_ascend(text, runs, i + 1, j);
        assert(runs[i + 1].start < runs[i + 1].end);
    }
    assert(runs[i].end == runs[i + 1].start);
}

} // verus!
