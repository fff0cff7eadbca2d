//! The scan: all matches of a pattern in a body, left to right.
//!
//! The engine is asked for one match at a time. A match that holds at least
//! one byte is taken, and the search resumes where it ends. A match of length
//! zero is never taken; the search resumes one character further on, so the
//! scan always advances and always ends.

use crate::engine::{leftmost_match, search_from, Matcher};
use crate::span::{spans_in_order, MatchSpan};
use crate::text::{byte_len, lemma_next_boundary, next_boundary, on_boundary, skip_char};
use vstd::prelude::*;
use vstd::utf8::*;

verus! {

/// What the scan does with one answer of the engine.
#[derive(Clone, Copy, Debug, PartialEq, Eq, Structural)]
pub enum ScanStep {
    /// Nothing more can match: the scan is over.
    Stop,
    /// A match of length zero: nothing is recorded, the search resumes at `resume`.
    Skip { resume: usize },
    /// A match to record; the search resumes at `resume`.
    Take { span: MatchSpan, resume: usize },
}

/// The engine's answer as a span.
pub open spec fn span_of(found: Option<(usize, usize)>) -> Option<MatchSpan> {
    match found {
        Some((start, end)) => Some(MatchSpan { start, end }),
        None => None,
    }
}

/// The step that follows from the answer `found` to a search in `text`.
pub open spec fn step_for(text: Seq<char>, found: Option<MatchSpan>) -> ScanStep {
    match found {
        None => ScanStep::Stop,
        Some(span) => if span.start < span.end {
            ScanStep::Take { span, resume: span.end }
        } else if span.start < byte_len(text) {
            ScanStep::Skip {
                resume: next_boundary(encode_utf8(text), span.start as int) as usize,
            }
        } else {
            ScanStep::Stop
        },
    }
}

/// Whether `found` can be the engine's answer to a search of `text` that
/// starts at `pos`: a match fits the text and does not begin before `pos`.
pub open spec fn answers(text: Seq<char>, pos: int, found: Option<MatchSpan>) -> bool {
    found matches Some(span) ==> span.fits(text) && pos <= span.start
}

/// The spans that a scan of `text` records from byte offset `pos` on, with a
/// matcher compiled from `pattern`.
pub open spec fn spans_from(pattern: Seq<char>, text: Seq<char>, pos: int) -> Seq<MatchSpan>
    decreases byte_len(text) - pos,
{
    let found = span_of(leftmost_match(pattern, text, pos));
    if 0 <= pos <= byte_len(text) <= usize::MAX && answers(text, pos, found) {
        match step_for(text, found) {
            ScanStep::Stop => Seq::empty(),
            ScanStep::Skip { resume } => {
                proof {
                    encode_utf8_valid_utf8(text);
                    lemma_next_boundary(encode_utf8(text), found->0.start as int);
                }
                spans_from(pattern, text, resume as int)
            },
            ScanStep::Take { span, resume } => {
                seq![span] + spans_from(pattern, text, resume as int)
            },
        }
    } else {
        Seq::empty()
    }
}

/// All spans that a scan of `text` records.
pub open spec fn all_spans(pattern: Seq<char>, text: Seq<char>) -> Seq<MatchSpan> {
    spans_from(pattern, text, 0)
}

/// Decides what the scan does with the engine's answer `found` to a search
/// in `body`.
pub fn scan_step(body: &str, found: Option<MatchSpan>) -> (step: ScanStep)
    ensures
        step == step_for(body@, found),
        step matches ScanStep::Skip { resume } ==> {
            &&& found->0.start < resume <= byte_len(body@)
            &&& on_boundary(body@, resume as int)
        },
{
    match found {
        None => ScanStep::Stop,
        Some(span) => {
            if span.start < span.end {
                ScanStep::Take { span, resume: span.end }
            } else if span.start < body.as_bytes().len() {
                ScanStep::Skip { resume: skip_char(body, span.start) }
            } else {
                ScanStep::Stop
            }
        },
    }
}

/// Finds every match of `matcher` in `body` that holds at least one byte,
/// from left to right. The scan ends whatever the pattern is, also where it
/// matches the empty string: every step resumes further on in the body.
pub fn find_spans(matcher: &Matcher, body: &str) -> (spans: Vec<MatchSpan>)
    ensures
        spans@ == all_spans(matcher@, body@),
        spans_in_order(body@, spans@),
        forall|i: int| 0 <= i < spans.len() ==> (#[trigger] spans[i]).start < spans[i].end,
        spans.len() <= byte_len(body@),
{
    let len = body.as_bytes().len();
    let mut spans: Vec<MatchSpan> = Vec::new();
    let mut pos: usize = 0;
    let mut scanning = true;
    while scanning
        invariant
            len == byte_len(body@),
            pos <= len,
            spans_in_order(body@, spans@),
            forall|i: int| 0 <= i < spans.len() ==> (#[trigger] spans[i]).start < spans[i].end,
            forall|i: int| 0 <= i < spans.len() ==> (#[trigger] spans[i]).end <= pos,
            scanning ==> spans@ + spans_from(matcher@, body@, pos as int)
                == all_spans(matcher@, body@),
            !scanning ==> spans@ == all_spans(matcher@, body@),
        decreases len - pos + (if scanning { 1int } else { 0int }),
    {
        let found = match search_from(matcher, body, pos) {
            Some((start, end)) => Some(MatchSpan { start, end }),
            None => None,
        };
        match scan_step(body, found) {
            ScanStep::Stop => {
                scanning = false;
            },
            ScanStep::Skip { resume } => {
                pos = resume;
            },
            ScanStep::Take { span, resume } => {
                proof {
                    assert((spans@.push(span)) + spans_from(matcher@, body@, resume as int)
                        =~= spans@ + (seq![span] + spans_from(matcher@, body@, resume as int)));
                }
                spans.push(span);
                pos = resume;
            },
        }
    }
    proof {
        lemma_scan_in_order(matcher@, body@, 0);
    }
    spans
}

/// Whatever the engine answers, the spans of a scan are in order, hold at
/// least one byte each, and begin no earlier than the scan did. There are no
/// more of them than bytes are left to scan.
pub proof fn lemma_scan_in_order(pattern: Seq<char>, text: Seq<char>, pos: int)
    ensures
        spans_in_order(text, spans_from(pattern, text, pos)),
        forall|i: int|
            0 <= i < spans_from(pattern, text, pos).len()
                ==> pos <= (#[trigger] spans_from(pattern, text, pos)[i]).start
                    < spans_from(pattern, text, pos)[i].end,
        spans_from(pattern, text, pos).len() > 0 ==> spans_from(pattern, text, pos).len()
            <= byte_len(text) - pos,
    decreases byte_len(text) - pos,
{
    let found = span_of(leftmost_match(pattern, text, pos));
    if 0 <= pos <= byte_len(text) <= usize::MAX && answers(text, pos, found) {
        match step_for(text, found) {
            ScanStep::Stop => {},
            ScanStep::Skip { resume } => {
                encode_utf8_valid_utf8(text);
                lemma_next_boundary(encode_utf8(text), found->0.start as int);
                lemma_scan_in_order(pattern, text, resume as int);
            },
            ScanStep::Take { span, resume } => {
                lemma_scan_in_order(pattern, text, resume as int);
                let rest = spans_from(pattern, text, resume as int);
                let all = spans_from(pattern, text, pos);
                assert(all == seq![span] + rest);
                assert forall|i: int| 0 <= i < all.len()
                    implies (#[trigger] all[i]).fits(text) && pos <= all[i].start < all[i].end
                by {
                    if i > 0 {
                        assert(all[i] == rest[i - 1]);
                    }
                }
                assert forall|i: int, j: int| 0 <= i < j < all.len()
                    implies (#[trigger] all[i]).end <= (#[trigger] all[j]).start
                by {
                    assert(all[j] == rest[j - 1]);
                    if i > 0 {
                        assert(all[i] == rest[i - 1]);
                    }
                }
            },
        }
    }
}

} // verus!
