//! Styled runs: the body cut into matched and plain pieces.

use crate::span::{covered, lemma_in_order_prefix, spans_in_order, MatchSpan};
use crate::text::{
    byte_len, byte_slice, chars_between, lemma_empty_piece, lemma_ends_are_boundaries,
    lemma_pieces_concat, lemma_whole_text, on_boundary,
};
use vstd::prelude::*;

verus! {

/// A piece of the body, tagged as matched or plain.
#[derive(Clone, Copy, Debug, PartialEq, Eq)]
pub struct StyledRun<'a> {
    /// The text of the piece.
    pub text: &'a str,
    /// The byte offset in the body at which the piece begins.
    pub start: usize,
    /// The byte offset in the body at which the piece ends.
    pub end: usize,
    /// Whether the piece belongs to a match.
    pub matched: bool,
}

/// What a styled run stands for: a range of byte offsets, the characters
/// found there, and the tag.
pub struct RunView {
    pub start: int,
    pub end: int,
    pub text: Seq<char>,
    pub matched: bool,
}

impl<'a> View for StyledRun<'a> {
    type V = RunView;

    open spec fn view(&self) -> RunView {
        RunView {
            start: self.start as int,
            end: self.end as int,
            text: self.text@,
            matched: self.matched,
        }
    }
}

/// The views of a list of runs.
pub open spec fn views(runs: Seq<StyledRun>) -> Seq<RunView> {
    Seq::new(runs.len(), |i: int| runs[i]@)
}

/// The run that shows the bytes `start..end` of `text`.
pub open spec fn run_over(text: Seq<char>, start: int, end: int, matched: bool) -> RunView {
    RunView { start, end, text: chars_between(text, start, end), matched }
}

/// The offset up to which `runs` cover the body.
pub open spec fn covered_upto(runs: Seq<RunView>) -> int {
    if runs.len() == 0 {
        0
    } else {
        runs.last().end
    }
}

/// `runs`, grown to cover the body up to `upto` by a piece tagged `matched`.
/// Nothing is added where `runs` reach that far already, and a piece with the
/// tag of the last run lengthens that run.
pub open spec fn extended(
    text: Seq<char>,
    runs: Seq<RunView>,
    upto: int,
    matched: bool,
) -> Seq<RunView> {
    if upto <= covered_upto(runs) {
        runs
    } else if runs.len() > 0 && runs.last().matched == matched {
        runs.drop_last().push(run_over(text, runs.last().start, upto, matched))
    } else {
        runs.push(run_over(text, covered_upto(runs), upto, matched))
    }
}

/// The runs that cover `text` from its start to the end of the last of
/// `spans`: plain up to each span, matched inside it.
pub open spec fn laid_out(text: Seq<char>, spans: Seq<MatchSpan>) -> Seq<RunView>
    decreases spans.len(),
{
    if spans.len() == 0 {
        Seq::empty()
    } else {
        let span = spans.last();
        extended(
            text,
            extended(text, laid_out(text, spans.drop_last()), span.start as int, false),
            span.end as int,
            true,
        )
    }
}

/// The single plain run that shows all of `text`.
pub open spec fn plain_run(text: Seq<char>) -> RunView {
    RunView { start: 0, end: byte_len(text) as int, text, matched: false }
}

/// The runs that show `text` with `spans` highlighted.
pub open spec fn rendering(text: Seq<char>, spans: Seq<MatchSpan>) -> Seq<RunView> {
    let runs = extended(text, laid_out(text, spans), byte_len(text) as int, false);
    if runs.len() == 0 {
        seq![plain_run(text)]
    } else {
        runs
    }
}

/// The text of `runs`, one after the other.
pub open spec fn joined(runs: Seq<RunView>) -> Seq<char>
    decreases runs.len(),
{
    if runs.len() == 0 {
        Seq::empty()
    } else {
        joined(runs.drop_last()) + runs.last().text
    }
}

/// Whether `runs` cut a beginning of `text` into pieces: each run holds at
/// least one byte and shows the text found at its offsets, the first begins
/// at offset 0, each begins where the one before it ends, and neighbours
/// differ in their tag.
pub open spec fn tiles(text: Seq<char>, runs: Seq<RunView>) -> bool {
    &&& forall|i: int|
        0 <= i < runs.len() ==> {
            let run = #[trigger] runs[i];
            &&& run.start < run.end
            &&& on_boundary(text, run.start)
            &&& on_boundary(text, run.end)
            &&& run.text == chars_between(text, run.start, run.end)
        }
    &&& runs.len() > 0 ==> runs[0].start == 0
    &&& forall|i: int|
        0 <= i < runs.len() - 1 ==> (#[trigger] runs[i]).end == runs[i + 1].start
            && runs[i].matched != runs[i + 1].matched
}

/// Whether the tags of `runs` tell the truth about `spans`: every byte of a
/// matched run lies in some span, and no byte of a plain run does.
pub open spec fn faithful(runs: Seq<RunView>, spans: Seq<MatchSpan>) -> bool {
    forall|i: int, offset: int|
        0 <= i < runs.len() && runs[i].start <= offset < runs[i].end
            ==> (#[trigger] runs[i]).matched == #[trigger] covered(spans, offset)
}

/// Growing a tiling by one piece gives a tiling again, which reaches as far
/// as the piece does.
pub proof fn lemma_extended_tiles(text: Seq<char>, runs: Seq<RunView>, upto: int, matched: bool)
    requires
        tiles(text, runs),
        on_boundary(text, upto),
    ensures
        tiles(text, extended(text, runs, upto, matched)),
        covered_upto(extended(text, runs, upto, matched)) == if upto <= covered_upto(runs) {
            covered_upto(runs)
        } else {
            upto
        },
{
    let grown = extended(text, runs, upto, matched);
    lemma_ends_are_boundaries(text);
    if upto <= covered_upto(runs) {
    } else if runs.len() > 0 && runs.last().matched == matched {
        let n = runs.len() as int;
        assert(runs[n - 1].start < runs[n - 1].end);
        assert forall|i: int| 0 <= i < grown.len() - 1 implies {
            &&& (#[trigger] grown[i]).end == grown[i + 1].start
            &&& grown[i].matched != grown[i + 1].matched
        } by {
            assert(runs[i].end == runs[i + 1].start);
        }
    } else {
        let n = runs.len() as int;
        assert forall|i: int| 0 <= i < grown.len() - 1 implies {
            &&& (#[trigger] grown[i]).end == grown[i + 1].start
            &&& grown[i].matched != grown[i + 1].matched
        } by {
            if i < n - 1 {
                assert(runs[i].end == runs[i + 1].start);
            }
        }
    }
}

/// Growing faithful runs by a piece whose bytes all agree with its tag gives
/// faithful runs again.
pub proof fn lemma_extended_faithful(
    text: Seq<char>,
    runs: Seq<RunView>,
    spans: Seq<MatchSpan>,
    upto: int,
    matched: bool,
)
    requires
        faithful(runs, spans),
        forall|offset: int|
            covered_upto(runs) <= offset < upto ==> #[trigger] covered(spans, offset) == matched,
    ensures
        faithful(extended(text, runs, upto, matched), spans),
{
    let grown = extended(text, runs, upto, matched);
    assert forall|i: int, offset: int|
        0 <= i < grown.len() && grown[i].start <= offset < grown[i].end
        implies (#[trigger] grown[i]).matched == #[trigger] covered(spans, offset)
    by {
        if upto <= covered_upto(runs) {
        } else if i < grown.len() - 1 {
            assert(grown[i] == runs[i]);
        } else if runs.len() > 0 && runs.last().matched == matched {
            let last = runs.len() - 1;
            if offset < runs[last].end {
                assert(runs[last].matched == covered(spans, offset));
            }
        }
    }
}

/// Runs that are faithful to some spans stay faithful when spans are added
/// that begin no earlier than the runs end.
pub proof fn lemma_faithful_to_more(
    runs: Seq<RunView>,
    spans: Seq<MatchSpan>,
    more: Seq<MatchSpan>,
    text: Seq<char>,
)
    requires
        tiles(text, runs),
        faithful(runs, spans),
        spans.len() <= more.len(),
        spans == more.take(spans.len() as int),
        forall|k: int|
            spans.len() <= k < more.len() ==> covered_upto(runs) <= (#[trigger] more[k]).start,
    ensures
        faithful(runs, more),
{
    assert forall|i: int, offset: int|
        0 <= i < runs.len() && runs[i].start <= offset < runs[i].end
        implies (#[trigger] runs[i]).matched == #[trigger] covered(more, offset)
    by {
        lemma_ends_grow(text, runs, i);
        assert(runs[i].matched == covered(spans, offset));
        if covered(spans, offset) {
            let k = choose|k: int| 0 <= k < spans.len() && (#[trigger] spans[k]).covers(offset);
            assert(more[k] == spans[k]);
            assert(more[k].covers(offset));
        }
        if covered(more, offset) {
            let k = choose|k: int| 0 <= k < more.len() && (#[trigger] more[k]).covers(offset);
            assert(k < spans.len());
            assert(spans[k] == more[k]);
            assert(spans[k].covers(offset));
        }
    }
}

/// In a tiling no run ends after the last one does.
pub proof fn lemma_ends_grow(text: Seq<char>, runs: Seq<RunView>, i: int)
    requires
        tiles(text, runs),
        0 <= i < runs.len(),
    ensures
        0 <= runs[i].start < runs[i].end <= covered_upto(runs),
    decreases runs.len() - i,
{
    if i < runs.len() - 1 {
        lemma_ends_grow(text, runs, i + 1);
        assert(runs[i].end == runs[i + 1].start);
    }
}

/// The offset at which the last of `spans` ends, or 0 where there is none.
pub open spec fn last_end(spans: Seq<MatchSpan>) -> int {
    if spans.len() == 0 {
        0
    } else {
        spans.last().end as int
    }
}

/// Laying out spans that are in order gives a tiling that ends where the
/// last span ends and that is faithful to the spans.
pub proof fn lemma_laid_out(text: Seq<char>, spans: Seq<MatchSpan>)
    requires
        spans_in_order(text, spans),
    ensures
        tiles(text, laid_out(text, spans)),
        covered_upto(laid_out(text, spans)) == last_end(spans),
        faithful(laid_out(text, spans), spans),
    decreases spans.len(),
{
    if spans.len() > 0 {
        let n = spans.len() as int;
        let earlier = spans.drop_last();
        let span = spans.last();
        assert(span == spans[n - 1]);
        assert(span.fits(text));
        assert(earlier == spans.take(n - 1));
        lemma_in_order_prefix(text, spans, n - 1);
        lemma_laid_out(text, earlier);
        let before = laid_out(text, earlier);
        assert(covered_upto(before) <= span.start) by {
            if earlier.len() > 0 {
                assert(earlier.last() == spans[n - 2]);
                assert(spans[n - 2].end <= spans[n - 1].start);
            }
        }
        lemma_faithful_to_more(before, earlier, spans, text);
        assert forall|k: int| 0 <= k < n - 1
            implies (#[trigger] spans[k]).end <= covered_upto(before)
        by {
            if earlier.len() > 0 {
                assert(earlier.last() == spans[n - 2]);
                if k < n - 2 {
                    assert(spans[k].end <= spans[n - 2].start);
                    assert(spans[n - 2].fits(text));
                }
            }
        }
        let gap = extended(text, before, span.start as int, false);
        assert forall|offset: int| covered_upto(before) <= offset < span.start
            implies !(#[trigger] covered(spans, offset))
        by {
            if covered(spans, offset) {
                let k = choose|k: int| 0 <= k < spans.len() && (#[trigger] spans[k]).covers(offset);
                assert(k < n - 1);
            }
        }
        lemma_extended_tiles(text, before, span.start as int, false);
        lemma_extended_faithful(text, before, spans, span.start as int, false);
        assert forall|offset: int| covered_upto(gap) <= offset < span.end
            implies #[trigger] covered(spans, offset)
        by {
            assert(spans[n - 1].covers(offset));
        }
        lemma_extended_tiles(text, gap, span.end as int, true);
        lemma_extended_faithful(text, gap, spans, span.end as int, true);
    }
}

/// The texts of a tiling, joined, are the text from offset 0 to where the
/// tiling ends.
pub proof fn lemma_joined(text: Seq<char>, runs: Seq<RunView>)
    requires
        tiles(text, runs),
    ensures
        joined(runs) == chars_between(text, 0, covered_upto(runs)),
    decreases runs.len(),
{
    lemma_ends_are_boundaries(text);
    if runs.len() == 0 {
        lemma_empty_piece(text, 0);
    } else {
        let n = runs.len() as int;
        let earlier = runs.drop_last();
        let last = runs[n - 1];
        assert(tiles(text, earlier)) by {
            assert forall|i: int| 0 <= i < earlier.len() implies {
                let run = #[trigger] earlier[i];
                &&& run.start < run.end
                &&& on_boundary(text, run.start)
                &&& on_boundary(text, run.end)
                &&& run.text == chars_between(text, run.start, run.end)
            } by {
                assert(earlier[i] == runs[i]);
            }
            assert forall|i: int| 0 <= i < earlier.len() - 1 implies {
                &&& (#[trigger] earlier[i]).end == earlier[i + 1].start
                &&& earlier[i].matched != earlier[i + 1].matched
            } by {
                assert(runs[i].end == runs[i + 1].start);
            }
            if earlier.len() > 0 {
                assert(earlier[0] == runs[0]);
            }
        }
        lemma_joined(text, earlier);
        assert(covered_upto(earlier) == last.start) by {
            if earlier.len() > 0 {
                assert(earlier.last() == runs[n - 2]);
                assert(runs[n - 2].end == runs[n - 2 + 1].start);
            }
        }
        lemma_pieces_concat(text, 0, last.start, last.end);
    }
}

/// What holds of every rendering: it is never empty, its runs joined are the
/// text, its tags are faithful to the spans, and it tiles the whole text. An
/// empty text is rendered as one empty plain run.
pub proof fn lemma_rendering(text: Seq<char>, spans: Seq<MatchSpan>)
    requires
        spans_in_order(text, spans),
    ensures
        rendering(text, spans).len() >= 1,
        joined(rendering(text, spans)) == text,
        faithful(rendering(text, spans), spans),
        covered_upto(rendering(text, spans)) == byte_len(text),
        byte_len(text) > 0 ==> tiles(text, rendering(text, spans)),
        byte_len(text) == 0 ==> rendering(text, spans) == seq![plain_run(text)],
{
    let len = byte_len(text) as int;
    let laid = laid_out(text, spans);
    let runs = extended(text, laid, len, false);
    lemma_ends_are_boundaries(text);
    lemma_laid_out(text, spans);
    lemma_extended_tiles(text, laid, len, false);
    assert forall|offset: int| covered_upto(laid) <= offset < len
        implies !(#[trigger] covered(spans, offset))
    by {
        if covered(spans, offset) {
            let k = choose|k: int| 0 <= k < spans.len() && (#[trigger] spans[k]).covers(offset);
            if k < spans.len() - 1 {
                assert(spans[k].end <= spans[spans.len() - 1].start);
                assert(spans[spans.len() - 1].fits(text));
            }
        }
    }
    lemma_extended_faithful(text, laid, spans, len, false);
    assert(covered_upto(laid) <= len) by {
        if spans.len() > 0 {
            assert(spans[spans.len() - 1].fits(text));
        }
    }
    lemma_whole_text(text);
    if runs.len() == 0 {
        let single = seq![plain_run(text)];
        assert(single.drop_last() =~= Seq::<RunView>::empty());
        assert(joined(single.drop_last()) =~= Seq::<char>::empty());
        assert(joined(single) =~= text);
    } else {
        lemma_joined(text, runs);
    }
}

/// Grows `runs` to cover `body` up to `upto` by a piece tagged `matched`.
fn extend_runs<'a>(runs: &mut Vec<StyledRun<'a>>, body: &'a str, upto: usize, matched: bool)
    requires
        tiles(body@, views(old(runs)@)),
        on_boundary(body@, upto as int),
    ensures
        views(final(runs)@) == extended(body@, views(old(runs)@), upto as int, matched),
{
    let ghost before = views(runs@);
    let count = runs.len();
    let from = if count == 0 {
        0
    } else {
        runs[count - 1].end
    };
    if upto <= from {
        return;
    }
    proof {
        lemma_ends_are_boundaries(body@);
        if count > 0 {
            assert(before[count - 1] == runs@[count - 1]@);
        }
    }
    if count > 0 && runs[count - 1].matched == matched {
        let start = runs[count - 1].start;
        runs.pop();
        let text = byte_slice(body, start, upto);
        runs.push(StyledRun { text, start, end: upto, matched });
        assert(views(runs@) =~= before.drop_last().push(
            run_over(body@, start as int, upto as int, matched),
        ));
    } else {
        let text = byte_slice(body, from, upto);
        runs.push(StyledRun { text, start: from, end: upto, matched });
        assert(views(runs@) =~= before.push(run_over(body@, from as int, upto as int, matched)));
    }
}

/// Cuts `body` into runs: the bytes that lie in one of `spans` are matched,
/// all others are plain. A span of length zero adds nothing, runs that touch
/// and share a tag become one run, and an empty body gives one empty plain run.
pub fn merge_runs<'a>(body: &'a str, spans: &Vec<MatchSpan>) -> (runs: Vec<StyledRun<'a>>)
    requires
        spans_in_order(body@, spans@),
    ensures
        views(runs@) == rendering(body@, spans@),
        joined(views(runs@)) == body@,
        faithful(views(runs@), spans@),
{
    let len = body.as_bytes().len();
    let mut runs: Vec<StyledRun<'a>> = Vec::new();
    let mut i: usize = 0;
    proof {
        assert(views(runs@) =~= laid_out(body@, spans@.take(0)));
    }
    while i < spans.len()
        invariant
            i <= spans.len(),
            spans_in_order(body@, spans@),
            views(runs@) == laid_out(body@, spans@.take(i as int)),
        decreases spans.len() - i,
    {
        let span = spans[i];
        proof {
            let earlier = spans@.take(i as int);
            let upto_here = spans@.take(i + 1);
            assert(upto_here.drop_last() =~= earlier);
            assert(upto_here.last() == span);
            lemma_in_order_prefix(body@, spans@, i as int);
            lemma_in_order_prefix(body@, spans@, i + 1);
            lemma_laid_out(body@, earlier);
            assert(spans@[i as int].fits(body@));
            lemma_extended_tiles(body@, laid_out(body@, earlier), span.start as int, false);
        }
        extend_runs(&mut runs, body, span.start, false);
        extend_runs(&mut runs, body, span.end, true);
        i = i + 1;
    }
    proof {
        assert(spans@.take(i as int) =~= spans@);
        lemma_laid_out(body@, spans@);
        lemma_ends_are_boundaries(body@);
        lemma_rendering(body@, spans@);
    }
    extend_runs(&mut runs, body, len, false);
    if runs.len() == 0 {
        runs.push(StyledRun { text: body, start: 0, end: len, matched: false });
        assert(views(runs@) =~= seq![plain_run(body@)]);
    }
    runs
}

} // verus!
