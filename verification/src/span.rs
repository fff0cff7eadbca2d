//! Match spans: where in the body the pattern matched.

use crate::text::{byte_len, on_boundary};
use vstd::prelude::*;

verus! {

/// One match, as the half-open range of byte offsets `start..end` into the body.
#[derive(Clone, Copy, Debug, PartialEq, Eq, Structural)]
pub struct MatchSpan {
    pub start: usize,
    pub end: usize,
}

impl MatchSpan {
    /// Whether the span delimits a piece of `text`: it runs forwards, ends
    /// inside the text, and both of its ends lie on character boundaries.
    pub open spec fn fits(self, text: Seq<char>) -> bool {
        &&& self.start <= self.end
        &&& on_boundary(text, self.start as int)
        &&& on_boundary(text, self.end as int)
    }

    /// Whether byte offset `offset` lies inside the span.
    pub open spec fn covers(self, offset: int) -> bool {
        self.start <= offset < self.end
    }

    /// Whether the span holds no byte at all.
    pub fn is_empty(&self) -> (empty: bool)
        ensures
            empty == (self.start >= self.end),
    {
        self.start >= self.end
    }
}

/// Whether `spans` is a list of matches as a left-to-right scan of `text`
/// produces them: each fits the text, and none begins before an earlier one
/// has ended.
pub open spec fn spans_in_order(text: Seq<char>, spans: Seq<MatchSpan>) -> bool {
    &&& forall|i: int| 0 <= i < spans.len() ==> (#[trigger] spans[i]).fits(text)
    &&& forall|i: int, j: int|
        0 <= i < j < spans.len() ==> (#[trigger] spans[i]).end <= (#[trigger] spans[j]).start
}

/// Whether some span of `spans` covers byte offset `offset`.
pub open spec fn covered(spans: Seq<MatchSpan>, offset: int) -> bool {
    exists|i: int| 0 <= i < spans.len() && (#[trigger] spans[i]).covers(offset)
}

/// A beginning of a list of spans in order is in order.
pub proof fn lemma_in_order_prefix(text: Seq<char>, spans: Seq<MatchSpan>, count: int)
    requires
        spans_in_order(text, spans),
        0 <= count <= spans.len(),
    ensures
        spans_in_order(text, spans.take(count)),
{
    let prefix = spans.take(count);
    assert forall|i: int| 0 <= i < prefix.len() implies (#[trigger] prefix[i]).fits(text) by {
        assert(spans[i].fits(text));
    }
    assert forall|i: int, j: int| 0 <= i < j < prefix.len()
        implies (#[trigger] prefix[i]).end <= (#[trigger] prefix[j]).start
    by {
        assert(spans[i].end <= spans[j].start);
    }
}

/// Tells whether `spans` is a list that a scan of `body` could have produced.
pub fn check_spans(body: &str, spans: &Vec<MatchSpan>) -> (ok: bool)
    ensures
        ok == spans_in_order(body@, spans@),
{
    let len = body.as_bytes().len();
    let mut floor: usize = 0;
    let mut i: usize = 0;
    while i < spans.len()
        invariant
            i <= spans.len(),
            len == byte_len(body@),
            spans_in_order(body@, spans@.take(i as int)),
            forall|k: int| 0 <= k < i ==> (#[trigger] spans@[k]).end <= floor,
            floor == (if i == 0 { 0 } else { spans@[i - 1].end }),
        decreases spans.len() - i,
    {
        let span = spans[i];
        let fits = span.start <= span.end && span.end <= len
            && body.is_char_boundary(span.start) && body.is_char_boundary(span.end);
        if !(fits && floor <= span.start) {
            proof {
                if spans_in_order(body@, spans@) {
                    assert(spans@[i as int].fits(body@));
                    if span.start < floor {
                        assert(spans@[i - 1].end <= spans@[i as int].start);
                    }
                }
            }
            return false;
        }
        proof {
            let before = spans@.take(i as int);
            let after = spans@.take(i + 1);
            assert forall|k: int| 0 <= k < after.len()
                implies (#[trigger] after[k]).fits(body@)
            by {
                if k < i {
                    assert(before[k].fits(body@));
                }
            }
            assert forall|j: int, k: int| 0 <= j < k < after.len()
                implies (#[trigger] after[j]).end <= (#[trigger] after[k]).start
            by {
                if k < i {
                    assert(before[j].end <= before[k].start);
                } else {
                    assert(spans@[j].end <= floor);
                }
            }
        }
        floor = span.end;
        i = i + 1;
    }
    proof {
        assert(spans@.take(i as int) =~= spans@);
    }
    true
}

} // verus!
