//! The boundary to the pattern engine.
//!
//! Everything the rest of the crate knows about regular expressions is stated
//! here, as contracts that are believed rather than proved.

use regex::Regex;
use vstd::prelude::*;
use vstd::utf8::*;

verus! {

/// The engine's compiled regular expression, carried through as an opaque value.
#[verifier::external_type_specification]
#[verifier::external_body]
pub struct ExRegex(Regex);

/// Whether the engine accepts `pattern`: the outcome of `Regex::new`.
pub uninterp spec fn compiles(pattern: Seq<char>) -> bool;

/// The leftmost match that a regex compiled from `pattern` finds in
/// `haystack` when the search starts at byte offset `start`: the byte offsets
/// that `Regex::find_at` reports, or `None` where it finds nothing.
pub uninterp spec fn leftmost_match(pattern: Seq<char>, haystack: Seq<char>, start: int) -> Option<(usize, usize)>;

/// A compiled pattern together with the text it was compiled from.
///
/// The fields are private and only `compile_pattern` builds a matcher, so
/// the engine held is always the one compiled from `source`. What this
/// module claims of a search rests on that pairing.
pub struct Matcher {
    source: String,
    engine: Regex,
}

impl View for Matcher {
    type V = Seq<char>;

    /// A matcher is known by the pattern text it was compiled from.
    closed spec fn view(&self) -> Seq<char> {
        self.source@
    }
}

/// The pattern that a matcher for `pattern` is compiled from, if there is to
/// be a matcher: an empty pattern gets none, nor does one that the engine rejects.
pub open spec fn selected(pattern: Seq<char>) -> Option<Seq<char>> {
    if pattern.len() > 0 && compiles(pattern) {
        Some(pattern)
    } else {
        None
    }
}

/// The pattern behind a matcher that may be absent.
pub open spec fn pattern_of(matcher: Option<&Matcher>) -> Option<Seq<char>> {
    match matcher {
        Some(matcher) => Some(matcher@),
        None => None,
    }
}

impl Matcher {
    /// Compiles `pattern`. There is no matcher for the empty pattern, and
    /// none for a pattern that the engine rejects; neither is an error.
    pub fn compile(pattern: &str) -> (compiled: Option<Matcher>)
        ensures
            match compiled {
                Some(matcher) => selected(pattern@) == Some(matcher@),
                None => selected(pattern@) is None,
            },
    {
        if pattern.is_empty() {
            None
        } else {
            compile_pattern(pattern)
        }
    }

    /// The pattern text that the matcher was compiled from.
    pub fn source(&self) -> (text: &str)
        ensures
            text@ == self@,
    {
        self.source.as_str()
    }
}

/// Calls `Regex::new`. Claims that the call succeeds exactly on the patterns
/// that `compiles` holds of, and that the matcher handed back stands for the
/// pattern that was passed in.
#[verifier::external_body]
fn compile_pattern(pattern: &str) -> (compiled: Option<Matcher>)
    ensures
        compiled is Some <==> compiles(pattern@),
        compiled is Some ==> compiled->0@ == pattern@,
{
    match Regex::new(pattern) {
        Ok(engine) => Some(Matcher { source: pattern.to_owned(), engine }),
        Err(_) => None,
    }
}

/// Calls `Regex::find_at`, which panics where `start` lies beyond the end of
/// the haystack. Claims that the offsets are those that `leftmost_match`
/// names, that the match lies between `start` and the end of the haystack,
/// and that both of its ends fall on character boundaries.
#[verifier::external_body]
pub(crate) fn search_from(matcher: &Matcher, haystack: &str, start: usize) -> (found: Option<(usize, usize)>)
    requires
        start <= encode_utf8(haystack@).len(),
    ensures
        found == leftmost_match(matcher@, haystack@, start as int),
        found matches Some((s, e)) ==> {
            &&& start <= s <= e <= encode_utf8(haystack@).len()
            &&& is_char_boundary(encode_utf8(haystack@), s as int)
            &&& is_char_boundary(encode_utf8(haystack@), e as int)
        },
{
    matcher.engine.find_at(haystack, start).map(|m| (m.start(), m.end()))
}

} // verus!
