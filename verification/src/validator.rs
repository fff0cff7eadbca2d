//! The pattern validator: the pattern text and the matcher that goes with it.

use crate::engine::{pattern_of, selected, Matcher};
use vstd::prelude::*;

verus! {

/// Holds the pattern as the user last typed it, and the matcher compiled
/// from it where there is one. The two never disagree: the matcher is
/// compiled anew whenever the pattern changes.
pub struct Validator {
    pattern: String,
    matcher: Option<Matcher>,
}

impl View for Validator {
    type V = Seq<char>;

    /// A validator is known by the pattern text it holds.
    closed spec fn view(&self) -> Seq<char> {
        self.pattern@
    }
}

impl Validator {
    /// The pattern that the matcher held was compiled from, or `None` where
    /// no matcher is held.
    pub closed spec fn held(&self) -> Option<Seq<char>> {
        match self.matcher {
            Some(matcher) => Some(matcher@),
            None => None,
        }
    }

    /// A matcher is held exactly when the pattern has one, and it is the
    /// matcher of that pattern.
    #[verifier::type_invariant]
    spec fn consistent(&self) -> bool {
        self.held() == selected(self.pattern@)
    }

    /// A validator for the empty pattern, which has no matcher.
    pub fn new() -> (validator: Validator)
        ensures
            validator@ == Seq::<char>::empty(),
            validator.held() is None,
    {
        Validator { pattern: String::new(), matcher: None }
    }

    /// Replaces the pattern by `new_pattern` and compiles it. A pattern that
    /// does not compile is no error: the validator then holds no matcher.
    pub fn update(&mut self, new_pattern: &str)
        ensures
            final(self)@ == new_pattern@,
            final(self).held() == selected(new_pattern@),
    {
        let matcher = Matcher::compile(new_pattern);
        *self = Validator { pattern: new_pattern.to_owned(), matcher };
    }

    /// The pattern text as last set.
    pub fn pattern(&self) -> (text: &str)
        ensures
            text@ == self@,
    {
        self.pattern.as_str()
    }

    /// The matcher for the current pattern, if the pattern has one.
    pub fn matcher(&self) -> (matcher: Option<&Matcher>)
        ensures
            pattern_of(matcher) == self.held(),
            self.held() == selected(self@),
    {
        proof {
            use_type_invariant(self);
        }
        self.matcher.as_ref()
    }

    /// Whether the current pattern has a matcher.
    pub fn is_valid(&self) -> (valid: bool)
        ensures
            valid == self.held() is Some,
            self.held() == selected(self@),
    {
        proof {
            use_type_invariant(self);
        }
        self.matcher.is_some()
    }
}

} // verus!
