use regect::engine::Matcher;
use regect::highlight::highlight;
use regect::scan::find_spans;
use regect::span::{check_spans, MatchSpan};
use regex::Regex;

const BODIES: [&str; 9] = [
    "",
    "a",
    "b",
    "aab",
    "baab abba",
    "xabxab",
    "one two\nthree\n\nfour",
    "héllo wörld, ça va? €5 😀😀",
    "αβγ αβ α",
];

const PATTERNS: [&str; 18] = [
    "a",
    "ab",
    "a*",
    "a+",
    "a?",
    "x*",
    "a|(?:)",
    "(?:)|a",
    r"\b",
    r"\B",
    "^",
    "$",
    "(?m)^",
    "(?m)$",
    r"\w+",
    r"\s*",
    r"\p{Greek}*",
    ".",
];

#[test]
fn scan_finds_what_the_engine_iterates_over_but_for_empty_matches() {
    for pattern in PATTERNS {
        let engine = Regex::new(pattern).unwrap();
        let matcher = Matcher::compile(pattern).unwrap();
        for body in BODIES {
            let expected: Vec<MatchSpan> = engine
                .find_iter(body)
                .filter(|found| found.start() < found.end())
                .map(|found| MatchSpan { start: found.start(), end: found.end() })
                .collect();
            assert_eq!(find_spans(&matcher, body), expected, "{:?} in {:?}", pattern, body);
        }
    }
}

#[test]
fn scan_gives_spans_in_order() {
    for pattern in PATTERNS {
        let matcher = Matcher::compile(pattern).unwrap();
        for body in BODIES {
            let spans = find_spans(&matcher, body);
            assert!(check_spans(body, &spans));
            assert!(spans.len() <= body.len());
        }
    }
}

#[test]
fn matched_runs_hold_exactly_the_bytes_that_the_engine_matches() {
    for pattern in PATTERNS {
        let engine = Regex::new(pattern).unwrap();
        for body in BODIES {
            let mut expected = vec![false; body.len()];
            for found in engine.find_iter(body) {
                for offset in found.start()..found.end() {
                    expected[offset] = true;
                }
            }
            let mut shown = vec![false; body.len()];
            for run in highlight(pattern, body) {
                for offset in run.start..run.end {
                    shown[offset] = run.matched;
                }
            }
            assert_eq!(shown, expected, "{:?} in {:?}", pattern, body);
        }
    }
}

#[test]
fn compile_agrees_with_the_engine_on_what_is_a_pattern() {
    for pattern in ["a", "(", ")", "[", "a{2}", "a{2,1}", r"\d", r"\y", "(?i)a", "(?P<x>a)", r"\w{1000}"] {
        assert_eq!(
            Matcher::compile(pattern).is_some(),
            Regex::new(pattern).is_ok(),
            "{:?}",
            pattern
        );
    }
}
