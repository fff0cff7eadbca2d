use regect::engine::Matcher;
use regect::mode::{Action, Key, Mode};
use regect::runs::{merge_runs, StyledRun};
use regect::scan::{find_spans, scan_step, ScanStep};
use regect::span::{check_spans, MatchSpan};
use regect::text::{byte_slice, skip_char};
use regect::validator::Validator;

fn span(start: usize, end: usize) -> MatchSpan {
    MatchSpan { start, end }
}

fn run(text: &str, start: usize, matched: bool) -> StyledRun<'_> {
    StyledRun { text, start, end: start + text.len(), matched }
}

#[test]
fn toggle_switches_between_the_two_modes() {
    assert_eq!(Mode::RegexEdit.toggle(), Mode::BodyEdit);
    assert_eq!(Mode::BodyEdit.toggle(), Mode::RegexEdit);
    assert_eq!(Mode::RegexEdit.toggle().toggle(), Mode::RegexEdit);
    assert_eq!(Mode::BodyEdit.toggle().toggle(), Mode::BodyEdit);
}

#[test]
fn body_is_highlighted_only_while_the_pattern_is_edited() {
    assert!(Mode::RegexEdit.shows_highlight());
    assert!(!Mode::BodyEdit.shows_highlight());
}

#[test]
fn keys_are_dispatched_by_mode() {
    assert_eq!(Mode::RegexEdit.on_key(Key::Esc), (Mode::RegexEdit, Action::Quit));
    assert_eq!(Mode::BodyEdit.on_key(Key::Esc), (Mode::BodyEdit, Action::Quit));
    assert_eq!(Mode::RegexEdit.on_key(Key::Tab), (Mode::BodyEdit, Action::Redraw));
    assert_eq!(Mode::BodyEdit.on_key(Key::Tab), (Mode::RegexEdit, Action::Redraw));
    assert_eq!(Mode::RegexEdit.on_key(Key::Other), (Mode::RegexEdit, Action::EditPattern));
    assert_eq!(Mode::BodyEdit.on_key(Key::Other), (Mode::BodyEdit, Action::EditBody));
}

#[test]
fn new_validator_holds_the_empty_pattern_and_no_matcher() {
    let validator = Validator::new();
    assert_eq!(validator.pattern(), "");
    assert!(validator.matcher().is_none());
    assert!(!validator.is_valid());
}

#[test]
fn update_replaces_pattern_and_matcher_together() {
    let mut validator = Validator::new();
    validator.update("a+");
    assert_eq!(validator.pattern(), "a+");
    assert_eq!(validator.matcher().map(|matcher| matcher.source()), Some("a+"));
    validator.update("a+(");
    assert_eq!(validator.pattern(), "a+(");
    assert!(validator.matcher().is_none());
    validator.update("b");
    assert_eq!(validator.pattern(), "b");
    assert_eq!(validator.matcher().map(|matcher| matcher.source()), Some("b"));
    validator.update("");
    assert_eq!(validator.pattern(), "");
    assert!(validator.matcher().is_none());
}

#[test]
fn compile_accepts_what_the_engine_accepts_but_for_the_empty_pattern() {
    assert!(Matcher::compile("").is_none());
    assert!(Matcher::compile("(").is_none());
    assert!(Matcher::compile(r"\w{1000}").is_none());
    assert!(Matcher::compile("()").is_some());
    assert_eq!(Matcher::compile(r"\d+").map(|matcher| matcher.source().to_string()), Some(r"\d+".to_string()));
}

#[test]
fn find_spans_reports_byte_offsets_in_order() {
    let matcher = Matcher::compile("ab").unwrap();
    assert_eq!(find_spans(&matcher, "xabxab"), vec![span(1, 3), span(4, 6)]);
    assert_eq!(find_spans(&matcher, "abab"), vec![span(0, 2), span(2, 4)]);
    assert_eq!(find_spans(&matcher, ""), vec![]);
    let greek = Matcher::compile(r"\p{Greek}+").unwrap();
    assert_eq!(find_spans(&greek, "Greek: αβγδ"), vec![span(7, 15)]);
}

#[test]
fn find_spans_drops_matches_of_length_zero() {
    let matcher = Matcher::compile("a*").unwrap();
    assert_eq!(find_spans(&matcher, "b"), vec![]);
    assert_eq!(find_spans(&matcher, "baab"), vec![span(1, 3)]);
    assert_eq!(find_spans(&matcher, "aab"), vec![span(0, 2)]);
    assert_eq!(find_spans(&matcher, "é"), vec![]);
}

#[test]
fn find_spans_searches_with_the_text_before_in_view() {
    let matcher = Matcher::compile(r"\bchew\b").unwrap();
    assert_eq!(find_spans(&matcher, "eschew chew"), vec![span(7, 11)]);
    let anchored = Matcher::compile(r"\Aa").unwrap();
    assert_eq!(find_spans(&anchored, "aaa"), vec![span(0, 1)]);
}

#[test]
fn scan_step_takes_a_match_that_holds_bytes() {
    assert_eq!(
        scan_step("xab", Some(span(1, 3))),
        ScanStep::Take { span: span(1, 3), resume: 3 }
    );
}

#[test]
fn scan_step_skips_one_character_after_an_empty_match() {
    assert_eq!(scan_step("b", Some(span(0, 0))), ScanStep::Skip { resume: 1 });
    assert_eq!(scan_step("é€😀", Some(span(0, 0))), ScanStep::Skip { resume: 2 });
    assert_eq!(scan_step("é€😀", Some(span(2, 2))), ScanStep::Skip { resume: 5 });
    assert_eq!(scan_step("é€😀", Some(span(5, 5))), ScanStep::Skip { resume: 9 });
}

#[test]
fn scan_step_stops_without_a_match_or_at_the_end() {
    assert_eq!(scan_step("b", None), ScanStep::Stop);
    assert_eq!(scan_step("b", Some(span(1, 1))), ScanStep::Stop);
    assert_eq!(scan_step("", Some(span(0, 0))), ScanStep::Stop);
}

#[test]
fn merge_runs_fills_the_gaps_with_plain_runs() {
    assert_eq!(
        merge_runs("xabxab", &vec![span(1, 3), span(4, 6)]),
        vec![run("x", 0, false), run("ab", 1, true), run("x", 3, false), run("ab", 4, true)]
    );
    assert_eq!(
        merge_runs("xabx", &vec![span(1, 3)]),
        vec![run("x", 0, false), run("ab", 1, true), run("x", 3, false)]
    );
}

#[test]
fn merge_runs_without_spans_gives_one_plain_run() {
    assert_eq!(merge_runs("hello", &vec![]), vec![run("hello", 0, false)]);
    assert_eq!(merge_runs("", &vec![]), vec![run("", 0, false)]);
}

#[test]
fn merge_runs_ignores_spans_of_length_zero() {
    assert_eq!(
        merge_runs("abc", &vec![span(0, 0), span(1, 1), span(3, 3)]),
        vec![run("abc", 0, false)]
    );
    assert_eq!(
        merge_runs("abc", &vec![span(1, 1), span(1, 2), span(2, 2)]),
        vec![run("a", 0, false), run("b", 1, true), run("c", 2, false)]
    );
    assert_eq!(merge_runs("", &vec![span(0, 0)]), vec![run("", 0, false)]);
}

#[test]
fn merge_runs_joins_spans_that_touch() {
    assert_eq!(merge_runs("abab", &vec![span(0, 2), span(2, 4)]), vec![run("abab", 0, true)]);
    assert_eq!(
        merge_runs("abcab", &vec![span(0, 1), span(1, 2), span(3, 5)]),
        vec![run("ab", 0, true), run("c", 2, false), run("ab", 3, true)]
    );
}

#[test]
fn check_spans_accepts_lists_in_order() {
    assert!(check_spans("xabxab", &vec![]));
    assert!(check_spans("xabxab", &vec![span(1, 3), span(4, 6)]));
    assert!(check_spans("xabxab", &vec![span(0, 0), span(0, 3), span(3, 3), span(3, 6), span(6, 6)]));
    assert!(check_spans("é", &vec![span(0, 2)]));
}

#[test]
fn check_spans_rejects_lists_out_of_order_or_out_of_bounds() {
    assert!(!check_spans("xabxab", &vec![span(4, 6), span(1, 3)]));
    assert!(!check_spans("xabxab", &vec![span(1, 4), span(3, 6)]));
    assert!(!check_spans("xabxab", &vec![span(3, 1)]));
    assert!(!check_spans("xabxab", &vec![span(4, 7)]));
    assert!(!check_spans("xabxab", &vec![span(7, 7)]));
    assert!(!check_spans("é", &vec![span(0, 1)]));
    assert!(!check_spans("é", &vec![span(1, 2)]));
}

#[test]
fn byte_slice_cuts_between_boundaries() {
    assert_eq!(byte_slice("xabxab", 1, 3), "ab");
    assert_eq!(byte_slice("xabxab", 0, 6), "xabxab");
    assert_eq!(byte_slice("xabxab", 2, 2), "");
    assert_eq!(byte_slice("héllo", 1, 3), "é");
}

#[test]
fn skip_char_steps_over_one_character() {
    assert_eq!(skip_char("ab", 0), 1);
    assert_eq!(skip_char("ab", 1), 2);
    assert_eq!(skip_char("é€😀", 0), 2);
    assert_eq!(skip_char("é€😀", 2), 5);
    assert_eq!(skip_char("é€😀", 5), 9);
}

#[test]
fn span_of_length_zero_is_empty() {
    assert!(span(3, 3).is_empty());
    assert!(!span(3, 4).is_empty());
}
