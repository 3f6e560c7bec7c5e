use std::cell::Cell;
use std::rc::Rc;

use yeesh::cmd_input::suggester::SuggestionType::File;
use yeesh::cmd_input::suggester::{Suggester, Suggestion, SuggestionType};
use yeesh::cmd_input::tab_handler::join_answers;
use yeesh::cmd_input::TabHandler;

#[derive(Clone)]
struct TestSuggester {
    suggestions: Vec<Suggestion>,
    get_suggestion_cnt: Rc<Cell<usize>>,
}

fn suggestion((replacement, is_prefix, s_type): (&'static str, bool, SuggestionType)) -> Suggestion {
    Suggestion { replacement: replacement.to_string(), is_prefix, s_type }
}

impl TestSuggester {
    pub fn new(suggestions: Vec<(&'static str, bool, SuggestionType)>) -> Self {
        TestSuggester {
            suggestions: suggestions.into_iter().map(suggestion).collect(),
            get_suggestion_cnt: Rc::new(Cell::new(0)),
        }
    }
}

impl Suggester for TestSuggester {
    fn get_suggestions(&mut self, _: &str) -> Vec<Suggestion> {
        self.get_suggestion_cnt.set(self.get_suggestion_cnt.get() + 1);
        self.suggestions.to_vec()
    }
}

fn setup(suggesters: Vec<Box<dyn Suggester>>) -> TabHandler {
    let mut handler = TabHandler::new(vec![]);
    handler.set_suggesters(suggesters);
    handler
}

#[test]
fn test_suggestion_cache() {
    let suggestions = vec![("hello", true, File), ("there", false, File)];
    let suggester = TestSuggester::new(suggestions.clone());
    let count = suggester.get_suggestion_cnt.clone();
    let mut handler = setup(vec![Box::new(suggester)]);

    let a = &"a".to_string();
    let b = &"b".to_string();

    handler.get_suggestion(a);
    let suggest_count_save = count.get();
    handler.get_suggestion(a);
    assert_eq!(suggest_count_save, count.get());

    handler.refresh();
    handler.get_suggestion(b);
    assert_eq!(suggest_count_save + 1, count.get())
}

#[test]
fn test_suggestions_loop() {
    let suggestions = vec![("hello", true, File), ("there", false, File)];
    let suggester = TestSuggester::new(suggestions.clone());
    let mut handler = setup(vec![Box::new(suggester)]);

    let a = &"".to_string();

    let s = handler.get_suggestion(a);
    assert!(s.is_some());
    assert_eq!(s.unwrap(), suggestions[0].0);

    let s = handler.get_suggestion(a);
    assert!(s.is_some());
    assert_eq!(s.unwrap(), suggestions[1].0);

    let s = handler.get_suggestion(a);
    assert!(s.is_some());
    assert_eq!(s.unwrap(), suggestions[0].0);
}

#[test]
fn test_cache_of_two_answers_four_requests_in_turn() {
    let mut handler = TabHandler::new(vec![]);
    handler.install(vec![suggestion(("second", false, File)), suggestion(("first", true, File))]);
    let word = "x".to_string();
    assert_eq!(handler.get_suggestion(&word), Some("first".to_string()));
    assert_eq!(handler.get_suggestion(&word), Some("second".to_string()));
    assert_eq!(handler.get_suggestion(&word), Some("first".to_string()));
    assert_eq!(handler.get_suggestion(&word), Some("second".to_string()));
}

#[test]
fn test_cycle_of_three_wraps_round() {
    let mut handler = TabHandler::new(vec![]);
    handler.install(vec![
        suggestion(("c", true, File)),
        suggestion(("a", true, File)),
        suggestion(("b", true, File)),
    ]);
    let mut seen = vec![];
    for _ in 0..7 {
        seen.push(handler.next_cached().unwrap());
    }
    assert_eq!(seen, vec!["a", "b", "c", "a", "b", "c", "a"]);
}

#[test]
fn test_no_candidates_gives_nothing_until_refresh() {
    let empty = TestSuggester::new(vec![]);
    let count = empty.get_suggestion_cnt.clone();
    let mut handler = TabHandler::new(vec![Box::new(empty)]);
    let word = "x".to_string();
    assert_eq!(handler.get_suggestion(&word), None);
    assert_eq!(handler.get_suggestion(&word), None);
    assert_eq!(count.get(), 1);

    handler.set_suggesters(vec![Box::new(TestSuggester::new(vec![("found", true, File)]))]);
    assert_eq!(handler.get_suggestion(&word), None);
    handler.refresh();
    assert_eq!(handler.get_suggestion(&word), Some("found".to_string()));
    assert_eq!(handler.get_suggestion(&word), Some("found".to_string()));
}

#[test]
fn test_answers_of_all_sources_are_merged_and_ranked() {
    let first = TestSuggester::new(vec![("m", true, File), ("z", false, File)]);
    let second = TestSuggester::new(vec![("a", false, File), ("b", true, File)]);
    let mut handler = TabHandler::new(vec![Box::new(first), Box::new(second)]);
    assert_eq!(handler.get_suggesters().len(), 2);
    let word = "".to_string();
    let mut seen = vec![];
    for _ in 0..5 {
        seen.push(handler.get_suggestion(&word).unwrap());
    }
    assert_eq!(seen, vec!["b", "m", "a", "z", "b"]);
}

#[test]
fn test_refresh_starts_from_the_first_candidate_again() {
    let source = TestSuggester::new(vec![("one", true, File), ("two", true, File)]);
    let mut handler = TabHandler::new(vec![Box::new(source)]);
    let word = "".to_string();
    assert_eq!(handler.get_suggestion(&word), Some("one".to_string()));
    handler.refresh();
    assert_eq!(handler.get_suggestion(&word), Some("one".to_string()));
    assert_eq!(handler.get_suggestion(&word), Some("two".to_string()));
}

#[test]
fn test_without_sources_there_is_nothing() {
    let mut handler = TabHandler::new(vec![]);
    let word = "x".to_string();
    assert_eq!(handler.get_suggestion(&word), None);
    handler.refresh();
    assert_eq!(handler.get_suggestion(&word), None);
}

#[test]
fn test_answers_are_joined_in_order() {
    let joined = join_answers(vec![
        vec![suggestion(("m", true, File)), suggestion(("z", false, File))],
        vec![],
        vec![suggestion(("a", false, File))],
    ]);
    let names: Vec<&str> = joined.iter().map(|s| s.replacement.as_str()).collect();
    assert_eq!(names, vec!["m", "z", "a"]);
    assert!(join_answers(vec![]).is_empty());
}
