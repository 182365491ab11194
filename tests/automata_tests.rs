use regex_nfa::automata::{run_automata, MatchData};
use regex_nfa::graph::Graph;
use regex_nfa::parser::{parser, CharCost};

fn found(pattern: &str, subject: &str) -> Vec<(String, usize)> {
    let graph = parser(pattern.to_string()).unwrap();
    run_automata(graph, subject.to_string())
        .into_iter()
        .map(|m: MatchData| (m.matched_string, m.location))
        .collect()
}

#[test]
fn alternation_under_plus_matches_longest() {
    assert_eq!(found("([abcd]|a|b|c|d)+", "abcdX"), vec![("abcd".to_string(), 0)]);
}

#[test]
fn literal_matches_do_not_overlap() {
    assert_eq!(
        found("ab", "xxabyab"),
        vec![("ab".to_string(), 2), ("ab".to_string(), 5)]
    );
    assert_eq!(found("aa", "aaa"), vec![("aa".to_string(), 0)]);
}

#[test]
fn dot_reads_any_character() {
    assert_eq!(
        found("a.c", "abcaXc"),
        vec![("abc".to_string(), 0), ("aXc".to_string(), 3)]
    );
}

#[test]
fn group_star_repeats() {
    assert_eq!(
        found("(ab)*", "ababxab"),
        vec![("abab".to_string(), 0), ("ab".to_string(), 5)]
    );
}

#[test]
fn group_question_is_optional() {
    assert_eq!(
        found("(a)?b", "bab"),
        vec![("b".to_string(), 0), ("ab".to_string(), 1)]
    );
}

#[test]
fn class_range_in_pattern() {
    assert_eq!(
        found("[0-9][0-9]", "a12b345"),
        vec![("12".to_string(), 1), ("34".to_string(), 4)]
    );
}

#[test]
fn no_match_and_empty_subject() {
    assert!(found("z", "abc").is_empty());
    assert!(found("a", "").is_empty());
}

#[test]
fn compiled_graph_matches_like_built_graph() {
    let mut graph = Graph::new();
    graph.add_cost(CharCost::Singleton('x'));
    graph.add_cost(CharCost::Singleton('y'));
    let done = graph.compile();
    let got: Vec<(String, usize)> = run_automata(done, "axyxy".to_string())
        .into_iter()
        .map(|m| (m.matched_string, m.location))
        .collect();
    assert_eq!(got, vec![("xy".to_string(), 1), ("xy".to_string(), 3)]);
}

#[test]
fn optional_atom_on_fresh_graph() {
    // An atom at the start, then `?` over it: accepts the empty string or the atom,
    // and only the non-empty match is reported.
    let mut graph = Graph::new();
    graph.add_cost(CharCost::Singleton('x'));
    graph.zero_or_one(0);
    let got: Vec<usize> = run_automata(graph, "yxx".to_string())
        .into_iter()
        .map(|m| m.location)
        .collect();
    assert_eq!(got, vec![1, 2]);
}

#[test]
fn repeatable_atom_on_fresh_graph() {
    let mut graph = Graph::new();
    graph.add_cost(CharCost::Singleton('x'));
    graph.one_or_more(0);
    let got: Vec<(String, usize)> = run_automata(graph, "xxxyx".to_string())
        .into_iter()
        .map(|m| (m.matched_string, m.location))
        .collect();
    assert_eq!(got, vec![("xxx".to_string(), 0), ("x".to_string(), 4)]);
}

#[test]
fn optional_repeatable_atom_on_fresh_graph() {
    let mut graph = Graph::new();
    graph.add_cost(CharCost::Singleton('x'));
    graph.zero_or_more(0);
    let got: Vec<(String, usize)> = run_automata(graph, "xxyx".to_string())
        .into_iter()
        .map(|m| (m.matched_string, m.location))
        .collect();
    assert_eq!(got, vec![("xx".to_string(), 0), ("x".to_string(), 3)]);
}
