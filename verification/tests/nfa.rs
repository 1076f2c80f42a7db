use std::collections::{HashMap, HashSet};

use automaton_evaluator::config::{FAConfig, ReadFAConfig, Transition};
use automaton_evaluator::nfa::{
    _backtrack, acceptor, current_states_after_consuming_char, null_closure, NFA,
};
use automaton_evaluator::table::EPSILON;
use automaton_evaluator::traits::Acceptor;

fn describe(
    states: &[&str],
    initial: &str,
    finals: &[&str],
    alphabet: &[&str],
    transitions: &[(&str, &str, Option<&str>)],
) -> FAConfig {
    FAConfig {
        states: states.iter().map(|s| s.to_string()).collect(),
        initial_state: initial.to_string(),
        final_states: finals.iter().map(|s| s.to_string()).collect(),
        alphabet: alphabet.iter().map(|s| s.to_string()).collect(),
        transitions: transitions
            .iter()
            .map(|(from, to, on)| Transition {
                from: from.to_string(),
                to: to.to_string(),
                on: on.map(|s| s.to_string()),
            })
            .collect(),
    }
}

/// The descriptions that the evaluation tests share, each under the path
/// of a file that could hold it.
fn fixture(path: &str) -> FAConfig {
    match path {
        // strings ending in ab
        "./test_configs/nfa01.json" => describe(
            &["S0", "S1", "S2"],
            "S0",
            &["S2"],
            &["a", "b"],
            &[
                ("S0", "S0", Some("a")),
                ("S0", "S0", Some("b")),
                ("S0", "S1", Some("a")),
                ("S1", "S2", Some("b")),
            ],
        ),
        // strings starting with a
        "./test_configs/nfa02.json" => describe(
            &["S0", "S1"],
            "S0",
            &["S1"],
            &["a", "b"],
            &[("S0", "S1", Some("a")), ("S1", "S1", Some("a")), ("S1", "S1", Some("b"))],
        ),
        // strings matching b*a
        "./test_configs/nfa03.json" => describe(
            &["S0", "S1", "S2"],
            "S0",
            &["S2"],
            &["a", "b"],
            &[("S0", "S0", Some("b")), ("S0", "S1", None), ("S1", "S2", Some("a"))],
        ),
        _ => panic!("no such description: {}", path),
    }
}

fn load(file: &str) -> NFA {
    let mut path = String::from("./test_configs/");
    path.push_str(file);
    NFA::from_config(fixture(&path)).unwrap()
}

fn chars(s: &str) -> Vec<char> {
    s.chars().collect::<Vec<char>>()
}

fn set(items: &[usize]) -> HashSet<usize> {
    items.iter().copied().collect()
}

#[test]
fn test_nfa01() {
    let mut path = String::from("./test_configs/");
    path.push_str("nfa01.json");
    let nfa = NFA::from_config(fixture(&path)).unwrap();
    let test_cases = ["abbbab", "bab", "b", "", "bbbbbbbbbba"];
    for input in test_cases {
        assert_eq!(
            _backtrack(&nfa, nfa.initial_state, 0, &input.chars().collect::<Vec<char>>()),
            acceptor(&nfa, input.to_owned())
        );
    }
}

#[test]
fn test_nfa02() {
    let mut path = String::from("./test_configs/");
    path.push_str("nfa02.json");
    let nfa = NFA::from_config(fixture(&path)).unwrap();
    let test_cases = ["abbbab", "bab", "b", "", "bbbbbbbbbba", "a"];
    for input in test_cases {
        assert_eq!(
            _backtrack(&nfa, nfa.initial_state, 0, &input.chars().collect::<Vec<char>>()),
            acceptor(&nfa, input.to_owned())
        );
    }
}

#[test]
fn test_nfa03() {
    let mut path = String::from("./test_configs/");
    path.push_str("nfa03.json");
    let nfa = NFA::from_config(fixture(&path)).unwrap();
    let test_cases = ["abbbab", "bab", "b", "a", "bba", "bbbba"];
    for input in test_cases {
        assert_eq!(
            _backtrack(&nfa, nfa.initial_state, 0, &input.chars().collect::<Vec<char>>()),
            acceptor(&nfa, input.to_owned())
        );
    }
}

#[test]
fn nfa01_verdicts() {
    let nfa = load("nfa01.json");
    for (input, expected) in [
        ("abbbab", true),
        ("bab", true),
        ("b", false),
        ("", false),
        ("bbbbbbbbbba", false),
        ("ab", true),
        ("aba", false),
    ] {
        assert_eq!(acceptor(&nfa, input.to_owned()), expected, "acceptor on {:?}", input);
        assert_eq!(_backtrack(&nfa, 0, 0, &chars(input)), expected, "_backtrack on {:?}", input);
        assert_eq!(nfa.test_string(input.to_owned()), expected, "test_string on {:?}", input);
    }
}

#[test]
fn nfa02_verdicts() {
    let nfa = load("nfa02.json");
    for (input, expected) in
        [("abbbab", true), ("bab", false), ("b", false), ("", false), ("a", true)]
    {
        assert_eq!(acceptor(&nfa, input.to_owned()), expected, "acceptor on {:?}", input);
        assert_eq!(_backtrack(&nfa, 0, 0, &chars(input)), expected, "_backtrack on {:?}", input);
    }
}

#[test]
fn nfa03_verdicts() {
    let nfa = load("nfa03.json");
    for (input, expected) in [
        ("abbbab", false),
        ("bab", false),
        ("b", false),
        ("a", true),
        ("bba", true),
        ("bbbba", true),
        ("", false),
    ] {
        assert_eq!(acceptor(&nfa, input.to_owned()), expected, "acceptor on {:?}", input);
        assert_eq!(_backtrack(&nfa, 0, 0, &chars(input)), expected, "_backtrack on {:?}", input);
    }
}

#[test]
fn ends_in_ab_scenario() {
    let nfa = load("nfa01.json");
    assert!(nfa.test_string("bbbab".to_owned()));
    assert!(!nfa.test_string("ba".to_owned()));
}

#[test]
fn null_transition_to_final_accepts_empty_string() {
    let nfa = NFA::from_config(describe(
        &["S0", "S1"],
        "S0",
        &["S1"],
        &["a"],
        &[("S0", "S1", None)],
    ))
    .unwrap();
    assert!(nfa.test_string("".to_owned()));
    assert!(acceptor(&nfa, String::new()));
}

#[test]
fn final_initial_state_accepts_empty_string() {
    let nfa =
        NFA::from_config(describe(&["S0"], "S0", &["S0"], &["a"], &[("S0", "S0", Some("a"))]))
            .unwrap();
    assert!(nfa.test_string("".to_owned()));
    assert!(_backtrack(&nfa, 0, 0, &chars("")));
}

#[test]
fn backtracking_ends_with_the_last_symbol() {
    // S0 -a-> S1 -null-> S2, S2 final: the simulation follows the null
    // transition after the last symbol, backtracking does not.
    let nfa = NFA::from_config(describe(
        &["S0", "S1", "S2"],
        "S0",
        &["S2"],
        &["a"],
        &[("S0", "S1", Some("a")), ("S1", "S2", None)],
    ))
    .unwrap();
    assert!(acceptor(&nfa, "a".to_owned()));
    assert!(!_backtrack(&nfa, 0, 0, &chars("a")));
    assert!(!acceptor(&nfa, "".to_owned()));
    assert!(!_backtrack(&nfa, 0, 0, &chars("")));
}

#[test]
fn strategies_agree_where_null_leads_into_final_from_final_only() {
    // S0 -null-> S1 -a-> S2 -null-> S3 -b-> S2; S2 and S3 final, so the
    // null transition into S3 starts at a final state.
    let nfa = NFA::from_config(describe(
        &["S0", "S1", "S2", "S3"],
        "S0",
        &["S2", "S3"],
        &["a", "b"],
        &[
            ("S0", "S1", None),
            ("S1", "S2", Some("a")),
            ("S2", "S3", None),
            ("S3", "S2", Some("b")),
        ],
    ))
    .unwrap();
    for (input, expected) in
        [("", false), ("a", true), ("ab", true), ("abb", true), ("b", false), ("aa", false)]
    {
        assert_eq!(acceptor(&nfa, input.to_owned()), expected, "acceptor on {:?}", input);
        assert_eq!(_backtrack(&nfa, 0, 0, &chars(input)), expected, "_backtrack on {:?}", input);
    }
}

#[test]
fn null_cycle_does_not_trap_either_strategy() {
    // S0 -null-> S1 -null-> S2 -null-> S0, S2 -a-> S3, S3 final.
    let nfa = NFA::from_config(describe(
        &["S0", "S1", "S2", "S3"],
        "S0",
        &["S3"],
        &["a"],
        &[
            ("S0", "S1", None),
            ("S1", "S2", None),
            ("S2", "S0", None),
            ("S2", "S3", Some("a")),
        ],
    ))
    .unwrap();
    assert!(acceptor(&nfa, "a".to_owned()));
    assert!(_backtrack(&nfa, 0, 0, &chars("a")));
    assert!(!acceptor(&nfa, "aa".to_owned()));
    assert!(!_backtrack(&nfa, 0, 0, &chars("aa")));
    assert!(!acceptor(&nfa, "".to_owned()));
    assert!(!_backtrack(&nfa, 0, 0, &chars("")));
}

#[test]
fn longest_simple_null_chain_is_followed() {
    // Four states in a row, linked by null transitions: backtracking has
    // to follow three of them before the symbol.
    let nfa = NFA::from_config(describe(
        &["S0", "S1", "S2", "S3", "S4"],
        "S0",
        &["S4"],
        &["a"],
        &[
            ("S0", "S1", None),
            ("S1", "S2", None),
            ("S2", "S3", None),
            ("S3", "S4", Some("a")),
        ],
    ))
    .unwrap();
    assert!(_backtrack(&nfa, 0, 0, &chars("a")));
    assert!(acceptor(&nfa, "a".to_owned()));
}

#[test]
fn backtrack_from_a_later_state_and_position() {
    let nfa = load("nfa01.json");
    // From S1 the rest "b" leads to S2.
    assert!(_backtrack(&nfa, 1, 2, &chars("bab")));
    // From S2 nothing leads anywhere.
    assert!(!_backtrack(&nfa, 2, 2, &chars("bab")));
    // All input consumed: the verdict is whether the state is final.
    assert!(_backtrack(&nfa, 2, 3, &chars("bab")));
    assert!(!_backtrack(&nfa, 1, 3, &chars("bab")));
}

#[test]
fn symbols_outside_the_alphabet_match_nothing() {
    let nfa = load("nfa01.json");
    assert!(!acceptor(&nfa, "abcab".to_owned()));
    assert!(!_backtrack(&nfa, 0, 0, &chars("abcab")));
    assert!(!acceptor(&nfa, "\u{e9}".to_owned()));
}

#[test]
fn null_marker_in_the_input_matches_nothing() {
    // S0 -null-> S1, S1 final: the null transition consumes no symbol, and
    // the marker is none.
    let nfa = NFA::from_config(describe(
        &["S0", "S1"],
        "S0",
        &["S1"],
        &["a"],
        &[("S0", "S1", None)],
    ))
    .unwrap();
    assert!(!acceptor(&nfa, "\u{03F5}".to_owned()));
    assert!(!nfa.test_string("\u{03F5}".to_owned()));
    assert!(!_backtrack(&nfa, 0, 0, &chars("\u{03F5}")));
    assert!(acceptor(&nfa, "".to_owned()));
}

#[test]
fn null_marker_anywhere_in_the_input_rejects() {
    let nfa = load("nfa03.json");
    for input in [
        format!("{}a", EPSILON),
        format!("a{}", EPSILON),
        format!("b{}a", EPSILON),
        format!("{}", EPSILON),
        format!("bb{}{}a", EPSILON, EPSILON),
    ] {
        assert!(!acceptor(&nfa, input.clone()), "acceptor on {:?}", input);
        assert!(!_backtrack(&nfa, 0, 0, &chars(&input)), "_backtrack on {:?}", input);
    }
    assert!(acceptor(&nfa, "a".to_owned()));
    assert!(acceptor(&nfa, "bba".to_owned()));
}

#[test]
fn null_marker_reads_no_edge_even_beside_a_symbol() {
    // One state with a loop that holds both 'x' and the marker.
    let nfa = NFA::new(HashMap::new(), 0, set(&[0]), vec![vec![vec!['x', EPSILON]]]);
    assert!(acceptor(&nfa, "x".to_owned()));
    assert!(!acceptor(&nfa, format!("x{}", EPSILON)));
    assert!(!_backtrack(&nfa, 0, 0, &chars(&format!("x{}", EPSILON))));
    assert_eq!(current_states_after_consuming_char(&nfa, set(&[0]), 'x'), set(&[0]));
    assert_eq!(current_states_after_consuming_char(&nfa, set(&[0]), EPSILON), set(&[]));
}

#[test]
fn closure_of_a_null_chain() {
    let nfa = load("nfa03.json");
    assert_eq!(null_closure(&nfa, set(&[0])), set(&[0, 1]));
    assert_eq!(null_closure(&nfa, set(&[1])), set(&[1]));
    assert_eq!(null_closure(&nfa, set(&[2, 0])), set(&[0, 1, 2]));
    assert_eq!(null_closure(&nfa, set(&[])), set(&[]));
}

#[test]
fn closure_of_a_null_cycle() {
    let nfa = NFA::from_config(describe(
        &["S0", "S1", "S2", "S3"],
        "S0",
        &["S3"],
        &["a"],
        &[
            ("S0", "S1", None),
            ("S1", "S2", None),
            ("S2", "S0", None),
            ("S2", "S3", Some("a")),
        ],
    ))
    .unwrap();
    assert_eq!(null_closure(&nfa, set(&[1])), set(&[0, 1, 2]));
    assert_eq!(null_closure(&nfa, set(&[3])), set(&[3]));
}

#[test]
fn closure_is_idempotent() {
    let nfa = NFA::from_config(describe(
        &["S0", "S1", "S2", "S3", "S4"],
        "S0",
        &["S4"],
        &["a"],
        &[
            ("S0", "S1", None),
            ("S1", "S0", None),
            ("S1", "S2", None),
            ("S3", "S4", None),
            ("S2", "S3", Some("a")),
        ],
    ))
    .unwrap();
    for start in [set(&[]), set(&[0]), set(&[2]), set(&[3]), set(&[0, 3]), set(&[4, 1])] {
        let once = null_closure(&nfa, start.clone());
        let twice = null_closure(&nfa, once.clone());
        assert_eq!(twice, once);
        assert!(start.is_subset(&once));
    }
    assert_eq!(null_closure(&nfa, set(&[0])), set(&[0, 1, 2]));
    assert_eq!(null_closure(&nfa, set(&[3])), set(&[3, 4]));
}

#[test]
fn states_after_one_symbol() {
    let nfa = load("nfa01.json");
    assert_eq!(current_states_after_consuming_char(&nfa, set(&[0]), 'a'), set(&[0, 1]));
    assert_eq!(current_states_after_consuming_char(&nfa, set(&[0]), 'b'), set(&[0]));
    assert_eq!(current_states_after_consuming_char(&nfa, set(&[0, 1]), 'b'), set(&[0, 2]));
    assert_eq!(current_states_after_consuming_char(&nfa, set(&[2]), 'a'), set(&[]));
    assert_eq!(current_states_after_consuming_char(&nfa, set(&[0]), 'c'), set(&[]));
}

#[test]
fn states_after_one_symbol_with_null_transitions() {
    // S0 -null-> S1 -a-> S2 -null-> S3: the closure is taken on both sides.
    let nfa = NFA::from_config(describe(
        &["S0", "S1", "S2", "S3"],
        "S0",
        &["S3"],
        &["a"],
        &[("S0", "S1", None), ("S1", "S2", Some("a")), ("S2", "S3", None)],
    ))
    .unwrap();
    assert_eq!(current_states_after_consuming_char(&nfa, set(&[0]), 'a'), set(&[2, 3]));
    assert_eq!(current_states_after_consuming_char(&nfa, set(&[2]), 'a'), set(&[]));
    assert_eq!(current_states_after_consuming_char(&nfa, set(&[0]), EPSILON), set(&[]));
}

#[test]
fn dead_end_never_accepts() {
    let nfa = load("nfa02.json");
    assert!(!acceptor(&nfa, "ba".to_owned()));
    assert!(!acceptor(&nfa, "bbbb".to_owned()));
}

#[test]
fn new_keeps_its_parts() {
    let mut states = HashMap::new();
    states.insert(0, "only".to_owned());
    let nfa = NFA::new(states.clone(), 0, set(&[0]), vec![vec![vec!['x', EPSILON]]]);
    assert_eq!(nfa.states, states);
    assert_eq!(nfa.initial_state, 0);
    assert_eq!(nfa.final_states, set(&[0]));
    assert_eq!(nfa.transitions, vec![vec![vec!['x', EPSILON]]]);
    assert!(acceptor(&nfa, "xx".to_owned()));
    assert!(!acceptor(&nfa, "xa".to_owned()));
    assert!(_backtrack(&nfa, 0, 0, &chars("xx")));
}

#[test]
fn built_automaton_holds_what_was_described() {
    let nfa = load("nfa03.json");
    let names: HashMap<usize, String> =
        [(0, "S0"), (1, "S1"), (2, "S2")].iter().map(|(i, s)| (*i, s.to_string())).collect();
    assert_eq!(nfa.states, names);
    assert_eq!(nfa.initial_state, 0);
    assert_eq!(nfa.final_states, set(&[2]));
    assert_eq!(
        nfa.transitions,
        vec![
            vec![vec!['b'], vec![EPSILON], vec![]],
            vec![vec![], vec![], vec!['a']],
            vec![vec![], vec![], vec![]],
        ]
    );
}

#[test]
fn repeated_calls_agree() {
    let nfa = load("nfa01.json");
    for input in ["", "ab", "ba", "abab"] {
        let first = nfa.test_string(input.to_owned());
        assert_eq!(nfa.test_string(input.to_owned()), first);
        assert_eq!(nfa.test_string(input.to_owned()), first);
    }
}

#[test]
fn built_automaton_is_well_formed() {
    for file in ["nfa01.json", "nfa02.json", "nfa03.json"] {
        assert!(load(file).is_well_formed());
    }
}

#[test]
fn well_formedness_of_parts_put_together_by_hand() {
    let row = || vec![Vec::<char>::new(), vec!['a']];
    let good = NFA::new(HashMap::new(), 1, set(&[0, 1]), vec![row(), row()]);
    assert!(good.is_well_formed());
    let no_finals = NFA::new(HashMap::new(), 0, set(&[]), vec![row(), row()]);
    assert!(no_finals.is_well_formed());
    let initial_outside = NFA::new(HashMap::new(), 2, set(&[0]), vec![row(), row()]);
    assert!(!initial_outside.is_well_formed());
    let final_outside = NFA::new(HashMap::new(), 0, set(&[0, 2]), vec![row(), row()]);
    assert!(!final_outside.is_well_formed());
    let short_row = NFA::new(HashMap::new(), 0, set(&[0]), vec![row(), vec![vec![]]]);
    assert!(!short_row.is_well_formed());
    let long_row = NFA::new(HashMap::new(), 0, set(&[0]), vec![vec![vec![], vec![]]]);
    assert!(!long_row.is_well_formed());
    let no_states = NFA::new(HashMap::new(), 0, set(&[]), vec![]);
    assert!(!no_states.is_well_formed());
}

#[test]
fn backtracking_towards_states_that_reach_a_final_state_agrees_with_the_simulation() {
    // S0 -a-> S1 -null-> S2 -null-> S3, S0 -null-> S4 -b-> S4, S4 -null-> S0;
    // S3 is final, and so is S4.
    let described = || {
        describe(
            &["S0", "S1", "S2", "S3", "S4"],
            "S0",
            &["S3", "S4"],
            &["a", "b"],
            &[
                ("S0", "S1", Some("a")),
                ("S1", "S2", None),
                ("S2", "S3", None),
                ("S0", "S4", None),
                ("S4", "S4", Some("b")),
                ("S4", "S0", None),
            ],
        )
    };
    let nfa = NFA::from_config(described()).unwrap();
    let mut reaching = HashSet::new();
    for s in 0..nfa.transitions.len() {
        if !null_closure(&nfa, set(&[s])).is_disjoint(&nfa.final_states) {
            reaching.insert(s);
        }
    }
    assert_eq!(reaching, set(&[0, 1, 2, 3, 4]));
    let built = NFA::from_config(described()).unwrap();
    let oracle = NFA::new(built.states, built.initial_state, reaching, built.transitions);
    for (input, expected) in [
        ("", true),
        ("a", true),
        ("b", true),
        ("bbb", true),
        ("ba", true),
        ("ab", false),
        ("aa", false),
        ("bab", false),
    ] {
        assert_eq!(acceptor(&nfa, input.to_owned()), expected, "acceptor on {:?}", input);
        assert_eq!(
            _backtrack(&oracle, oracle.initial_state, 0, &chars(input)),
            expected,
            "_backtrack on {:?}",
            input
        );
    }
    // Without the states added, backtracking misses what ends on a null
    // transition.
    assert!(!_backtrack(&nfa, 0, 0, &chars("")));
    assert!(!_backtrack(&nfa, 0, 0, &chars("a")));
    assert!(_backtrack(&nfa, 0, 0, &chars("b")));
}

#[test]
fn long_input_is_searched_without_deep_recursion() {
    let nfa = load("nfa02.json");
    let mut input = String::from("a");
    for _ in 0..200_000 {
        input.push('b');
    }
    assert!(_backtrack(&nfa, 0, 0, &chars(&input)));
    assert!(acceptor(&nfa, input.clone()));
    input.insert(0, 'b');
    assert!(!_backtrack(&nfa, 0, 0, &chars(&input)));
    assert!(!acceptor(&nfa, input));
}
