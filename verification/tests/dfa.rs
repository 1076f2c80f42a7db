use automaton_evaluator::config::{ConfigError, FAConfig, ReadFAConfig, Transition};
use automaton_evaluator::dfa::DFA;
use automaton_evaluator::traits::Acceptor;

fn describe(
    states: &[&str],
    initial: &str,
    finals: &[&str],
    alphabet: &[&str],
    transitions: &[(&str, &str, Option<&str>)],
) -> FAConfig {
    FAConfig {
        states: states.iter().map(|s| s.to_string()).collect(),
        initial_state: initial.to_string(),
        final_states: finals.iter().map(|s| s.to_string()).collect(),
        alphabet: alphabet.iter().map(|s| s.to_string()).collect(),
        transitions: transitions
            .iter()
            .map(|(from, to, on)| Transition {
                from: from.to_string(),
                to: to.to_string(),
                on: on.map(|s| s.to_string()),
            })
            .collect(),
    }
}

fn toggles_on_a() -> FAConfig {
    describe(
        &["S0", "S1"],
        "S0",
        &["S1"],
        &["a", "b"],
        &[
            ("S0", "S1", Some("a")),
            ("S1", "S1", Some("a")),
            ("S1", "S0", Some("b")),
            ("S0", "S0", Some("b")),
        ],
    )
}

#[test]
fn dfa_scenario() {
    let dfa = DFA::from_config(toggles_on_a()).unwrap();
    assert!(!dfa.test_string("aab".to_owned()));
    assert!(dfa.test_string("aa".to_owned()));
}

#[test]
fn dfa_verdicts() {
    let dfa = DFA::from_config(toggles_on_a()).unwrap();
    for (input, expected) in [
        ("", false),
        ("a", true),
        ("b", false),
        ("ab", false),
        ("ba", true),
        ("abba", true),
        ("aaaaab", false),
    ] {
        assert_eq!(dfa.test_string(input.to_owned()), expected, "on {:?}", input);
    }
}

#[test]
fn dfa_with_initial_state_not_final_rejects_empty_string() {
    let dfa = DFA::from_config(toggles_on_a()).unwrap();
    assert!(!dfa.test_string(String::new()));
}

#[test]
fn dfa_with_final_initial_state_accepts_empty_string() {
    let dfa =
        DFA::from_config(describe(&["S0"], "S0", &["S0"], &["a"], &[("S0", "S0", Some("a"))]))
            .unwrap();
    assert!(dfa.test_string(String::new()));
}

#[test]
fn dfa_repeated_calls_agree() {
    let dfa = DFA::from_config(toggles_on_a()).unwrap();
    for input in ["", "a", "ab", "abba", "bbbbab"] {
        let first = dfa.test_string(input.to_owned());
        for _ in 0..3 {
            assert_eq!(dfa.test_string(input.to_owned()), first);
        }
    }
    let again = DFA::from_config(toggles_on_a()).unwrap();
    for input in ["", "a", "ab", "abba", "bbbbab"] {
        assert_eq!(again.test_string(input.to_owned()), dfa.test_string(input.to_owned()));
    }
}

#[test]
fn dfa_stays_where_no_transition_matches() {
    // Only S0 -a-> S1 is declared: 'b' leads nowhere and is passed over, in
    // whatever state.
    let dfa =
        DFA::from_config(describe(&["S0", "S1"], "S0", &["S1"], &["a", "b"], &[(
            "S0",
            "S1",
            Some("a"),
        )]))
        .unwrap();
    assert!(dfa.test_string("a".to_owned()));
    assert!(dfa.test_string("ab".to_owned()));
    assert!(dfa.test_string("bbabb".to_owned()));
    assert!(dfa.test_string("aa".to_owned()));
    assert!(!dfa.test_string("bbb".to_owned()));
}

#[test]
fn dfa_passes_over_symbols_outside_the_alphabet() {
    let dfa = DFA::from_config(toggles_on_a()).unwrap();
    assert!(dfa.test_string("axyz".to_owned()));
    assert!(!dfa.test_string("xyz".to_owned()));
    assert!(dfa.test_string("a\u{3f5}".to_owned()));
}

#[test]
fn dfa_moves_to_the_last_of_several_destinations() {
    // On 'a' state S0 leads to both S1 and S2: the automaton moves to S2,
    // the one with the higher index, whatever the order of declaration.
    for transitions in [
        [("S0", "S1", Some("a")), ("S0", "S2", Some("a"))],
        [("S0", "S2", Some("a")), ("S0", "S1", Some("a"))],
    ] {
        let to_last =
            DFA::from_config(describe(&["S0", "S1", "S2"], "S0", &["S2"], &["a"], &transitions))
                .unwrap();
        assert!(to_last.test_string("a".to_owned()));
        let to_first =
            DFA::from_config(describe(&["S0", "S1", "S2"], "S0", &["S1"], &["a"], &transitions))
                .unwrap();
        assert!(!to_first.test_string("a".to_owned()));
    }
}

#[test]
fn dfa_scans_the_row_of_the_state_it_started_the_move_in() {
    // S0 -a-> S1 and S1 -a-> S2: one 'a' moves one step, not two.
    let dfa = DFA::from_config(describe(
        &["S0", "S1", "S2"],
        "S0",
        &["S1"],
        &["a"],
        &[("S0", "S1", Some("a")), ("S1", "S2", Some("a"))],
    ))
    .unwrap();
    assert!(dfa.test_string("a".to_owned()));
    assert!(!dfa.test_string("aa".to_owned()));
}

#[test]
fn dfa_takes_the_null_marker_as_a_symbol_of_its_alphabet() {
    let dfa = DFA::from_config(describe(
        &["S0", "S1"],
        "S0",
        &["S1"],
        &["\u{3f5}"],
        &[("S0", "S1", Some("\u{3f5}"))],
    ))
    .unwrap();
    assert!(dfa.test_string("\u{3f5}".to_owned()));
    assert!(!dfa.test_string("".to_owned()));
}

#[test]
fn dfa_refuses_null_transition() {
    let res = DFA::from_config(describe(
        &["S0", "S1"],
        "S0",
        &["S1"],
        &["a"],
        &[("S0", "S1", Some("a")), ("S1", "S0", None)],
    ));
    assert_eq!(res.unwrap_err(), ConfigError::NullTransitionNotAllowed(2));
}

#[test]
fn dfa_refuses_unknown_initial_state() {
    let res = DFA::from_config(describe(&["S0", "S1"], "S9", &["S1"], &["a"], &[]));
    assert_eq!(res.unwrap_err(), ConfigError::UnknownInitialState);
}

#[test]
fn dfa_reports_unknown_initial_state_before_null_transition() {
    let res =
        DFA::from_config(describe(&["S0", "S1"], "S9", &["S1"], &["a"], &[("S0", "S1", None)]));
    assert_eq!(res.unwrap_err(), ConfigError::UnknownInitialState);
}

#[test]
fn dfa_refuses_symbol_outside_alphabet() {
    let res = DFA::from_config(describe(
        &["S0", "S1"],
        "S0",
        &["S1"],
        &["a"],
        &[("S0", "S1", Some("b"))],
    ));
    assert_eq!(res.unwrap_err(), ConfigError::SymbolNotInAlphabet("b".to_owned(), 1));
}

#[test]
fn dfa_refuses_unknown_final_state() {
    let res = DFA::from_config(describe(&["S0", "S1"], "S0", &["S1", "S7", "S8"], &["a"], &[]));
    assert_eq!(res.unwrap_err(), ConfigError::UnknownFinalState("S7".to_owned()));
}

#[test]
fn dfa_refuses_unknown_transition_state() {
    let res = DFA::from_config(describe(
        &["S0", "S1"],
        "S0",
        &["S1"],
        &["a"],
        &[("S0", "S1", Some("a")), ("S0", "S5", Some("a"))],
    ));
    assert_eq!(res.unwrap_err(), ConfigError::UnknownTransitionState("S5".to_owned(), 2));
}

#[test]
fn dfa_alphabet_may_hold_the_null_marker() {
    let res = DFA::from_config(describe(&["S0"], "S0", &[], &["a", "\u{3f5}"], &[]));
    assert!(res.is_ok());
}
