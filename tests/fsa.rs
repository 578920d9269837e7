use std::collections::HashSet;

use rx_automata::fsa::{DFA, NFA};

#[test]
fn test_nfa1() {
    let nfa = NFA {
        transition: vec![(0, 'a', 1), (1, 'b', 2), (2, 'c', 3)],
        epsilon_transition: vec![(0, 1), (1, 2), (2, 3)],
        start: 0,
        finals: vec![3],
    };
    assert!(nfa.try_accept("abc"));
    assert!(nfa.try_accept("ab"));
    assert!(!nfa.try_accept("abcd"));
}

#[test]
fn test_nfa2() {
    let nfa = NFA {
        transition: vec![
            (0, 'a', 1),
            (1, 'b', 2),
            (2, 'c', 3),
            (3, 'd', 4),
            (4, 'e', 5),
            (5, 'f', 6),
        ],
        epsilon_transition: vec![(0, 1), (2, 3), (5, 6)],
        start: 0,
        finals: vec![6],
    };
    assert!(nfa.try_accept("abcdef"));
    assert!(nfa.try_accept("abcde"));
    assert!(!nfa.try_accept("abcdeg"));
}

#[test]
fn test_nfa3() {
    let nfa = NFA {
        transition: vec![
            (0, 'a', 1),
            (0, 'a', 2),
            (1, 'b', 3),
            (2, 'b', 3),
            (3, 'c', 4),
        ],
        epsilon_transition: vec![(0, 1), (0, 2)],
        start: 0,
        finals: vec![4],
    };
    assert!(nfa.try_accept("abc"));
    assert!(!nfa.try_accept("bbc"));
    assert!(!nfa.try_accept("ab"));
    assert!(!nfa.try_accept("abcd"));
}

#[test]
fn test_dfa1() {
    let dfa = DFA {
        transition: vec![(0, 'a', 1), (1, 'b', 2), (2, 'c', 3)],
        start: 0,
        finals: vec![3],
    };
    assert!(dfa.try_accept("abc"));
    assert!(!dfa.try_accept("ab"));
    assert!(!dfa.try_accept("abcd"));
}

fn chain_nfa() -> NFA {
    NFA {
        transition: vec![(0, 'a', 1), (1, 'b', 2), (2, 'c', 3)],
        epsilon_transition: vec![],
        start: 0,
        finals: vec![3],
    }
}

fn as_set(v: &[i32]) -> HashSet<i32> {
    v.iter().copied().collect()
}

#[test]
fn nfa_without_epsilon_moves() {
    let nfa = chain_nfa();
    assert!(nfa.try_accept("abc"));
    assert!(!nfa.try_accept("ab"));
    assert!(!nfa.try_accept("abcd"));
    assert!(!nfa.try_accept(""));
}

#[test]
fn epsilon_closure_step_adds_one_hop() {
    let nfa = NFA {
        transition: vec![],
        epsilon_transition: vec![(0, 1), (1, 2), (2, 3)],
        start: 0,
        finals: vec![3],
    };
    let step = nfa.epsilon_closure_step(&vec![0]);
    assert_eq!(as_set(&step), as_set(&[0, 1]));
    assert_eq!(step.len(), 2);
}

#[test]
fn epsilon_closure_follows_chains_and_is_idempotent() {
    let nfa = NFA {
        transition: vec![],
        epsilon_transition: vec![(0, 1), (1, 2), (2, 3), (5, 6)],
        start: 0,
        finals: vec![3],
    };
    let once = nfa.get_epsilon_closure(vec![0, 0]);
    assert_eq!(as_set(&once), as_set(&[0, 1, 2, 3]));
    assert_eq!(once.len(), 4);
    let twice = nfa.get_epsilon_closure(once.clone());
    assert_eq!(as_set(&twice), as_set(&once));
    assert_eq!(as_set(&nfa.get_epsilon_closure(vec![])), as_set(&[]));
}

#[test]
fn transit_moves_then_closes() {
    let nfa = NFA {
        transition: vec![(0, 'a', 1), (0, 'a', 4), (2, 'b', 3)],
        epsilon_transition: vec![(1, 2)],
        start: 0,
        finals: vec![3],
    };
    assert_eq!(as_set(&nfa.transit(vec![0], 'a')), as_set(&[1, 2, 4]));
    assert_eq!(as_set(&nfa.transit(vec![0], 'b')), as_set(&[]));
    assert!(nfa.is_final(vec![5, 3]));
    assert!(!nfa.is_final(vec![0, 1, 2]));
    assert!(!nfa.is_final(vec![]));
}

#[test]
fn dfa_from_nfa_is_deterministic_and_equivalent() {
    let nfa = NFA {
        transition: vec![
            (0, 'a', 1),
            (0, 'a', 2),
            (1, 'b', 3),
            (2, 'b', 3),
            (3, 'c', 4),
        ],
        epsilon_transition: vec![(0, 1), (0, 2)],
        start: 0,
        finals: vec![4],
    };
    let dfa = nfa.to_dfa();
    assert_eq!(dfa.start, 0);
    let keys: HashSet<(usize, char)> = dfa.transition.iter().map(|&(p, c, _)| (p, c)).collect();
    assert_eq!(keys.len(), dfa.transition.len());
    let states: HashSet<usize> = dfa
        .transition
        .iter()
        .flat_map(|&(p, _, q)| [p, q])
        .collect();
    assert!(states.len() <= 1 << 5);
    for w in ["", "a", "ab", "abc", "abcd", "bbc", "aabc", "abcabc", "c", "xyz"] {
        assert_eq!(dfa.try_accept(w), nfa.try_accept(w), "input {:?}", w);
    }
}

#[test]
fn dfa_rejects_on_missing_move() {
    let dfa = DFA {
        transition: vec![(0, 'a', 0)],
        start: 0,
        finals: vec![0],
    };
    assert!(dfa.try_accept(""));
    assert!(dfa.try_accept("aaaa"));
    assert!(!dfa.try_accept("aab"));
}
