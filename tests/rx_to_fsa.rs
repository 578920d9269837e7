use std::collections::HashSet;

use rx_automata::fsa::NFA;
use rx_automata::regexp::RegExp;
use rx_automata::rx_to_fsa::NFAConstructor;

#[test]
fn test_rx_to_nfa_and_nfa_to_dfa() {
    let mut nfa_constructor = NFAConstructor::new();
    let alphabet = vec!['a', 'b'];

    let rx = RegExp::Concat {
        left: Box::new(RegExp::Or {
            left: Box::new(RegExp::Char('a')),
            right: Box::new(RegExp::Empty),
        }),
        right: Box::new(RegExp::Char('b')),
    };

    let nfa = nfa_constructor.rx_to_nfa(&rx, &alphabet).expect("Failed to convert RegExp to NFA");
    let dfa = nfa.to_dfa();
    let dfa_states: HashSet<usize> = dfa
        .transition
        .iter()
        .flat_map(|&(p, _, q)| [p, q])
        .collect();
    assert_eq!(dfa_states.len(), 4, "DFA should have 4 states");
}

#[test]
fn new_states_count_up_from_one() {
    let mut c = NFAConstructor::new();
    assert_eq!(c.new_state(), 1);
    assert_eq!(c.new_state(), 2);
    assert_eq!(c.new_state(), 3);
}

#[test]
fn unions_keep_both_tables() {
    let c = NFAConstructor::new();
    let t = c.simple_dict_union(&vec![(1, 'a', 2)], &vec![(3, 'b', 4)]);
    assert_eq!(t, vec![(1, 'a', 2), (3, 'b', 4)]);
    assert_eq!(c.nfa_trans_union(&vec![], &vec![(3, 'b', 4)]), vec![(3, 'b', 4)]);
    assert_eq!(c.eps_union(&vec![(1, 2)], &vec![(2, 3), (1, 2)]), vec![(1, 2), (2, 3), (1, 2)]);
}

#[test]
fn end_state_needs_exactly_one_final() {
    let c = NFAConstructor::new();
    let mut n = NFA {
        transition: vec![],
        epsilon_transition: vec![],
        start: 1,
        finals: vec![],
    };
    assert_eq!(c.end_state(&n), None);
    n.finals = vec![4, 4];
    assert_eq!(c.end_state(&n), Some(4));
    n.finals = vec![4, 5];
    assert_eq!(c.end_state(&n), None);
}

#[test]
fn char_gadget_has_one_move() {
    let mut c = NFAConstructor::new();
    let nfa = c.rx_to_nfa(&RegExp::Char('x'), &vec!['x', 'y']).unwrap();
    assert_eq!(nfa.transition, vec![(1, 'x', 2)]);
    assert!(nfa.epsilon_transition.is_empty());
    assert_eq!(nfa.start, 1);
    assert_eq!(nfa.finals, vec![2]);
    let any = c.rx_to_nfa(&RegExp::Any, &vec!['x', 'y']).unwrap();
    assert_eq!(any.transition, vec![(3, 'x', 4), (3, 'y', 4)]);
    assert_eq!(any.finals, vec![4]);
}

#[test]
fn three_routes_agree() {
    let alphabet = vec!['a', 'b'];
    let cases = vec![
        RegExp::Concat {
            left: Box::new(RegExp::Or {
                left: Box::new(RegExp::Char('a')),
                right: Box::new(RegExp::Empty),
            }),
            right: Box::new(RegExp::Char('b')),
        },
        RegExp::Repeat(Box::new(RegExp::Concat {
            left: Box::new(RegExp::Char('a')),
            right: Box::new(RegExp::Any),
        })),
        RegExp::Concat {
            left: Box::new(RegExp::Repeat(Box::new(RegExp::Char('a')))),
            right: Box::new(RegExp::Char('b')),
        },
    ];
    let inputs = ["", "a", "b", "ab", "ba", "abab", "aab", "aaab", "abb", "bb"];
    for rx in &cases {
        let mut c = NFAConstructor::new();
        let nfa = c.rx_to_nfa(rx, &alphabet).unwrap();
        let dfa = nfa.to_dfa();
        for w in inputs {
            let direct = rx
                ._match(w, 0)
                .map_or(false, |ends| ends.contains(&w.chars().count()));
            assert_eq!(nfa.try_accept(w), dfa.try_accept(w), "{:?} on {:?}", rx, w);
            assert_eq!(direct, dfa.try_accept(w), "{:?} on {:?}", rx, w);
        }
    }
}
