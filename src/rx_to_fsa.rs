//! Thompson construction: from a regular expression to an NFA with one
//! accepting state, drawing fresh state ids from a counter.

use vstd::prelude::*;

use crate::fsa::{State, NFA};
use crate::regexp::RegExp;

verus! {

/// The parts of an automaton built for one expression: its labelled moves,
/// its epsilon moves, its start, its one accepting state, and the counter
/// after it.
pub type Gadget = (Set<(State, char, State)>, Set<(State, State)>, State, State, int);

/// How many fresh states the construction of `rx` draws.
pub open spec fn states_needed(rx: RegExp) -> nat
    decreases rx,
{
    match rx {
        RegExp::Char(_) => 2,
        RegExp::Any => 2,
        RegExp::Empty => 1,
        RegExp::Concat { left, right } => states_needed(*left) + states_needed(*right),
        RegExp::Or { left, right } => 2 + states_needed(*left) + states_needed(*right),
        RegExp::Repeat(inner) => 2 + states_needed(*inner),
    }
}

/// The automaton built for `rx` over the symbols `sigma`, with ids drawn
/// after `c`.
pub open spec fn thompson(rx: RegExp, sigma: Set<char>, c: int) -> Gadget
    decreases rx,
{
    match rx {
        RegExp::Char(ch) => (
            set![((c + 1) as State, ch, (c + 2) as State)],
            Set::empty(),
            (c + 1) as State,
            (c + 2) as State,
            c + 2,
        ),
        RegExp::Any => (
            Set::new(|t: (State, char, State)| t.0 == c + 1 && sigma.contains(t.1) && t.2 == c + 2),
            Set::empty(),
            (c + 1) as State,
            (c + 2) as State,
            c + 2,
        ),
        RegExp::Empty => (Set::empty(), Set::empty(), (c + 1) as State, (c + 1) as State, c + 1),
        RegExp::Concat { left, right } => {
            let l = thompson(*left, sigma, c);
            let r = thompson(*right, sigma, l.4);
            (l.0.union(r.0), l.1.insert((l.3, r.2)).union(r.1), l.2, r.3, r.4)
        },
        RegExp::Or { left, right } => {
            let s = (c + 1) as State;
            let l = thompson(*left, sigma, c + 1);
            let r = thompson(*right, sigma, l.4);
            let e = (r.4 + 1) as State;
            (
                l.0.union(r.0),
                set![(s, l.2), (s, r.2), (l.3, e), (r.3, e)].union(l.1.union(r.1)),
                s,
                e,
                r.4 + 1,
            )
        },
        RegExp::Repeat(inner) => {
            let s = (c + 1) as State;
            let i = thompson(*inner, sigma, c + 1);
            let e = (i.4 + 1) as State;
            (i.0, set![(s, i.2), (s, e), (i.3, i.2), (i.3, e)].union(i.1), s, e, i.4 + 1)
        },
    }
}

/// Builds automata from expressions, numbering states from a counter that
/// only grows, so that automata it builds never share a state.
pub struct NFAConstructor {
    state_counter: State,
}

impl NFAConstructor {
    /// The last id handed out.
    pub closed spec fn counter(&self) -> int {
        self.state_counter as int
    }

    /// A constructor that has handed out no id.
    pub fn new() -> (r: Self)
        ensures
            r.counter() == 0,
    {
        Self { state_counter: 0 }
    }

    /// A fresh id: one more than the last.
    pub fn new_state(&mut self) -> (r: State)
        requires
            old(self).counter() < i32::MAX,
        ensures
            final(self).counter() == old(self).counter() + 1,
            r == final(self).counter(),
    {
        self.state_counter += 1;
        self.state_counter
    }

    /// The labelled moves of both tables.
    pub fn simple_dict_union(&self, d1: &Vec<(State, char, State)>, d2: &Vec<(State, char, State)>) -> (r: Vec<(State, char, State)>)
        ensures
            r@ == d1@ + d2@,
    {
        let mut r: Vec<(State, char, State)> = Vec::new();
        let mut i: usize = 0;
        while i < d1.len()
            invariant
                i <= d1.len(),
                r@ == d1@.subrange(0, i as int),
            decreases d1.len() - i,
        {
            r.push(d1[i]);
            i += 1;
            assert(r@ =~= d1@.subrange(0, i as int));
        }
        let mut j: usize = 0;
        while j < d2.len()
            invariant
                i == d1.len(),
                j <= d2.len(),
                r@ == d1@ + d2@.subrange(0, j as int),
            decreases d2.len() - j,
        {
            r.push(d2[j]);
            j += 1;
            assert(r@ =~= d1@ + d2@.subrange(0, j as int));
        }
        assert(d2@.subrange(0, d2.len() as int) =~= d2@);
        r
    }

    /// The epsilon moves of both tables.
    pub fn eps_union(&self, e1: &Vec<(State, State)>, e2: &Vec<(State, State)>) -> (r: Vec<(State, State)>)
        ensures
            r@ == e1@ + e2@,
    {
        let mut r: Vec<(State, State)> = Vec::new();
        let mut i: usize = 0;
        while i < e1.len()
            invariant
                i <= e1.len(),
                r@ == e1@.subrange(0, i as int),
            decreases e1.len() - i,
        {
            r.push(e1[i]);
            i += 1;
            assert(r@ =~= e1@.subrange(0, i as int));
        }
        let mut j: usize = 0;
        while j < e2.len()
            invariant
                i == e1.len(),
                j <= e2.len(),
                r@ == e1@ + e2@.subrange(0, j as int),
            decreases e2.len() - j,
        {
            r.push(e2[j]);
            j += 1;
            assert(r@ =~= e1@ + e2@.subrange(0, j as int));
        }
        assert(e2@.subrange(0, e2.len() as int) =~= e2@);
        r
    }

    /// The labelled moves of two automata together.
    pub fn nfa_trans_union(&self, t1: &Vec<(State, char, State)>, t2: &Vec<(State, char, State)>) -> (r: Vec<(State, char, State)>)
        ensures
            r@ == t1@ + t2@,
    {
        self.simple_dict_union(t1, t2)
    }

    /// The one accepting state of `n`, or `None` when it has none or more
    /// than one.
    pub fn end_state(&self, n: &NFA) -> (r: Option<State>)
        ensures
            match r {
                Some(q) => n.finals@.to_set() == set![q],
                None => forall|q: State| n.finals@.to_set() != set![q],
            },
    {
        if n.finals.len() == 0 {
            proof {
                assert forall|q: State| n.finals@.to_set() != set![q] by {
                    assert(set![q].contains(q));
                }
            }
            return None;
        }
        let q = n.finals[0];
        let mut i: usize = 1;
        while i < n.finals.len()
            invariant
                1 <= i <= n.finals.len(),
                q == n.finals@[0],
                forall|j: int| 0 <= j < i ==> n.finals@[j] == q,
            decreases n.finals.len() - i,
        {
            if n.finals[i] != q {
                proof {
                    let other = n.finals@[i as int];
                    assert forall|x: State| n.finals@.to_set() != set![x] by {
                        assert(n.finals@.to_set().contains(q));
                        assert(n.finals@.to_set().contains(other));
                    }
                }
                return None;
            }
            i += 1;
        }
        assert(n.finals@.to_set() =~= set![q]) by {
            assert(n.finals@.to_set().contains(n.finals@[0]));
        }
        Some(q)
    }
    /// An automaton for `rx` over the symbols in `alphabet`, by Thompson's
    /// construction: its moves, start and one accepting state are those of
    /// `thompson`, with fresh ids drawn after the counter.
    pub fn rx_to_nfa(&mut self, rx: &RegExp, alphabet: &Vec<char>) -> (r: Option<NFA>)
        requires
            old(self).counter() + states_needed(*rx) <= i32::MAX,
        ensures
            ({
                let g = thompson(*rx, alphabet@.to_set(), old(self).counter());
                &&& final(self).counter() == g.4
                &&& r matches Some(n) && {
                    &&& n.transition@.to_set() == g.0
                    &&& n.epsilon_transition@.to_set() == g.1
                    &&& n.start == g.2
                    &&& n.finals@.to_set() == set![g.3]
                }
            }),
        decreases rx,
    {
        let ghost c = self.counter();
        let ghost sigma = alphabet@.to_set();
        proof {
            lemma_thompson_counter(*rx, sigma, c);
        }
        match rx {
            RegExp::Char(ch) => {
                let start = self.new_state();
                let end = self.new_state();
                let mut trans: Vec<(State, char, State)> = Vec::new();
                trans.push((start, *ch, end));
                let eps: Vec<(State, State)> = Vec::new();
                let finals = single(end);
                proof {
                    lemma_single_to_set((start, *ch, end));
                    assert(eps@.to_set() =~= Set::<(State, State)>::empty());
                }
                Some(NFA { transition: trans, epsilon_transition: eps, start, finals })
            },
            RegExp::Any => {
                let start = self.new_state();
                let end = self.new_state();
                let mut trans: Vec<(State, char, State)> = Vec::new();
                let mut i: usize = 0;
                while i < alphabet.len()
                    invariant
                        i <= alphabet.len(),
                        trans@.to_set() == Set::new(
                            |t: (State, char, State)|
                                t.0 == start && alphabet@.subrange(0, i as int).contains(t.1) && t.2 == end,
                        ),
                    decreases alphabet.len() - i,
                {
                    let ghost t0 = trans@;
                    trans.push((start, alphabet[i], end));
                    i += 1;
                    proof {
                        let a0 = alphabet@.subrange(0, i - 1);
                        let a1 = alphabet@.subrange(0, i as int);
                        t0.lemma_push_to_set_commute((start, alphabet@[i - 1], end));
                        assert(a1 =~= a0.push(alphabet@[i - 1]));
                        assert forall|x: char| a1.contains(x) <==> (a0.contains(x) || x == alphabet@[i - 1]) by {
                            if a1.contains(x) && x != alphabet@[i - 1] {
                                let k = choose|k: int| 0 <= k < a1.len() && a1[k] == x;
                                assert(a0[k] == x);
                            }
                            if a0.contains(x) {
                                let k = choose|k: int| 0 <= k < a0.len() && a0[k] == x;
                                assert(a1[k] == x);
                            }
                            if x == alphabet@[i - 1] {
                                assert(a1[i - 1] == x);
                            }
                        }
                        assert(trans@.to_set() =~= Set::new(
                            |t: (State, char, State)|
                                t.0 == start && alphabet@.subrange(0, i as int).contains(t.1) && t.2 == end,
                        ));
                    }
                }
                let eps: Vec<(State, State)> = Vec::new();
                let finals = single(end);
                proof {
                    assert(alphabet@.subrange(0, alphabet.len() as int) =~= alphabet@);
                    assert(trans@.to_set() =~= thompson(*rx, sigma, c).0);
                    assert(eps@.to_set() =~= Set::<(State, State)>::empty());
                }
                Some(NFA { transition: trans, epsilon_transition: eps, start, finals })
            },
            RegExp::Empty => {
                let start = self.new_state();
                let trans: Vec<(State, char, State)> = Vec::new();
                let eps: Vec<(State, State)> = Vec::new();
                let finals = single(start);
                proof {
                    assert(trans@.to_set() =~= Set::<(State, char, State)>::empty());
                    assert(eps@.to_set() =~= Set::<(State, State)>::empty());
                }
                Some(NFA { transition: trans, epsilon_transition: eps, start, finals })
            },
            RegExp::Concat { left, right } => {
                let l_nfa = match self.rx_to_nfa(left, alphabet) {
                    Some(n) => n,
                    None => return None,
                };
                proof {
                    lemma_thompson_counter(**left, sigma, c);
                    lemma_thompson_counter(**left, sigma, c + 1);
                }
                let r_nfa = match self.rx_to_nfa(right, alphabet) {
                    Some(n) => n,
                    None => return None,
                };
                let l_end = match self.end_state(&l_nfa) {
                    Some(q) => q,
                    None => return None,
                };
                let link = single_move(l_end, r_nfa.start);
                let eps_trans = self.eps_union(&l_nfa.epsilon_transition, &link);
                let transition = self.nfa_trans_union(&l_nfa.transition, &r_nfa.transition);
                let epsilon_transition = self.eps_union(&eps_trans, &r_nfa.epsilon_transition);
                proof {
                    let l = thompson(**left, sigma, c);
                    assert(l_nfa.finals@.to_set().contains(l.3));
                    assert(set![l_end].contains(l.3));
                    vstd::seq_lib::seq_to_set_distributes_over_add(l_nfa.transition@, r_nfa.transition@);
                    vstd::seq_lib::seq_to_set_distributes_over_add(l_nfa.epsilon_transition@, link@);
                    vstd::seq_lib::seq_to_set_distributes_over_add(eps_trans@, r_nfa.epsilon_transition@);
                    lemma_single_to_set((l_end, r_nfa.start));
                    assert(epsilon_transition@.to_set() =~= thompson(*rx, sigma, c).1);
                }
                Some(NFA { transition, epsilon_transition, start: l_nfa.start, finals: r_nfa.finals })
            },
            RegExp::Or { left, right } => {
                let start = self.new_state();
                let l_nfa = match self.rx_to_nfa(left, alphabet) {
                    Some(n) => n,
                    None => return None,
                };
                proof {
                    lemma_thompson_counter(**left, sigma, c);
                    lemma_thompson_counter(**left, sigma, c + 1);
                }
                let r_nfa = match self.rx_to_nfa(right, alphabet) {
                    Some(n) => n,
                    None => return None,
                };
                let end = self.new_state();
                let l_end = match self.end_state(&l_nfa) {
                    Some(q) => q,
                    None => return None,
                };
                let r_end = match self.end_state(&r_nfa) {
                    Some(q) => q,
                    None => return None,
                };
                let eps_trans = four_moves((start, l_nfa.start), (start, r_nfa.start), (l_end, end), (r_end, end));
                let inner_eps = self.eps_union(&l_nfa.epsilon_transition, &r_nfa.epsilon_transition);
                let transition = self.nfa_trans_union(&l_nfa.transition, &r_nfa.transition);
                let epsilon_transition = self.eps_union(&eps_trans, &inner_eps);
                let finals = single(end);
                proof {
                    let l = thompson(**left, sigma, c + 1);
                    let r = thompson(**right, sigma, l.4);
                    assert(l_nfa.finals@.to_set().contains(l.3));
                    assert(set![l_end].contains(l.3));
                    assert(r_nfa.finals@.to_set().contains(r.3));
                    assert(set![r_end].contains(r.3));
                    vstd::seq_lib::seq_to_set_distributes_over_add(l_nfa.transition@, r_nfa.transition@);
                    vstd::seq_lib::seq_to_set_distributes_over_add(l_nfa.epsilon_transition@, r_nfa.epsilon_transition@);
                    vstd::seq_lib::seq_to_set_distributes_over_add(eps_trans@, inner_eps@);
                    assert(epsilon_transition@.to_set() =~= thompson(*rx, sigma, c).1);
                }
                Some(NFA { transition, epsilon_transition, start, finals })
            },
            RegExp::Repeat(reg) => {
                let start = self.new_state();
                let reg_nfa = match self.rx_to_nfa(reg, alphabet) {
                    Some(n) => n,
                    None => return None,
                };
                let end = self.new_state();
                let reg_end = match self.end_state(&reg_nfa) {
                    Some(q) => q,
                    None => return None,
                };
                let eps_trans = four_moves((start, reg_nfa.start), (start, end), (reg_end, reg_nfa.start), (reg_end, end));
                let epsilon_transition = self.eps_union(&eps_trans, &reg_nfa.epsilon_transition);
                let finals = single(end);
                proof {
                    let i = thompson(**reg, sigma, c + 1);
                    assert(reg_nfa.finals@.to_set().contains(i.3));
                    assert(set![reg_end].contains(i.3));
                    vstd::seq_lib::seq_to_set_distributes_over_add(eps_trans@, reg_nfa.epsilon_transition@);
                    assert(epsilon_transition@.to_set() =~= thompson(*rx, sigma, c).1);
                }
                Some(NFA { transition: reg_nfa.transition, epsilon_transition, start, finals })
            },
        }
    }
}

/// The construction draws exactly the states it needs.
pub proof fn lemma_thompson_counter(rx: RegExp, sigma: Set<char>, c: int)
    ensures
        thompson(rx, sigma, c).4 == c + states_needed(rx),
        states_needed(rx) >= 1,
    decreases rx,
{
    match rx {
        RegExp::Concat { left, right } => {
            lemma_thompson_counter(*left, sigma, c);
            lemma_thompson_counter(*right, sigma, thompson(*left, sigma, c).4);
        },
        RegExp::Or { left, right } => {
            lemma_thompson_counter(*left, sigma, c + 1);
            lemma_thompson_counter(*right, sigma, thompson(*left, sigma, c + 1).4);
        },
        RegExp::Repeat(inner) => {
            lemma_thompson_counter(*inner, sigma, c + 1);
        },
        _ => {},
    }
}

proof fn lemma_single_to_set<T>(x: T)
    ensures
        seq![x].to_set() == set![x],
{
    assert(seq![x].to_set() =~= set![x]) by {
        assert(seq![x][0] == x);
    }
}

/// A set of states holding `s` alone.
fn single(s: State) -> (r: Vec<State>)
    ensures
        r@ == seq![s],
        r@.to_set() == set![s],
{
    let mut r: Vec<State> = Vec::new();
    r.push(s);
    proof {
        assert(r@ =~= seq![s]);
        lemma_single_to_set(s);
    }
    r
}

/// A table holding the one epsilon move `(p, q)`.
fn single_move(p: State, q: State) -> (r: Vec<(State, State)>)
    ensures
        r@.to_set() == set![(p, q)],
{
    let mut r: Vec<(State, State)> = Vec::new();
    r.push((p, q));
    proof {
        assert(r@ =~= seq![(p, q)]);
        lemma_single_to_set((p, q));
    }
    r
}

/// A table holding the four epsilon moves given.
fn four_moves(a: (State, State), b: (State, State), c: (State, State), d: (State, State)) -> (r: Vec<(State, State)>)
    ensures
        r@.to_set() == set![a, b, c, d],
{
    let mut r: Vec<(State, State)> = Vec::new();
    r.push(a);
    r.push(b);
    r.push(c);
    r.push(d);
    assert(r@.to_set() =~= set![a, b, c, d]) by {
        assert(r@[0] == a && r@[1] == b && r@[2] == c && r@[3] == d);
        assert(r@.contains(a) && r@.contains(b) && r@.contains(c) && r@.contains(d));
    }
    r
}

} // verus!
