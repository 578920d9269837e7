//! Nondeterministic and deterministic finite automata.
//!
//! A set of automaton states is held in a `Vec<State>`; its meaning is the
//! set of its elements (`v@.to_set()`). The sets this module builds hold no
//! duplicates.

use vstd::prelude::*;

use crate::text::chars_of;

verus! {

broadcast use vstd::seq_lib::group_seq_properties;

/// An automaton state: an identifier with no meaning beyond identity.
pub type State = i32;

/// A nondeterministic finite automaton with epsilon moves.
///
/// `transition` lists the labelled moves `(from, symbol, to)` and
/// `epsilon_transition` the moves `(from, to)` that consume no input.
/// A repeated entry means nothing more than a single one.
#[derive(Debug, Clone, PartialEq)]
pub struct NFA {
    pub transition: Vec<(State, char, State)>,
    pub epsilon_transition: Vec<(State, State)>,
    pub start: State,
    pub finals: Vec<State>,
}

/// A deterministic finite automaton: `transition` lists the moves
/// `(from, symbol, to)`; a missing move rejects. Its states are numbered
/// from 0, so that subset construction can number as many as it finds.
#[derive(Debug, Clone, PartialEq)]
pub struct DFA {
    pub transition: Vec<(usize, char, usize)>,
    pub start: usize,
    pub finals: Vec<usize>,
}

/// Does `v` hold `s`?
fn contains_state(v: &Vec<State>, s: State) -> (r: bool)
    ensures
        r == v@.contains(s),
{
    let mut i: usize = 0;
    while i < v.len()
        invariant
            i <= v.len(),
            forall|j: int| 0 <= j < i ==> v@[j] != s,
        decreases v.len() - i,
    {
        if v[i] == s {
            return true;
        }
        i += 1;
    }
    false
}

/// Adds `s` to the set `v` unless it is already there.
fn insert_state(v: &mut Vec<State>, s: State)
    ensures
        final(v)@ == (if old(v)@.contains(s) { old(v)@ } else { old(v)@.push(s) }),
        final(v)@.to_set() == old(v)@.to_set().insert(s),
        old(v)@.no_duplicates() ==> final(v)@.no_duplicates(),
{
    if !contains_state(v, s) {
        v.push(s);
    }
    proof {
        if old(v)@.contains(s) {
            assert(old(v)@.to_set() =~= old(v)@.to_set().insert(s));
        }
    }
}

impl NFA {
    /// States reached from `xs` by at most one epsilon move.
    pub open spec fn eps_step(&self, xs: Set<State>) -> Set<State> {
        Set::new(
            |q: State|
                xs.contains(q) || exists|p: State|
                    xs.contains(p) && #[trigger] self.epsilon_transition@.contains((p, q)),
        )
    }

    /// States reached from `xs` by at most `n` epsilon moves.
    pub open spec fn eps_iter(&self, xs: Set<State>, n: nat) -> Set<State>
        decreases n,
    {
        if n == 0 {
            xs
        } else {
            self.eps_step(self.eps_iter(xs, (n - 1) as nat))
        }
    }

    /// States reached from `xs` by any number of epsilon moves.
    pub open spec fn eps_closure(&self, xs: Set<State>) -> Set<State> {
        Set::new(|q: State| exists|n: nat| #[trigger] self.eps_iter(xs, n).contains(q))
    }

    /// States reached from `xs` by one move labelled `c`.
    pub open spec fn sym_step(&self, xs: Set<State>, c: char) -> Set<State> {
        Set::new(
            |q: State|
                exists|p: State| xs.contains(p) && #[trigger] self.transition@.contains((p, c, q)),
        )
    }

    /// One input symbol: a labelled move, then the epsilon closure.
    pub open spec fn transit_spec(&self, xs: Set<State>, c: char) -> Set<State> {
        self.eps_closure(self.sym_step(xs, c))
    }

    /// The states the automaton can be in after reading `w`.
    pub open spec fn run(&self, w: Seq<char>) -> Set<State>
        decreases w.len(),
    {
        if w.len() == 0 {
            self.eps_closure(set![self.start])
        } else {
            self.transit_spec(self.run(w.drop_last()), w.last())
        }
    }

    /// Does `xs` hold an accepting state?
    pub open spec fn hits_final(&self, xs: Set<State>) -> bool {
        exists|q: State| xs.contains(q) && #[trigger] self.finals@.contains(q)
    }

    /// The language of the automaton.
    pub open spec fn accepts(&self, w: Seq<char>) -> bool {
        self.hits_final(self.run(w))
    }

    /// Every state in `states`, and every state one epsilon move away from one.
    pub fn epsilon_closure_step(&self, states: &Vec<State>) -> (r: Vec<State>)
        ensures
            r@.to_set() == self.eps_step(states@.to_set()),
            r@.no_duplicates(),
    {
        let mut result: Vec<State> = Vec::new();
        let mut i: usize = 0;
        while i < states.len()
            invariant
                i <= states.len(),
                result@.no_duplicates(),
                result@.to_set() == self.eps_step(states@.subrange(0, i as int).to_set()),
            decreases states.len() - i,
        {
            let p = states[i];
            let ghost before = result@.to_set();
            insert_state(&mut result, p);
            let mut j: usize = 0;
            while j < self.epsilon_transition.len()
                invariant
                    i < states.len(),
                    p == states@[i as int],
                    j <= self.epsilon_transition.len(),
                    result@.no_duplicates(),
                    result@.to_set() == before.insert(p).union(
                        Set::new(
                            |q: State|
                                exists|k: int|
                                    0 <= k < j && #[trigger] self.epsilon_transition@[k] == (p, q),
                        ),
                    ),
                decreases self.epsilon_transition.len() - j,
            {
                let (a, b) = self.epsilon_transition[j];
                if a == p {
                    insert_state(&mut result, b);
                }
                j += 1;
            }
            proof {
                let xs = states@.subrange(0, i as int).to_set();
                let ys = states@.subrange(0, i + 1).to_set();
                assert(ys =~= xs.insert(p)) by {
                    assert(states@.subrange(0, i + 1) =~= states@.subrange(0, i as int).push(p));
                }
                assert(result@.to_set() =~= self.eps_step(ys)) by {
                    assert forall|q: State| self.eps_step(ys).contains(q) implies result@.to_set().contains(q) by {
                        if !ys.contains(q) {
                            let pp = choose|pp: State| ys.contains(pp) && self.epsilon_transition@.contains((pp, q));
                            if pp != p {
                                assert(self.eps_step(xs).contains(q));
                            } else {
                                let k = choose|k: int| 0 <= k < self.epsilon_transition@.len() && self.epsilon_transition@[k] == (pp, q);
                                assert(self.epsilon_transition@[k] == (p, q));
                            }
                        }
                    }
                    assert forall|q: State| result@.to_set().contains(q) implies self.eps_step(ys).contains(q) by {
                        if before.contains(q) {
                            assert(self.eps_step(xs).contains(q));
                        } else if q != p {
                            let k = choose|k: int| 0 <= k < self.epsilon_transition@.len() && #[trigger] self.epsilon_transition@[k] == (p, q);
                            assert(self.epsilon_transition@.contains((p, q)));
                        }
                    }
                }
            }
            i += 1;
        }
        assert(states@.subrange(0, states.len() as int) =~= states@);
        result
    }

    /// Every state reached from `states` by epsilon moves alone, `states` included.
    pub fn get_epsilon_closure(&self, states: Vec<State>) -> (r: Vec<State>)
        ensures
            r@.to_set() == self.eps_closure(states@.to_set()),
            r@.no_duplicates(),
    {
        let ghost xs = states@.to_set();
        let ghost bound = xs.union(self.eps_targets());
        proof {
            self.lemma_eps_targets_finite();
        }
        let mut cur = self.epsilon_closure_step(&states);
        let ghost mut k: nat = 1;
        assert(self.eps_iter(xs, 1) == self.eps_step(self.eps_iter(xs, 0)));
        loop
            invariant
                cur@.no_duplicates(),
                cur@.to_set() == self.eps_iter(xs, k),
                bound.finite(),
                bound == xs.union(self.eps_targets()),
                xs == states@.to_set(),
            decreases bound.len() - cur@.len(),
        {
            let next = self.epsilon_closure_step(&cur);
            proof {
                self.lemma_eps_iter_bounded(xs, k + 1);
                assert(self.eps_iter(xs, k + 1) == self.eps_step(self.eps_iter(xs, k)));
                cur@.unique_seq_to_set();
                next@.unique_seq_to_set();
                vstd::set_lib::lemma_len_subset(next@.to_set(), bound);
            }
            if next.len() == cur.len() {
                proof {
                    assert(next@.to_set() =~= cur@.to_set()) by {
                        if !(next@.to_set() =~= cur@.to_set()) {
                            let q = choose|q: State| next@.to_set().contains(q) && !cur@.to_set().contains(q);
                            cur@.to_set().lemma_subset_not_in_lt(next@.to_set(), q);
                        }
                    }
                    assert(self.eps_step(self.eps_iter(xs, k)) == self.eps_iter(xs, k));
                    self.lemma_eps_closure_at_fixpoint(xs, k);
                    assert(next@.to_set() == self.eps_closure(xs));
                }
                return next;
            }
            proof {
                assert(cur@.to_set().subset_of(next@.to_set()));
                vstd::set_lib::lemma_len_subset(cur@.to_set(), next@.to_set());
            }
            cur = next;
            proof {
                k = k + 1;
            }
        }
    }

    /// The states reached from `current` by one move labelled `sym`, closed
    /// under epsilon moves.
    pub fn transit(&self, current: Vec<State>, sym: char) -> (r: Vec<State>)
        ensures
            r@.to_set() == self.transit_spec(current@.to_set(), sym),
            r@.no_duplicates(),
    {
        let mut result: Vec<State> = Vec::new();
        let mut i: usize = 0;
        while i < current.len()
            invariant
                i <= current.len(),
                result@.to_set() == self.sym_step(current@.subrange(0, i as int).to_set(), sym),
            decreases current.len() - i,
        {
            let p = current[i];
            let ghost before = result@.to_set();
            let mut j: usize = 0;
            while j < self.transition.len()
                invariant
                    i < current.len(),
                    p == current@[i as int],
                    j <= self.transition.len(),
                    result@.to_set() == before.union(
                        Set::new(
                            |q: State|
                                exists|k: int| 0 <= k < j && #[trigger] self.transition@[k] == (p, sym, q),
                        ),
                    ),
                decreases self.transition.len() - j,
            {
                let (a, c, b) = self.transition[j];
                if a == p && c == sym {
                    insert_state(&mut result, b);
                }
                j += 1;
            }
            proof {
                let xs = current@.subrange(0, i as int).to_set();
                let ys = current@.subrange(0, i + 1).to_set();
                assert(ys =~= xs.insert(p)) by {
                    assert(current@.subrange(0, i + 1) =~= current@.subrange(0, i as int).push(p));
                }
                assert(result@.to_set() =~= self.sym_step(ys, sym)) by {
                    assert forall|q: State| self.sym_step(ys, sym).contains(q) implies result@.to_set().contains(q) by {
                        let pp = choose|pp: State| ys.contains(pp) && self.transition@.contains((pp, sym, q));
                        if pp != p {
                            assert(self.sym_step(xs, sym).contains(q));
                        } else {
                            let k = choose|k: int| 0 <= k < self.transition@.len() && self.transition@[k] == (pp, sym, q);
                            assert(self.transition@[k] == (p, sym, q));
                        }
                    }
                    assert forall|q: State| result@.to_set().contains(q) implies self.sym_step(ys, sym).contains(q) by {
                        if !before.contains(q) {
                            let k = choose|k: int| 0 <= k < self.transition@.len() && #[trigger] self.transition@[k] == (p, sym, q);
                            assert(self.transition@.contains((p, sym, q)));
                        }
                    }
                }
            }
            i += 1;
        }
        assert(current@.subrange(0, current.len() as int) =~= current@);
        self.get_epsilon_closure(result)
    }

    /// Does `states` hold an accepting state?
    pub fn is_final(&self, states: Vec<State>) -> (r: bool)
        ensures
            r == self.hits_final(states@.to_set()),
    {
        let mut i: usize = 0;
        while i < states.len()
            invariant
                i <= states.len(),
                forall|j: int| 0 <= j < i ==> !self.finals@.contains(#[trigger] states@[j]),
            decreases states.len() - i,
        {
            if contains_state(&self.finals, states[i]) {
                assert(states@.to_set().contains(states@[i as int]));
                return true;
            }
            i += 1;
        }
        proof {
            if self.hits_final(states@.to_set()) {
                let q = choose|q: State| states@.to_set().contains(q) && #[trigger] self.finals@.contains(q);
                let j = choose|j: int| 0 <= j < states@.len() && states@[j] == q;
                assert(!self.finals@.contains(states@[j]));
            }
        }
        false
    }

    /// Does the automaton accept `code`, read one character at a time?
    pub fn try_accept(&self, code: &str) -> (r: bool)
        ensures
            r == self.accepts(code@),
    {
        let input = chars_of(code);
        let mut start_set: Vec<State> = Vec::new();
        start_set.push(self.start);
        assert(start_set@.to_set() =~= set![self.start]) by {
            assert(start_set@ =~= seq![self.start]);
            assert(start_set@.contains(self.start));
        }
        let mut current = self.get_epsilon_closure(start_set);
        let mut i: usize = 0;
        while i < input.len()
            invariant
                i <= input.len(),
                input@ == code@,
                current@.to_set() == self.run(input@.take(i as int)),
            decreases input.len() - i,
        {
            assert(input@.take(i + 1).drop_last() =~= input@.take(i as int));
            current = self.transit(current, input[i]);
            i += 1;
        }
        assert(input@.take(input.len() as int) =~= code@);
        self.is_final(current)
    }

    /// Closing a set under epsilon moves a second time changes nothing.
    pub proof fn lemma_epsilon_closure_idempotent(&self, xs: Set<State>)
        ensures
            self.eps_closure(self.eps_closure(xs)) == self.eps_closure(xs),
    {
        let c = self.eps_closure(xs);
        assert forall|q: State| self.eps_step(c).contains(q) implies c.contains(q) by {
            if !c.contains(q) {
                let p = choose|p: State| c.contains(p) && #[trigger] self.epsilon_transition@.contains((p, q));
                let n = choose|n: nat| #[trigger] self.eps_iter(xs, n).contains(p);
                assert(self.eps_iter(xs, n + 1).contains(q));
            }
        }
        assert(self.eps_step(c) =~= c);
        assert(self.eps_iter(c, 0) == c);
        self.lemma_eps_closure_at_fixpoint(c, 0);
    }

    /// Every state the automaton names.
    pub open spec fn states(&self) -> Set<State> {
        set![self.start].union(self.finals@.to_set()).union(
            self.transition@.map_values(|t: (State, char, State)| t.0).to_set(),
        ).union(self.move_targets()).union(
            self.epsilon_transition@.map_values(|e: (State, State)| e.0).to_set(),
        ).union(self.eps_targets())
    }

    /// The targets of the labelled moves.
    pub open spec fn move_targets(&self) -> Set<State> {
        self.transition@.map_values(|t: (State, char, State)| t.2).to_set()
    }

    /// The symbols that label a move.
    pub open spec fn symbols_spec(&self) -> Set<char> {
        Set::new(|c: char| exists|k: int| 0 <= k < self.transition@.len() && #[trigger] self.transition@[k].1 == c)
    }

    /// Whatever a step of the automaton reaches lies among its states.
    proof fn lemma_transit_within(&self, xs: Set<State>, c: char)
        ensures
            self.states().finite(),
            self.transit_spec(xs, c).subset_of(self.states()),
            self.eps_closure(set![self.start]).subset_of(self.states()),
    {
        self.lemma_eps_targets_finite();
        self.lemma_closure_within(self.sym_step(xs, c));
        self.lemma_closure_within(set![self.start]);
        assert forall|q: State| self.sym_step(xs, c).contains(q) implies self.move_targets().contains(q) by {
            let p = choose|p: State| xs.contains(p) && #[trigger] self.transition@.contains((p, c, q));
            let k = choose|k: int| 0 <= k < self.transition@.len() && self.transition@[k] == (p, c, q);
            assert(self.transition@.map_values(|t: (State, char, State)| t.2)[k] == q);
        }
    }

    proof fn lemma_closure_within(&self, xs: Set<State>)
        ensures
            self.eps_closure(xs).subset_of(xs.union(self.eps_targets())),
    {
        assert forall|q: State| self.eps_closure(xs).contains(q) implies xs.union(self.eps_targets()).contains(q) by {
            let n = choose|n: nat| #[trigger] self.eps_iter(xs, n).contains(q);
            self.lemma_eps_iter_bounded(xs, n);
        }
    }

    /// Nothing is reached from no state.
    proof fn lemma_closure_of_empty(&self)
        ensures
            self.eps_closure(Set::empty()) == Set::<State>::empty(),
    {
        assert forall|n: nat| #[trigger] self.eps_iter(Set::empty(), n) == Set::<State>::empty() by {
            self.lemma_iter_of_empty(n);
        }
        assert(self.eps_closure(Set::empty()) =~= Set::<State>::empty());
    }

    proof fn lemma_iter_of_empty(&self, n: nat)
        ensures
            self.eps_iter(Set::empty(), n) == Set::<State>::empty(),
        decreases n,
    {
        if n > 0 {
            self.lemma_iter_of_empty((n - 1) as nat);
            assert(self.eps_step(Set::empty()) =~= Set::<State>::empty());
        }
    }

    /// The symbols that label a move, each once.
    fn symbols(&self) -> (r: Vec<char>)
        ensures
            r@.no_duplicates(),
            r@.to_set() == self.symbols_spec(),
    {
        let mut r: Vec<char> = Vec::new();
        let mut k: usize = 0;
        while k < self.transition.len()
            invariant
                k <= self.transition.len(),
                r@.no_duplicates(),
                r@.to_set() == Set::new(|c: char| exists|j: int| 0 <= j < k && #[trigger] self.transition@[j].1 == c),
            decreases self.transition.len() - k,
        {
            let (_, c, _) = self.transition[k];
            let ghost before = r@;
            let mut i: usize = 0;
            let mut seen = false;
            while i < r.len()
                invariant
                    i <= r.len(),
                    seen == exists|j: int| 0 <= j < i && r@[j] == c,
                decreases r.len() - i,
            {
                if r[i] == c {
                    seen = true;
                }
                i += 1;
            }
            if !seen {
                r.push(c);
                proof {
                    before.lemma_push_to_set_commute(c);
                }
            } else {
                assert(before.to_set() =~= before.to_set().insert(c)) by {
                    let j = choose|j: int| 0 <= j < before.len() && before[j] == c;
                    assert(before.contains(c));
                }
            }
            assert(r@.to_set() =~= Set::new(|c2: char| exists|j: int| 0 <= j < k + 1 && #[trigger] self.transition@[j].1 == c2)) by {
                assert(self.transition@[k as int].1 == c);
                assert(r@.to_set() == before.to_set().insert(c));
                assert forall|c2: char| (exists|j: int| 0 <= j < k + 1 && #[trigger] self.transition@[j].1 == c2)
                    implies r@.to_set().contains(c2) by {
                    let j = choose|j: int| 0 <= j < k + 1 && #[trigger] self.transition@[j].1 == c2;
                    if j < k {
                        assert(before.to_set().contains(c2));
                    }
                }
            }
            k += 1;
        }
        assert(self.symbols_spec() =~= r@.to_set());
        r
    }

    /// An equivalent deterministic automaton, by subset construction: each
    /// of its states stands for a distinct set of states of `self`, and it
    /// has at most 2^n states where `self` has n.
    pub fn to_dfa(&self) -> (d: DFA)
        ensures
            d.start == 0,
            d.deterministic(),
            forall|w: Seq<char>| #[trigger] d.accepts(w) == self.accepts(w),
            d.states().len() <= pow2(self.states().len()),
            exists|sets: Seq<Set<State>>| #[trigger] self.subset_table(d, sets),
    {
        let alphabet = self.symbols();
        let ghost u = self.states();
        let mut start_set: Vec<State> = Vec::new();
        start_set.push(self.start);
        assert(start_set@.to_set() =~= set![self.start]) by {
            assert(start_set@ =~= seq![self.start]);
            assert(start_set@.contains(self.start));
        }
        let first = self.get_epsilon_closure(start_set);
        let mut new_states: Vec<Vec<State>> = Vec::new();
        new_states.push(first);
        let ghost mut words: Seq<Seq<char>> = seq![Seq::empty()];
        let mut trans: Vec<(usize, char, usize)> = Vec::new();
        let mut src: usize = 0;
        proof {
            self.lemma_transit_within(Set::empty(), 'a');
            lemma_distinct_subsets_bound(u, views(new_states@));
            assert(self.run(words[0]) == views(new_states@)[0]);
        }
        while src < new_states.len()
            invariant
                u == self.states(),
                u.finite(),
                alphabet@.no_duplicates(),
                alphabet@.to_set() == self.symbols_spec(),
                1 <= new_states.len() <= pow2(u.len()),
                src <= new_states.len(),
                views(new_states@)[0] == self.eps_closure(set![self.start]),
                views(new_states@).no_duplicates(),
                forall|i: int| 0 <= i < new_states.len() ==> (#[trigger] views(new_states@)[i]).subset_of(u),
                words.len() == new_states.len(),
                forall|i: int| 0 <= i < new_states.len() ==> self.run(#[trigger] words[i]) == views(new_states@)[i],
                self.table_sound(views(new_states@), trans@),
                forall|k: int| 0 <= k < trans.len() ==> (#[trigger] trans@[k]).0 < src,
                forall|i: int, j: int|
                    0 <= i < j < trans.len() ==> (#[trigger] trans@[i].0, trans@[i].1) != (#[trigger] trans@[j].0, trans@[j].1),
                forall|i: int, c: char| 0 <= i < src && alphabet@.contains(c) ==> #[trigger] has_move(trans@, i, c),
            decreases pow2(u.len()) - src,
        {
            let cur = new_states[src].clone();
            assert(cur@ =~= new_states@[src as int]@);
            let base = trans.len();
            let mut ci: usize = 0;
            while ci < alphabet.len()
                invariant
                    u == self.states(),
                    u.finite(),
                    alphabet@.no_duplicates(),
                    alphabet@.to_set() == self.symbols_spec(),
                    1 <= new_states.len() <= pow2(u.len()),
                    src < new_states.len(),
                    cur@.to_set() == views(new_states@)[src as int],
                    views(new_states@)[0] == self.eps_closure(set![self.start]),
                    views(new_states@).no_duplicates(),
                    forall|i: int| 0 <= i < new_states.len() ==> (#[trigger] views(new_states@)[i]).subset_of(u),
                    words.len() == new_states.len(),
                    forall|i: int| 0 <= i < new_states.len() ==> self.run(#[trigger] words[i]) == views(new_states@)[i],
                    self.table_sound(views(new_states@), trans@),
                    ci <= alphabet.len(),
                    trans.len() == base + ci,
                    forall|k: int| 0 <= k < base ==> (#[trigger] trans@[k]).0 < src,
                    forall|k: int| base <= k < trans.len() ==> (#[trigger] trans@[k]).0 == src && trans@[k].1 == alphabet@[k - base],
                    forall|i: int, j: int|
                        0 <= i < j < base ==> (#[trigger] trans@[i].0, trans@[i].1) != (#[trigger] trans@[j].0, trans@[j].1),
                    forall|i: int, c: char| 0 <= i < src && alphabet@.contains(c) ==> #[trigger] has_move(trans@, i, c),
                decreases alphabet.len() - ci,
            {
                let c = alphabet[ci];
                let step = self.transit(cur.clone(), c);
                let next = self.get_epsilon_closure(step);
                proof {
                    self.lemma_epsilon_closure_idempotent(self.sym_step(cur@.to_set(), c));
                    self.lemma_transit_within(cur@.to_set(), c);
                }
                let ghost before = views(new_states@);
                let dest = match position_of(&new_states, &next) {
                    Some(pos) => pos,
                    None => {
                        new_states.push(next);
                        proof {
                            assert(views(new_states@) =~= before.push(next@.to_set()));
                            lemma_distinct_subsets_bound(u, views(new_states@));
                            let u_next = words[src as int].push(c);
                            assert(u_next.drop_last() =~= words[src as int]);
                            assert(self.run(u_next) == next@.to_set());
                            words = words.push(u_next);
                        }
                        new_states.len() - 1
                    },
                };
                let ghost t0 = trans@;
                trans.push((src, c, dest));
                proof {
                    assert forall|i: int, cc: char| 0 <= i < src && alphabet@.contains(cc) implies #[trigger] has_move(trans@, i, cc) by {
                        assert(has_move(t0, i, cc));
                        let k = choose|k: int| 0 <= k < t0.len() && t0[k].0 == i && t0[k].1 == cc;
                        assert(trans@[k] == t0[k]);
                    }
                }
                ci += 1;
            }
            proof {
                assert forall|i: int, j: int| 0 <= i < j < trans.len() implies (#[trigger] trans@[i].0, trans@[i].1) != (#[trigger] trans@[j].0, trans@[j].1) by {
                    if j >= base && i >= base {
                        assert(alphabet@[i - base] != alphabet@[j - base]);
                    }
                }
                assert forall|i: int, c: char| 0 <= i < src + 1 && alphabet@.contains(c) implies #[trigger] has_move(trans@, i, c) by {
                    if i == src {
                        let j = choose|j: int| 0 <= j < alphabet@.len() && alphabet@[j] == c;
                        assert(trans@[base + j].0 == i && trans@[base + j].1 == c);
                    }
                }
            }
            src += 1;
        }
        let mut finals: Vec<usize> = Vec::new();
        let mut i: usize = 0;
        while i < new_states.len()
            invariant
                i <= new_states.len(),
                forall|q: usize| #[trigger] finals@.contains(q) <==> q < i && self.hits_final(views(new_states@)[q as int]),
            decreases new_states.len() - i,
        {
            let set_i = new_states[i].clone();
            assert(set_i@ =~= new_states@[i as int]@);
            if self.is_final(set_i) {
                finals.push(i);
            }
            i += 1;
        }
        let d = DFA { transition: trans, start: 0, finals };
        proof {
            let sets = views(new_states@);
            assert forall|i: int, c: char|
                0 <= i < sets.len() && self.symbols_spec().contains(c) implies #[trigger] has_move(d.transition@, i, c) by {
                assert(alphabet@.to_set().contains(c));
            }
            assert forall|w: Seq<char>| #[trigger] d.accepts(w) == self.accepts(w) by {
                self.lemma_subset_run(d, sets, w);
                self.lemma_closure_of_empty();
            }
            lemma_dfa_states_bound(d, new_states.len() as nat);
            assert forall|i: int| 0 <= i < sets.len() implies #[trigger] self.reachable(sets[i]) by {
                assert(self.run(words[i]) == sets[i]);
            }
            assert(self.subset_table(d, sets));
        }
        d
    }

    /// `d` numbers distinct sets of states of `self` from 0, the first being
    /// where `self` starts, each one where `self` can be after some input:
    /// each move of `d` goes from a set to the set one step of `self`
    /// reaches from it, every set has a move for every symbol of `self`,
    /// and a set is accepting when it holds an accepting state.
    pub open spec fn subset_table(&self, d: DFA, sets: Seq<Set<State>>) -> bool {
        &&& d.start == 0
        &&& sets.len() >= 1
        &&& sets[0] == self.eps_closure(set![self.start])
        &&& sets.no_duplicates()
        &&& self.table_sound(sets, d.transition@)
        &&& forall|i: int, c: char|
            0 <= i < sets.len() && self.symbols_spec().contains(c) ==> #[trigger] has_move(d.transition@, i, c)
        &&& forall|q: usize| #[trigger] d.finals@.contains(q) <==> q < sets.len() && self.hits_final(sets[q as int])
        &&& forall|i: int| 0 <= i < sets.len() ==> #[trigger] self.reachable(sets[i])
    }

    /// `self` can be in exactly the states of `xs` after some input.
    pub open spec fn reachable(&self, xs: Set<State>) -> bool {
        exists|u: Seq<char>| #[trigger] self.run(u) == xs
    }

    /// Each move of `t` goes between numbered sets, as one step of `self` does.
    pub open spec fn table_sound(&self, sets: Seq<Set<State>>, t: Seq<(usize, char, usize)>) -> bool {
        forall|k: int|
            0 <= k < t.len() ==> {
                &&& (#[trigger] t[k]).0 < sets.len()
                &&& t[k].2 < sets.len()
                &&& self.symbols_spec().contains(t[k].1)
                &&& sets[t[k].2 as int] == self.transit_spec(sets[t[k].0 as int], t[k].1)
            }
    }

    /// A table built by subset construction runs as `self` does: on every
    /// input it stops in the set of states `self` reaches, or misses a move
    /// exactly where `self` reaches no state.
    pub proof fn lemma_subset_run(&self, d: DFA, sets: Seq<Set<State>>, w: Seq<char>)
        requires
            d.start == 0,
            sets.len() >= 1,
            sets[0] == self.eps_closure(set![self.start]),
            self.table_sound(sets, d.transition@),
            d.deterministic(),
            forall|i: int, c: char|
                0 <= i < sets.len() && self.symbols_spec().contains(c) ==> #[trigger] has_move(d.transition@, i, c),
            forall|q: usize| #[trigger] d.finals@.contains(q) <==> q < sets.len() && self.hits_final(sets[q as int]),
        ensures
            match d.run(w) {
                Some(i) => i < sets.len() && sets[i as int] == self.run(w),
                None => self.run(w) == Set::<State>::empty(),
            },
            d.accepts(w) == self.accepts(w),
        decreases w.len(),
    {
        self.lemma_closure_of_empty();
        if w.len() > 0 {
            let v = w.drop_last();
            let c = w.last();
            self.lemma_subset_run(d, sets, v);
            lemma_dfa_lookup(d.transition@, 0, c);
            match d.run(v) {
                Some(i) => {
                    lemma_dfa_lookup(d.transition@, i, c);
                    if self.symbols_spec().contains(c) {
                        assert(has_move(d.transition@, i as int, c));
                        let k = choose|k: int| 0 <= k < d.transition@.len() && d.transition@[k].0 == i && d.transition@[k].1 == c;
                        assert(dfa_lookup(d.transition@, i, c) == Some(d.transition@[k].2));
                        assert(sets[d.transition@[k].2 as int] == self.transit_spec(sets[i as int], c));
                    } else {
                        assert(!self.symbols_spec().contains(c));
                        assert forall|k: int| 0 <= k < d.transition@.len() implies !(#[trigger] d.transition@[k].0 == i && d.transition@[k].1 == c) by {
                            assert(self.symbols_spec().contains(d.transition@[k].1));
                        }
                        assert(self.sym_step(self.run(v), c) =~= Set::<State>::empty()) by {
                            if exists|q: State| self.sym_step(self.run(v), c).contains(q) {
                                let q = choose|q: State| self.sym_step(self.run(v), c).contains(q);
                                let p = choose|p: State| self.run(v).contains(p) && #[trigger] self.transition@.contains((p, c, q));
                                let k = choose|k: int| 0 <= k < self.transition@.len() && self.transition@[k] == (p, c, q);
                                assert(self.transition@[k].1 == c);
                            }
                        }
                    }
                },
                None => {
                    assert(self.sym_step(Set::empty(), c) =~= Set::<State>::empty());
                },
            }
        } else {
            assert(self.run(w) == sets[0]);
        }
        match d.run(w) {
            Some(i) => {
                assert(d.finals@.contains(i) == self.hits_final(sets[i as int]));
            },
            None => {},
        }
    }

    /// The targets of the epsilon moves.
    pub open spec fn eps_targets(&self) -> Set<State> {
        self.epsilon_transition@.map_values(|e: (State, State)| e.1).to_set()
    }

    proof fn lemma_eps_targets_finite(&self)
        ensures
            self.eps_targets().finite(),
            forall|p: State, q: State| #[trigger] self.epsilon_transition@.contains((p, q))
                ==> self.eps_targets().contains(q),
    {
        self.epsilon_transition@.map_values(|e: (State, State)| e.1).lemma_cardinality_of_set();
        assert forall|p: State, q: State| #[trigger] self.epsilon_transition@.contains((p, q))
            implies self.eps_targets().contains(q) by {
            let i = choose|i: int| 0 <= i < self.epsilon_transition@.len() && self.epsilon_transition@[i] == (p, q);
            assert(self.epsilon_transition@.map_values(|e: (State, State)| e.1)[i] == q);
        }
    }

    proof fn lemma_eps_iter_bounded(&self, xs: Set<State>, n: nat)
        ensures
            self.eps_iter(xs, n).subset_of(xs.union(self.eps_targets())),
        decreases n,
    {
        self.lemma_eps_targets_finite();
        if n > 0 {
            self.lemma_eps_iter_bounded(xs, (n - 1) as nat);
        }
    }

    /// More epsilon moves reach no fewer states.
    pub proof fn lemma_eps_iter_mono(&self, xs: Set<State>, m: nat, n: nat)
        requires
            m <= n,
        ensures
            self.eps_iter(xs, m).subset_of(self.eps_iter(xs, n)),
        decreases n - m,
    {
        if m < n {
            self.lemma_eps_iter_mono(xs, m, (n - 1) as nat);
        }
    }

    proof fn lemma_eps_iter_stable(&self, xs: Set<State>, k: nat, n: nat)
        requires
            self.eps_step(self.eps_iter(xs, k)) == self.eps_iter(xs, k),
            k <= n,
        ensures
            self.eps_iter(xs, n) == self.eps_iter(xs, k),
        decreases n - k,
    {
        if k < n {
            self.lemma_eps_iter_stable(xs, k, (n - 1) as nat);
        }
    }

    /// Once a round of epsilon moves adds nothing, the closure has been reached.
    pub proof fn lemma_eps_closure_at_fixpoint(&self, xs: Set<State>, k: nat)
        requires
            self.eps_step(self.eps_iter(xs, k)) == self.eps_iter(xs, k),
        ensures
            self.eps_closure(xs) == self.eps_iter(xs, k),
    {
        assert forall|q: State| self.eps_closure(xs).contains(q) implies self.eps_iter(xs, k).contains(q) by {
            let n = choose|n: nat| #[trigger] self.eps_iter(xs, n).contains(q);
            if n <= k {
                self.lemma_eps_iter_mono(xs, n, k);
            } else {
                self.lemma_eps_iter_stable(xs, k, n);
            }
        }
        assert forall|q: State| self.eps_iter(xs, k).contains(q) implies self.eps_closure(xs).contains(q) by {
            assert(self.eps_iter(xs, k).contains(q));
        }
        assert(self.eps_closure(xs) =~= self.eps_iter(xs, k));
    }
}

/// The set that each listed state set stands for.
pub open spec fn views(v: Seq<Vec<State>>) -> Seq<Set<State>> {
    v.map_values(|x: Vec<State>| x@.to_set())
}

/// Does `t` hold a move from `i` labelled `c`?
pub open spec fn has_move(t: Seq<(usize, char, usize)>, i: int, c: char) -> bool {
    exists|k: int| 0 <= k < t.len() && t[k].0 == i && t[k].1 == c
}

/// 2 to the power `n`.
pub open spec fn pow2(n: nat) -> nat
    decreases n,
{
    if n == 0 {
        1
    } else {
        2 * pow2((n - 1) as nat)
    }
}

/// Do `a` and `b` hold the same states?
fn same_set(a: &Vec<State>, b: &Vec<State>) -> (r: bool)
    ensures
        r == (a@.to_set() == b@.to_set()),
{
    let mut i: usize = 0;
    while i < a.len()
        invariant
            i <= a.len(),
            forall|j: int| 0 <= j < i ==> b@.contains(#[trigger] a@[j]),
        decreases a.len() - i,
    {
        if !contains_state(b, a[i]) {
            assert(a@.to_set().contains(a@[i as int]));
            return false;
        }
        i += 1;
    }
    let mut i: usize = 0;
    while i < b.len()
        invariant
            i <= b.len(),
            forall|j: int| 0 <= j < a.len() ==> b@.contains(#[trigger] a@[j]),
            forall|j: int| 0 <= j < i ==> a@.contains(#[trigger] b@[j]),
        decreases b.len() - i,
    {
        if !contains_state(a, b[i]) {
            assert(b@.to_set().contains(b@[i as int]));
            return false;
        }
        i += 1;
    }
    assert(a@.to_set() =~= b@.to_set());
    true
}

/// The index of the first set in `sets` that holds the same states as `x`.
fn position_of(sets: &Vec<Vec<State>>, x: &Vec<State>) -> (r: Option<usize>)
    ensures
        match r {
            Some(i) => i < sets.len() && views(sets@)[i as int] == x@.to_set(),
            None => forall|i: int| 0 <= i < sets.len() ==> #[trigger] views(sets@)[i] != x@.to_set(),
        },
{
    let mut i: usize = 0;
    while i < sets.len()
        invariant
            i <= sets.len(),
            forall|j: int| 0 <= j < i ==> #[trigger] views(sets@)[j] != x@.to_set(),
        decreases sets.len() - i,
    {
        if same_set(&sets[i], x) {
            return Some(i);
        }
        i += 1;
    }
    None
}

/// Distinct subsets of a finite set `u` number at most 2^|u|.
pub proof fn lemma_distinct_subsets_bound(u: Set<State>, ss: Seq<Set<State>>)
    requires
        u.finite(),
        ss.no_duplicates(),
        forall|i: int| 0 <= i < ss.len() ==> (#[trigger] ss[i]).subset_of(u),
    ensures
        ss.len() <= pow2(u.len()),
{
    ss.unique_seq_to_set();
    lemma_subset_family_bound(u, ss.to_set());
}

/// A family of subsets of a finite set `u` has at most 2^|u| members.
pub proof fn lemma_subset_family_bound(u: Set<State>, f: Set<Set<State>>)
    requires
        u.finite(),
        forall|s: Set<State>| #[trigger] f.contains(s) ==> s.subset_of(u),
    ensures
        f.finite(),
        f.len() <= pow2(u.len()),
    decreases u.len(),
{
    if u.len() == 0 {
        u.lemma_len0_is_empty();
        let e = Set::<State>::empty();
        assert forall|s: Set<State>| f.contains(s) implies set![e].contains(s) by {
            assert(s =~= e);
        }
        vstd::set_lib::lemma_len_subset(f, set![e]);
    } else {
        let a = u.choose();
        assert(u.contains(a)) by {
            vstd::set_lib::lemma_set_empty_equivalency_len(u);
        }
        let u2 = u.remove(a);
        let f0 = f.filter(|s: Set<State>| !s.contains(a));
        let f1 = f.filter(|s: Set<State>| s.contains(a));
        let g1 = f1.map(|s: Set<State>| s.remove(a));
        lemma_subset_family_bound(u2, f0);
        assert forall|s: Set<State>| #[trigger] g1.contains(s) implies s.subset_of(u2) by {
            let t = choose|t: Set<State>| f1.contains(t) && t.remove(a) == s;
        }
        lemma_subset_family_bound(u2, g1);
        assert(f1 =~= g1.map(|s: Set<State>| s.insert(a))) by {
            assert forall|s: Set<State>| f1.contains(s) implies g1.map(|s: Set<State>| s.insert(a)).contains(s) by {
                assert(s.remove(a).insert(a) =~= s);
                assert(g1.contains(s.remove(a)));
            }
            assert forall|s: Set<State>| g1.map(|s: Set<State>| s.insert(a)).contains(s) implies f1.contains(s) by {
                let t = choose|t: Set<State>| g1.contains(t) && t.insert(a) == s;
                let t0 = choose|t0: Set<State>| f1.contains(t0) && t0.remove(a) == t;
                assert(t0.remove(a).insert(a) =~= t0);
            }
        }
        vstd::set_lib::lemma_map_size_bound(g1, f1, |s: Set<State>| s.insert(a));
        assert(f =~= f0.union(f1));
        vstd::set_lib::lemma_len_union(f0, f1);
    }
}

/// A table whose states are all below `n` names at most `n` states.
proof fn lemma_dfa_states_bound(d: DFA, n: nat)
    requires
        d.start < n,
        forall|q: usize| #[trigger] d.finals@.contains(q) ==> q < n,
        forall|k: int| 0 <= k < d.transition@.len() ==> (#[trigger] d.transition@[k]).0 < n && d.transition@[k].2 < n,
    ensures
        d.states().len() <= n,
{
    let below = Set::new(|s: usize| (s as int) < n);
    let r = vstd::set_lib::set_int_range(0, n as int);
    assert(below =~= r.map(|i: int| i as usize)) by {
        assert forall|s: usize| below.contains(s) implies r.map(|i: int| i as usize).contains(s) by {
            assert(r.contains(s as int));
        }
    }
    vstd::set_lib::lemma_int_range(0, n as int);
    vstd::set_lib::lemma_map_size_bound(r, below, |i: int| i as usize);
    assert(d.states().subset_of(below));
    vstd::set_lib::lemma_len_subset(d.states(), below);
}

/// The target of the first move in `t` from `p` labelled `c`, if any.
pub open spec fn dfa_lookup(t: Seq<(usize, char, usize)>, p: usize, c: char) -> Option<usize>
    decreases t.len(),
{
    if t.len() == 0 {
        None
    } else if t[0].0 == p && t[0].1 == c {
        Some(t[0].2)
    } else {
        dfa_lookup(t.drop_first(), p, c)
    }
}

/// In a table with at most one move per state and symbol, a lookup finds
/// exactly the move that is there.
pub proof fn lemma_dfa_lookup(t: Seq<(usize, char, usize)>, p: usize, c: char)
    requires
        forall|i: int, j: int|
            0 <= i < j < t.len() ==> (#[trigger] t[i].0, t[i].1) != (#[trigger] t[j].0, t[j].1),
    ensures
        forall|k: int| 0 <= k < t.len() && t[k].0 == p && t[k].1 == c ==> dfa_lookup(t, p, c) == Some(#[trigger] t[k].2),
        (forall|k: int| 0 <= k < t.len() ==> !(#[trigger] t[k].0 == p && t[k].1 == c)) ==> dfa_lookup(t, p, c) is None,
    decreases t.len(),
{
    if t.len() > 0 {
        let r = t.drop_first();
        assert forall|i: int, j: int| 0 <= i < j < r.len() implies (#[trigger] r[i].0, r[i].1) != (#[trigger] r[j].0, r[j].1) by {
            assert(r[i] == t[i + 1] && r[j] == t[j + 1]);
        }
        lemma_dfa_lookup(r, p, c);
        assert forall|k: int| 0 <= k < t.len() && t[k].0 == p && t[k].1 == c implies dfa_lookup(t, p, c) == Some(#[trigger] t[k].2) by {
            if k > 0 {
                assert(r[k - 1] == t[k]);
                assert((t[0].0, t[0].1) != (t[k].0, t[k].1));
            }
        }
        if forall|k: int| 0 <= k < t.len() ==> !(#[trigger] t[k].0 == p && t[k].1 == c) {
            assert forall|k: int| 0 <= k < r.len() implies !(#[trigger] r[k].0 == p && r[k].1 == c) by {
                assert(r[k] == t[k + 1]);
            }
        }
    }
}

impl DFA {
    /// At most one move for each state and symbol.
    pub open spec fn deterministic(&self) -> bool {
        forall|i: int, j: int|
            0 <= i < j < self.transition@.len() ==> (#[trigger] self.transition@[i].0, self.transition@[i].1)
                != (#[trigger] self.transition@[j].0, self.transition@[j].1)
    }

    /// The state after reading `w`, or `None` once a move is missing.
    pub open spec fn run(&self, w: Seq<char>) -> Option<usize>
        decreases w.len(),
    {
        if w.len() == 0 {
            Some(self.start)
        } else {
            match self.run(w.drop_last()) {
                Some(p) => dfa_lookup(self.transition@, p, w.last()),
                None => None,
            }
        }
    }

    /// The language of the automaton.
    pub open spec fn accepts(&self, w: Seq<char>) -> bool {
        match self.run(w) {
            Some(q) => self.finals@.contains(q),
            None => false,
        }
    }

    /// Every state the automaton names.
    pub open spec fn states(&self) -> Set<usize> {
        Set::new(
            |s: usize|
                s == self.start || self.finals@.contains(s) || exists|k: int|
                    0 <= k < self.transition@.len() && (#[trigger] self.transition@[k].0 == s
                        || self.transition@[k].2 == s),
        )
    }

    /// Does the automaton accept `code`, read one character at a time?
    pub fn try_accept(&self, code: &str) -> (r: bool)
        ensures
            r == self.accepts(code@),
    {
        let input = chars_of(code);
        let mut current = self.start;
        let mut i: usize = 0;
        while i < input.len()
            invariant
                i <= input.len(),
                input@ == code@,
                self.run(input@.take(i as int)) == Some(current),
            decreases input.len() - i,
        {
            assert(input@.take(i + 1).drop_last() =~= input@.take(i as int));
            let found = lookup_move(&self.transition, current, input[i]);
            match found {
                Some(next) => {
                    current = next;
                },
                None => {
                    assert(self.run(input@.take(i + 1)) is None);
                    proof {
                        self.lemma_stuck(input@, i as int);
                    }
                    assert(input@ =~= input@.take(input@.len() as int));
                    return false;
                },
            }
            i += 1;
        }
        assert(input@.take(input.len() as int) =~= code@);
        contains_index(&self.finals, current)
    }

    /// Once a move is missing, no longer input gets further.
    pub proof fn lemma_stuck(&self, w: Seq<char>, i: int)
        requires
            0 <= i < w.len(),
            self.run(w.take(i + 1)) is None,
        ensures
            self.run(w) is None,
        decreases w.len() - i,
    {
        if i + 1 < w.len() {
            assert(w.take(i + 2).drop_last() =~= w.take(i + 1));
            self.lemma_stuck(w, i + 1);
        } else {
            assert(w.take(i + 1) =~= w);
        }
    }
}

/// The target of the first move in `t` from `p` labelled `c`, if any.
fn lookup_move(t: &Vec<(usize, char, usize)>, p: usize, c: char) -> (r: Option<usize>)
    ensures
        r == dfa_lookup(t@, p, c),
{
    let mut k: usize = 0;
    assert(t@.subrange(0, t@.len() as int) =~= t@);
    while k < t.len()
        invariant
            k <= t.len(),
            dfa_lookup(t@, p, c) == dfa_lookup(t@.subrange(k as int, t@.len() as int), p, c),
        decreases t.len() - k,
    {
        assert(t@.subrange(k as int, t@.len() as int).drop_first() =~= t@.subrange(k + 1, t@.len() as int));
        let (a, b, q) = t[k];
        if a == p && b == c {
            return Some(q);
        }
        k += 1;
    }
    None
}

/// Does `v` hold `s`?
fn contains_index(v: &Vec<usize>, s: usize) -> (r: bool)
    ensures
        r == v@.contains(s),
{
    let mut i: usize = 0;
    while i < v.len()
        invariant
            i <= v.len(),
            forall|j: int| 0 <= j < i ==> v@[j] != s,
        decreases v.len() - i,
    {
        if v[i] == s {
            return true;
        }
        i += 1;
    }
    false
}

} // verus!
