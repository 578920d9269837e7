//! The automaton that Thompson construction builds for an expression
//! accepts exactly the inputs the expression matches whole.
//!
//! The proof goes through walks: sequences of moves through an automaton,
//! each move leaving one of a given set of states.

use vstd::prelude::*;

use crate::fsa::{State, DFA, NFA};
use crate::regexp::RegExp;
use crate::rx_to_fsa::{lemma_thompson_counter, states_needed, thompson, Gadget};

verus! {

/// A walk of `n` moves from `p` at offset `i` to `q` at offset `j`: each
/// move leaves a state of `a`, and is an epsilon move of `e` or a move of
/// `m` labelled with the character it reads.
pub open spec fn walk(
    m: Set<(State, char, State)>,
    e: Set<(State, State)>,
    a: Set<State>,
    w: Seq<char>,
    p: State,
    i: int,
    q: State,
    j: int,
    n: nat,
) -> bool
    decreases n,
{
    if n == 0 {
        p == q && i == j
    } else {
        &&& a.contains(p)
        &&& {
            ||| exists|r: State| #[trigger] e.contains((p, r)) && walk(m, e, a, w, r, i, q, j, (n - 1) as nat)
            ||| (0 <= i < j && exists|r: State|
                #[trigger] m.contains((p, w[i], r)) && walk(m, e, a, w, r, i + 1, q, j, (n - 1) as nat))
        }
    }
}

/// A walk only reads forward.
proof fn lemma_walk_forward(
    m: Set<(State, char, State)>, e: Set<(State, State)>, a: Set<State>, w: Seq<char>,
    p: State, i: int, q: State, j: int, n: nat,
)
    requires
        walk(m, e, a, w, p, i, q, j, n),
    ensures
        i <= j,
    decreases n,
{
    if n > 0 {
        if exists|r: State| #[trigger] e.contains((p, r)) && walk(m, e, a, w, r, i, q, j, (n - 1) as nat) {
            let r = choose|r: State| #[trigger] e.contains((p, r)) && walk(m, e, a, w, r, i, q, j, (n - 1) as nat);
            lemma_walk_forward(m, e, a, w, r, i, q, j, (n - 1) as nat);
        }
    }
}

/// Two walks, one after the other, make a walk.
proof fn lemma_walk_concat(
    m: Set<(State, char, State)>, e: Set<(State, State)>, a: Set<State>, w: Seq<char>,
    p: State, i: int, r: State, k: int, n1: nat, q: State, j: int, n2: nat,
)
    requires
        walk(m, e, a, w, p, i, r, k, n1),
        walk(m, e, a, w, r, k, q, j, n2),
    ensures
        walk(m, e, a, w, p, i, q, j, n1 + n2),
    decreases n1,
{
    lemma_walk_forward(m, e, a, w, r, k, q, j, n2);
    if n1 > 0 {
        if exists|x: State| #[trigger] e.contains((p, x)) && walk(m, e, a, w, x, i, r, k, (n1 - 1) as nat) {
            let x = choose|x: State| #[trigger] e.contains((p, x)) && walk(m, e, a, w, x, i, r, k, (n1 - 1) as nat);
            lemma_walk_concat(m, e, a, w, x, i, r, k, (n1 - 1) as nat, q, j, n2);
            assert(walk(m, e, a, w, p, i, q, j, n1 + n2));
        } else {
            let x = choose|x: State| #[trigger] m.contains((p, w[i], x)) && walk(m, e, a, w, x, i + 1, r, k, (n1 - 1) as nat);
            lemma_walk_forward(m, e, a, w, x, i + 1, r, k, (n1 - 1) as nat);
            lemma_walk_concat(m, e, a, w, x, i + 1, r, k, (n1 - 1) as nat, q, j, n2);
            assert(walk(m, e, a, w, p, i, q, j, n1 + n2));
        }
    }
}

/// A walk that may leave fewer states is a walk that may leave more.
proof fn lemma_walk_mono(
    m: Set<(State, char, State)>, e: Set<(State, State)>, a: Set<State>, b: Set<State>, w: Seq<char>,
    p: State, i: int, q: State, j: int, n: nat,
)
    requires
        walk(m, e, a, w, p, i, q, j, n),
        a.subset_of(b),
    ensures
        walk(m, e, b, w, p, i, q, j, n),
    decreases n,
{
    if n > 0 {
        if exists|r: State| #[trigger] e.contains((p, r)) && walk(m, e, a, w, r, i, q, j, (n - 1) as nat) {
            let r = choose|r: State| #[trigger] e.contains((p, r)) && walk(m, e, a, w, r, i, q, j, (n - 1) as nat);
            lemma_walk_mono(m, e, a, b, w, r, i, q, j, (n - 1) as nat);
        } else {
            let r = choose|r: State| #[trigger] m.contains((p, w[i], r)) && walk(m, e, a, w, r, i + 1, q, j, (n - 1) as nat);
            lemma_walk_mono(m, e, a, b, w, r, i + 1, q, j, (n - 1) as nat);
        }
    }
}

/// An epsilon move as a walk.
proof fn lemma_walk_eps(
    m: Set<(State, char, State)>, e: Set<(State, State)>, a: Set<State>, w: Seq<char>,
    p: State, r: State, i: int,
)
    requires
        a.contains(p),
        e.contains((p, r)),
    ensures
        walk(m, e, a, w, p, i, r, i, 1),
{
    assert(walk(m, e, a, w, r, i, r, i, 0));
}

/// A labelled move as a walk.
proof fn lemma_walk_move(
    m: Set<(State, char, State)>, e: Set<(State, State)>, a: Set<State>, w: Seq<char>,
    p: State, r: State, i: int,
)
    requires
        a.contains(p),
        0 <= i,
        m.contains((p, w[i], r)),
    ensures
        walk(m, e, a, w, p, i, r, i + 1, 1),
{
    assert(walk(m, e, a, w, r, i + 1, r, i + 1, 0));
}

/// The labelled moves of `n`, as a set.
pub open spec fn moves(n: NFA) -> Set<(State, char, State)> {
    n.transition@.to_set()
}

/// The epsilon moves of `n`, as a set.
pub open spec fn eps_moves(n: NFA) -> Set<(State, State)> {
    n.epsilon_transition@.to_set()
}

/// Closing a larger set under epsilon moves gives a larger set.
proof fn lemma_eps_iter_grows(n: NFA, x: Set<State>, y: Set<State>, k: nat)
    requires
        x.subset_of(y),
    ensures
        n.eps_iter(x, k).subset_of(n.eps_iter(y, k)),
    decreases k,
{
    if k > 0 {
        lemma_eps_iter_grows(n, x, y, (k - 1) as nat);
    }
}

/// Where an epsilon walk from a state of `x` ends lies in the closure of `x`.
proof fn lemma_walk_in_closure(n: NFA, a: Set<State>, w: Seq<char>, x: Set<State>, p: State, i: int, q: State, k: nat)
    requires
        walk(moves(n), eps_moves(n), a, w, p, i, q, i, k),
        x.contains(p),
    ensures
        n.eps_closure(x).contains(q),
    decreases k,
{
    let m = moves(n);
    let e = eps_moves(n);
    assert(n.eps_iter(x, 0).contains(p));
    if k > 0 {
        let r = choose|r: State| #[trigger] e.contains((p, r)) && walk(m, e, a, w, r, i, q, i, (k - 1) as nat);
        let c = n.eps_closure(x);
        assert(n.eps_iter(x, 1).contains(r)) by {
            assert(n.epsilon_transition@.contains((p, r)));
        }
        lemma_walk_in_closure(n, a, w, c, r, i, q, (k - 1) as nat);
        n.lemma_epsilon_closure_idempotent(x);
    }
}

/// Every state in the closure of `x` ends an epsilon walk from a state of `x`.
proof fn lemma_closure_has_walk(n: NFA, w: Seq<char>, x: Set<State>, q: State, i: int, k: nat) -> (r: (State, nat))
    requires
        n.eps_iter(x, k).contains(q),
    ensures
        x.contains(r.0),
        walk(moves(n), eps_moves(n), Set::full(), w, r.0, i, q, i, r.1),
    decreases k,
{
    let m = moves(n);
    let e = eps_moves(n);
    if k == 0 {
        assert(walk(m, e, Set::full(), w, q, i, q, i, 0));
        (q, 0)
    } else if n.eps_iter(x, (k - 1) as nat).contains(q) {
        lemma_closure_has_walk(n, w, x, q, i, (k - 1) as nat)
    } else {
        let prev = n.eps_iter(x, (k - 1) as nat);
        let mid = choose|mid: State| prev.contains(mid) && #[trigger] n.epsilon_transition@.contains((mid, q));
        let (p, k1) = lemma_closure_has_walk(n, w, x, mid, i, (k - 1) as nat);
        assert(e.contains((mid, q)));
        lemma_walk_eps(m, e, Set::full(), w, mid, q, i);
        lemma_walk_concat(m, e, Set::full(), w, p, i, mid, i, k1, q, i, 1);
        (p, k1 + 1)
    }
}

/// A walk that reads `w[j]` last splits before that move.
proof fn lemma_walk_split_last(
    m: Set<(State, char, State)>, e: Set<(State, State)>, a: Set<State>, w: Seq<char>,
    p: State, i: int, q: State, j: int, k: nat,
) -> (r: (State, State, nat, nat))
    requires
        walk(m, e, a, w, p, i, q, j + 1, k),
        i <= j,
    ensures
        walk(m, e, a, w, p, i, r.0, j, r.2),
        a.contains(r.0),
        m.contains((r.0, w[j], r.1)),
        walk(m, e, a, w, r.1, j + 1, q, j + 1, r.3),
    decreases k,
{
    if exists|x: State| #[trigger] e.contains((p, x)) && walk(m, e, a, w, x, i, q, j + 1, (k - 1) as nat) {
        let x = choose|x: State| #[trigger] e.contains((p, x)) && walk(m, e, a, w, x, i, q, j + 1, (k - 1) as nat);
        let (r0, r1, n1, n2) = lemma_walk_split_last(m, e, a, w, x, i, q, j, (k - 1) as nat);
        lemma_walk_eps(m, e, a, w, p, x, i);
        lemma_walk_concat(m, e, a, w, p, i, x, i, 1, r0, j, n1);
        (r0, r1, n1 + 1, n2)
    } else {
        let x = choose|x: State| #[trigger] m.contains((p, w[i], x)) && walk(m, e, a, w, x, i + 1, q, j + 1, (k - 1) as nat);
        if i == j {
            assert(walk(m, e, a, w, p, i, p, j, 0));
            (p, x, 0, (k - 1) as nat)
        } else {
            let (r0, r1, n1, n2) = lemma_walk_split_last(m, e, a, w, x, i + 1, q, j, (k - 1) as nat);
            lemma_walk_move(m, e, a, w, p, x, i);
            lemma_walk_concat(m, e, a, w, p, i, x, i + 1, 1, r0, j, n1);
            (r0, r1, n1 + 1, n2)
        }
    }
}

/// The states `n` can be in after reading the first `j` characters of `w`
/// are those that walks from its start reach.
proof fn lemma_run_is_walks(n: NFA, w: Seq<char>, j: int, q: State)
    requires
        0 <= j <= w.len(),
    ensures
        n.run(w.take(j)).contains(q) <==> exists|k: nat|
            #[trigger] walk(moves(n), eps_moves(n), Set::full(), w, n.start, 0, q, j, k),
    decreases j,
{
    let m = moves(n);
    let e = eps_moves(n);
    let full = Set::<State>::full();
    if j == 0 {
        assert(w.take(0).len() == 0);
        if n.run(w.take(j)).contains(q) {
            let kk = choose|kk: nat| #[trigger] n.eps_iter(set![n.start], kk).contains(q);
            let (p, k) = lemma_closure_has_walk(n, w, set![n.start], q, 0, kk);
        }
        if exists|k: nat| #[trigger] walk(m, e, full, w, n.start, 0, q, j, k) {
            let k = choose|k: nat| #[trigger] walk(m, e, full, w, n.start, 0, q, j, k);
            lemma_walk_in_closure(n, full, w, set![n.start], n.start, 0, q, k);
        }
    } else {
        let v = w.take(j);
        assert(v.drop_last() =~= w.take(j - 1));
        assert(v.last() == w[j - 1]);
        let prev = n.run(w.take(j - 1));
        let c = w[j - 1];
        if n.run(v).contains(q) {
            let s = n.sym_step(prev, c);
            let kk = choose|kk: nat| #[trigger] n.eps_iter(s, kk).contains(q);
            let (p, k2) = lemma_closure_has_walk(n, w, s, q, j, kk);
            let r = choose|r: State| prev.contains(r) && #[trigger] n.transition@.contains((r, c, p));
            let jm = j - 1;
            lemma_run_is_walks(n, w, jm, r);
            let k1 = choose|k1: nat| #[trigger] walk(m, e, full, w, n.start, 0, r, jm, k1);
            assert(m.contains((r, w[jm], p)));
            lemma_walk_move(m, e, full, w, r, p, jm);
            lemma_walk_concat(m, e, full, w, n.start, 0, r, jm, k1, p, j, 1);
            lemma_walk_concat(m, e, full, w, n.start, 0, p, j, k1 + 1, q, j, k2);
        }
        if exists|k: nat| #[trigger] walk(m, e, full, w, n.start, 0, q, j, k) {
            let k = choose|k: nat| #[trigger] walk(m, e, full, w, n.start, 0, q, j, k);
            let (r, r1, k1, k2) = lemma_walk_split_last(m, e, full, w, n.start, 0, q, j - 1, k);
            lemma_run_is_walks(n, w, j - 1, r);
            assert(n.transition@.contains((r, c, r1)));
            assert(n.sym_step(prev, c).contains(r1));
            lemma_walk_in_closure(n, full, w, n.sym_step(prev, c), r1, j, q, k2);
        }
    }
}

/// The states that the automaton built after counter `c` numbers.
pub open spec fn inside(g: Gadget, c: int) -> Set<State> {
    Set::new(|s: State| c < s <= g.4)
}

/// The states of such an automaton that a walk through it may leave: all
/// but its accepting one.
pub open spec fn inner(g: Gadget, c: int) -> Set<State> {
    Set::new(|s: State| c < s <= g.4 && s != g.3)
}

/// Start and end lie among the states the automaton numbers, and every move
/// goes from one of them other than the end to one of them.
pub open spec fn shaped(g: Gadget, c: int) -> bool {
    &&& c < g.2 <= g.4
    &&& c < g.3 <= g.4
    &&& forall|p: State, ch: char, r: State|
        #[trigger] g.0.contains((p, ch, r)) ==> inner(g, c).contains(p) && inside(g, c).contains(r)
    &&& forall|p: State, r: State| #[trigger] g.1.contains((p, r)) ==> inner(g, c).contains(p) && inside(g, c).contains(r)
}

/// `m` and `e` hold the moves of the automaton, and every move they hold
/// from one of its states other than its end is one of its own.
pub open spec fn embeds(m: Set<(State, char, State)>, e: Set<(State, State)>, g: Gadget, c: int) -> bool {
    &&& g.0.subset_of(m)
    &&& g.1.subset_of(e)
    &&& forall|p: State, ch: char, r: State|
        #[trigger] m.contains((p, ch, r)) && inner(g, c).contains(p) ==> g.0.contains((p, ch, r))
    &&& forall|p: State, r: State| #[trigger] e.contains((p, r)) && inner(g, c).contains(p) ==> g.1.contains((p, r))
}

/// Thompson construction builds automata of that shape.
proof fn lemma_gadget_shape(rx: RegExp, sigma: Set<char>, c: int)
    requires
        0 <= c,
        c + states_needed(rx) <= i32::MAX,
    ensures
        shaped(thompson(rx, sigma, c), c),
        thompson(rx, sigma, c).4 == c + states_needed(rx),
    decreases rx,
{
    lemma_thompson_counter(rx, sigma, c);
    let g = thompson(rx, sigma, c);
    match rx {
        RegExp::Concat { left, right } => {
            lemma_thompson_counter(*left, sigma, c);
            let l = thompson(*left, sigma, c);
            lemma_gadget_shape(*left, sigma, c);
            lemma_gadget_shape(*right, sigma, l.4);
        },
        RegExp::Or { left, right } => {
            lemma_thompson_counter(*left, sigma, c + 1);
            let l = thompson(*left, sigma, c + 1);
            lemma_gadget_shape(*left, sigma, c + 1);
            lemma_gadget_shape(*right, sigma, l.4);
        },
        RegExp::Repeat(body) => {
            lemma_gadget_shape(*body, sigma, c + 1);
        },
        _ => {},
    }
}

/// A walk that starts among the states of an embedded automaton and cannot
/// leave its end stays among its states.
proof fn lemma_walk_within(
    g: Gadget, c: int, m: Set<(State, char, State)>, e: Set<(State, State)>, a: Set<State>, w: Seq<char>,
    p: State, i: int, q: State, j: int, n: nat,
)
    requires
        shaped(g, c),
        embeds(m, e, g, c),
        !a.contains(g.3),
        inside(g, c).contains(p),
        walk(m, e, a, w, p, i, q, j, n),
    ensures
        walk(m, e, inner(g, c), w, p, i, q, j, n),
    decreases n,
{
    if n > 0 {
        if exists|r: State| #[trigger] e.contains((p, r)) && walk(m, e, a, w, r, i, q, j, (n - 1) as nat) {
            let r = choose|r: State| #[trigger] e.contains((p, r)) && walk(m, e, a, w, r, i, q, j, (n - 1) as nat);
            assert(g.1.contains((p, r)));
            lemma_walk_within(g, c, m, e, a, w, r, i, q, j, (n - 1) as nat);
        } else {
            let r = choose|r: State| #[trigger] m.contains((p, w[i], r)) && walk(m, e, a, w, r, i + 1, q, j, (n - 1) as nat);
            assert(g.0.contains((p, w[i], r)));
            lemma_walk_within(g, c, m, e, a, w, r, i + 1, q, j, (n - 1) as nat);
        }
    }
}

/// A walk from among the states of an embedded automaton to a state outside
/// it first walks through the automaton to its end.
proof fn lemma_walk_exit(
    g: Gadget, c: int, m: Set<(State, char, State)>, e: Set<(State, State)>, a: Set<State>, w: Seq<char>,
    p: State, i: int, q: State, j: int, n: nat,
) -> (r: (int, nat, nat))
    requires
        shaped(g, c),
        embeds(m, e, g, c),
        inner(g, c).subset_of(a),
        inside(g, c).contains(p),
        !inside(g, c).contains(q),
        walk(m, e, a, w, p, i, q, j, n),
    ensures
        i <= r.0,
        walk(m, e, inner(g, c), w, p, i, g.3, r.0, r.1),
        walk(m, e, a, w, g.3, r.0, q, j, r.2),
        r.2 <= n,
    decreases n,
{
    if p == g.3 {
        assert(walk(m, e, inner(g, c), w, p, i, g.3, i, 0));
        (i, 0, n)
    } else {
        if exists|x: State| #[trigger] e.contains((p, x)) && walk(m, e, a, w, x, i, q, j, (n - 1) as nat) {
            let x = choose|x: State| #[trigger] e.contains((p, x)) && walk(m, e, a, w, x, i, q, j, (n - 1) as nat);
            assert(g.1.contains((p, x)));
            let (k, n1, n2) = lemma_walk_exit(g, c, m, e, a, w, x, i, q, j, (n - 1) as nat);
            lemma_walk_eps(m, e, inner(g, c), w, p, x, i);
            lemma_walk_concat(m, e, inner(g, c), w, p, i, x, i, 1, g.3, k, n1);
            (k, n1 + 1, n2)
        } else {
            let x = choose|x: State| #[trigger] m.contains((p, w[i], x)) && walk(m, e, a, w, x, i + 1, q, j, (n - 1) as nat);
            assert(g.0.contains((p, w[i], x)));
            let (k, n1, n2) = lemma_walk_exit(g, c, m, e, a, w, x, i + 1, q, j, (n - 1) as nat);
            lemma_walk_move(m, e, inner(g, c), w, p, x, i);
            lemma_walk_concat(m, e, inner(g, c), w, p, i, x, i + 1, 1, g.3, k, n1);
            (k, n1 + 1, n2)
        }
    }
}

/// A walk from a state that may not be left goes nowhere.
proof fn lemma_walk_stuck(
    m: Set<(State, char, State)>, e: Set<(State, State)>, a: Set<State>, w: Seq<char>,
    p: State, i: int, q: State, j: int, n: nat,
)
    requires
        !a.contains(p),
        walk(m, e, a, w, p, i, q, j, n),
    ensures
        n == 0,
        p == q,
        i == j,
{
}

/// Every character of `w` is in `sigma`.
pub open spec fn over(w: Seq<char>, sigma: Set<char>) -> bool {
    forall|k: int| 0 <= k < w.len() ==> sigma.contains(#[trigger] w[k])
}

/// In any automaton that embeds the one built for `rx`, a walk through it
/// from its start to its end reads exactly a match of `rx`.
proof fn lemma_gadget_walks(
    rx: RegExp, sigma: Set<char>, c: int, m: Set<(State, char, State)>, e: Set<(State, State)>,
    w: Seq<char>, i: int, j: int,
)
    requires
        0 <= c,
        c + states_needed(rx) <= i32::MAX,
        embeds(m, e, thompson(rx, sigma, c), c),
        0 <= i <= j <= w.len(),
        over(w, sigma),
    ensures
        ({
            let g = thompson(rx, sigma, c);
            (exists|n: nat| #[trigger] walk(m, e, inner(g, c), w, g.2, i, g.3, j, n))
                <==> rx.matches(w, i).contains(j)
        }),
    decreases rx, 0int, 0int,
{
    let g = thompson(rx, sigma, c);
    let a = inner(g, c);
    lemma_gadget_shape(rx, sigma, c);
    match rx {
        RegExp::Char(ch) => {
            assert(rx.matches(w, i) == (if 0 <= i < w.len() && w[i] == ch { set![i + 1] } else { Set::<int>::empty() }));
            if exists|n: nat| #[trigger] walk(m, e, a, w, g.2, i, g.3, j, n) {
                let n = choose|n: nat| #[trigger] walk(m, e, a, w, g.2, i, g.3, j, n);
                if exists|r: State| #[trigger] e.contains((g.2, r)) && walk(m, e, a, w, r, i, g.3, j, (n - 1) as nat) {
                    let r = choose|r: State| #[trigger] e.contains((g.2, r)) && walk(m, e, a, w, r, i, g.3, j, (n - 1) as nat);
                    assert(g.1.contains((g.2, r)));
                } else {
                    let r = choose|r: State| #[trigger] m.contains((g.2, w[i], r)) && walk(m, e, a, w, r, i + 1, g.3, j, (n - 1) as nat);
                    assert(g.0.contains((g.2, w[i], r)));
                    lemma_walk_stuck(m, e, a, w, r, i + 1, g.3, j, (n - 1) as nat);
                }
            }
            if rx.matches(w, i).contains(j) {
                assert(g.0.contains((g.2, w[i], g.3)));
                lemma_walk_move(m, e, a, w, g.2, g.3, i);
            }
        },
        RegExp::Any => {
            assert(rx.matches(w, i) == (if 0 <= i < w.len() { set![i + 1] } else { Set::<int>::empty() }));
            if exists|n: nat| #[trigger] walk(m, e, a, w, g.2, i, g.3, j, n) {
                let n = choose|n: nat| #[trigger] walk(m, e, a, w, g.2, i, g.3, j, n);
                if exists|r: State| #[trigger] e.contains((g.2, r)) && walk(m, e, a, w, r, i, g.3, j, (n - 1) as nat) {
                    let r = choose|r: State| #[trigger] e.contains((g.2, r)) && walk(m, e, a, w, r, i, g.3, j, (n - 1) as nat);
                    assert(g.1.contains((g.2, r)));
                } else {
                    let r = choose|r: State| #[trigger] m.contains((g.2, w[i], r)) && walk(m, e, a, w, r, i + 1, g.3, j, (n - 1) as nat);
                    assert(g.0.contains((g.2, w[i], r)));
                    lemma_walk_stuck(m, e, a, w, r, i + 1, g.3, j, (n - 1) as nat);
                }
            }
            if rx.matches(w, i).contains(j) {
                assert(sigma.contains(w[i]));
                assert(g.0.contains((g.2, w[i], g.3)));
                lemma_walk_move(m, e, a, w, g.2, g.3, i);
            }
        },
        RegExp::Empty => {
            assert(rx.matches(w, i) == set![i]);
            if exists|n: nat| #[trigger] walk(m, e, a, w, g.2, i, g.3, j, n) {
                let n = choose|n: nat| #[trigger] walk(m, e, a, w, g.2, i, g.3, j, n);
                lemma_walk_stuck(m, e, a, w, g.2, i, g.3, j, n);
            }
            if rx.matches(w, i).contains(j) {
                assert(walk(m, e, a, w, g.2, i, g.3, j, 0));
            }
        },
        RegExp::Concat { left, right } => {
            lemma_thompson_counter(*left, sigma, c);
            let l = thompson(*left, sigma, c);
            let r = thompson(*right, sigma, l.4);
            lemma_gadget_shape(*left, sigma, c);
            lemma_gadget_shape(*right, sigma, l.4);
            assert(embeds(m, e, l, c));
            assert(embeds(m, e, r, l.4));
            assert(rx.matches(w, i) == Set::new(
                |q: int| exists|p: int| #[trigger] left.matches(w, i).contains(p) && right.matches(w, p).contains(q),
            ));
            if exists|n: nat| #[trigger] walk(m, e, a, w, g.2, i, g.3, j, n) {
                let n = choose|n: nat| #[trigger] walk(m, e, a, w, g.2, i, g.3, j, n);
                let (k, n1, n2) = lemma_walk_exit(l, c, m, e, a, w, l.2, i, r.3, j, n);
                lemma_walk_forward(m, e, a, w, l.3, k, r.3, j, n2);
                lemma_gadget_walks(*left, sigma, c, m, e, w, i, k);
                if exists|x: State| #[trigger] e.contains((l.3, x)) && walk(m, e, a, w, x, k, r.3, j, (n2 - 1) as nat) {
                    let x = choose|x: State| #[trigger] e.contains((l.3, x)) && walk(m, e, a, w, x, k, r.3, j, (n2 - 1) as nat);
                    assert(g.1.contains((l.3, x)));
                    assert(x == r.2);
                    lemma_walk_within(r, l.4, m, e, a, w, r.2, k, r.3, j, (n2 - 1) as nat);
                    lemma_gadget_walks(*right, sigma, l.4, m, e, w, k, j);
                    assert(left.matches(w, i).contains(k));
                } else {
                    let x = choose|x: State| #[trigger] m.contains((l.3, w[k], x)) && walk(m, e, a, w, x, k + 1, r.3, j, (n2 - 1) as nat);
                    assert(g.0.contains((l.3, w[k], x)));
                }
            }
            if rx.matches(w, i).contains(j) {
                let k = choose|k: int| #[trigger] left.matches(w, i).contains(k) && right.matches(w, k).contains(j);
                left.lemma_matches_bounded(w, i);
                right.lemma_matches_bounded(w, k);
                lemma_gadget_walks(*left, sigma, c, m, e, w, i, k);
                lemma_gadget_walks(*right, sigma, l.4, m, e, w, k, j);
                let n1 = choose|n1: nat| #[trigger] walk(m, e, inner(l, c), w, l.2, i, l.3, k, n1);
                let n2 = choose|n2: nat| #[trigger] walk(m, e, inner(r, l.4), w, r.2, k, r.3, j, n2);
                lemma_walk_mono(m, e, inner(l, c), a, w, l.2, i, l.3, k, n1);
                lemma_walk_mono(m, e, inner(r, l.4), a, w, r.2, k, r.3, j, n2);
                lemma_walk_eps(m, e, a, w, l.3, r.2, k);
                lemma_walk_concat(m, e, a, w, l.2, i, l.3, k, n1, r.2, k, 1);
                lemma_walk_concat(m, e, a, w, l.2, i, r.2, k, n1 + 1, r.3, j, n2);
            }
        },
        RegExp::Or { left, right } => {
            lemma_thompson_counter(*left, sigma, c + 1);
            let l = thompson(*left, sigma, c + 1);
            let r = thompson(*right, sigma, l.4);
            lemma_gadget_shape(*left, sigma, c + 1);
            lemma_gadget_shape(*right, sigma, l.4);
            assert(embeds(m, e, l, c + 1));
            assert(embeds(m, e, r, l.4));
            assert(rx.matches(w, i) == left.matches(w, i).union(right.matches(w, i)));
            if exists|n: nat| #[trigger] walk(m, e, a, w, g.2, i, g.3, j, n) {
                let n = choose|n: nat| #[trigger] walk(m, e, a, w, g.2, i, g.3, j, n);
                if exists|x: State| #[trigger] e.contains((g.2, x)) && walk(m, e, a, w, x, i, g.3, j, (n - 1) as nat) {
                    let x = choose|x: State| #[trigger] e.contains((g.2, x)) && walk(m, e, a, w, x, i, g.3, j, (n - 1) as nat);
                    assert(g.1.contains((g.2, x)));
                    if x == l.2 {
                        let (k, n1, n2) = lemma_walk_exit(l, c + 1, m, e, a, w, l.2, i, g.3, j, (n - 1) as nat);
                        self_or_exit(g, c, m, e, a, w, l.3, k, j, n2);
                        lemma_gadget_walks(*left, sigma, c + 1, m, e, w, i, k);
                    } else if x == r.2 {
                        let (k, n1, n2) = lemma_walk_exit(r, l.4, m, e, a, w, r.2, i, g.3, j, (n - 1) as nat);
                        self_or_exit(g, c, m, e, a, w, r.3, k, j, n2);
                        lemma_gadget_walks(*right, sigma, l.4, m, e, w, i, k);
                    }
                } else {
                    let x = choose|x: State| #[trigger] m.contains((g.2, w[i], x)) && walk(m, e, a, w, x, i + 1, g.3, j, (n - 1) as nat);
                    assert(g.0.contains((g.2, w[i], x)));
                }
            }
            if left.matches(w, i).contains(j) {
                lemma_gadget_walks(*left, sigma, c + 1, m, e, w, i, j);
                let n1 = choose|n1: nat| #[trigger] walk(m, e, inner(l, c + 1), w, l.2, i, l.3, j, n1);
                lemma_walk_mono(m, e, inner(l, c + 1), a, w, l.2, i, l.3, j, n1);
                lemma_walk_eps(m, e, a, w, g.2, l.2, i);
                lemma_walk_eps(m, e, a, w, l.3, g.3, j);
                lemma_walk_concat(m, e, a, w, g.2, i, l.2, i, 1, l.3, j, n1);
                lemma_walk_concat(m, e, a, w, g.2, i, l.3, j, 1 + n1, g.3, j, 1);
            } else if right.matches(w, i).contains(j) {
                lemma_gadget_walks(*right, sigma, l.4, m, e, w, i, j);
                let n1 = choose|n1: nat| #[trigger] walk(m, e, inner(r, l.4), w, r.2, i, r.3, j, n1);
                lemma_walk_mono(m, e, inner(r, l.4), a, w, r.2, i, r.3, j, n1);
                lemma_walk_eps(m, e, a, w, g.2, r.2, i);
                lemma_walk_eps(m, e, a, w, r.3, g.3, j);
                lemma_walk_concat(m, e, a, w, g.2, i, r.2, i, 1, r.3, j, n1);
                lemma_walk_concat(m, e, a, w, g.2, i, r.3, j, 1 + n1, g.3, j, 1);
            }
        },
        RegExp::Repeat(body) => {
            lemma_gadget_shape(*body, sigma, c + 1);
            let b = thompson(*body, sigma, c + 1);
            assert(embeds(m, e, b, c + 1));
            if exists|n: nat| #[trigger] walk(m, e, a, w, g.2, i, g.3, j, n) {
                let n = choose|n: nat| #[trigger] walk(m, e, a, w, g.2, i, g.3, j, n);
                if exists|x: State| #[trigger] e.contains((g.2, x)) && walk(m, e, a, w, x, i, g.3, j, (n - 1) as nat) {
                    let x = choose|x: State| #[trigger] e.contains((g.2, x)) && walk(m, e, a, w, x, i, g.3, j, (n - 1) as nat);
                    assert(g.1.contains((g.2, x)));
                    if x == g.3 {
                        lemma_walk_stuck(m, e, a, w, x, i, g.3, j, (n - 1) as nat);
                        assert(rx.matches(w, i).contains(i));
                    } else {
                        lemma_repeat_walks_match(*body, rx, sigma, c, m, e, w, i, j, (n - 1) as nat);
                    }
                } else {
                    let x = choose|x: State| #[trigger] m.contains((g.2, w[i], x)) && walk(m, e, a, w, x, i + 1, g.3, j, (n - 1) as nat);
                    assert(g.0.contains((g.2, w[i], x)));
                }
            }
            if rx.matches(w, i).contains(j) {
                lemma_repeat_match_walks(*body, rx, sigma, c, m, e, w, i, j);
            }
        },
    }
}

/// From the end of an arm of an alternative, a walk to the end of the
/// alternative takes one epsilon move and reads nothing.
proof fn self_or_exit(
    g: Gadget, c: int, m: Set<(State, char, State)>, e: Set<(State, State)>, a: Set<State>, w: Seq<char>,
    p: State, k: int, j: int, n: nat,
)
    requires
        shaped(g, c),
        embeds(m, e, g, c),
        a == inner(g, c),
        a.contains(p),
        p != g.3,
        forall|x: State| #[trigger] g.1.contains((p, x)) ==> x == g.3,
        forall|ch: char, x: State| !(#[trigger] g.0.contains((p, ch, x))),
        walk(m, e, a, w, p, k, g.3, j, n),
    ensures
        k == j,
{
    if exists|x: State| #[trigger] e.contains((p, x)) && walk(m, e, a, w, x, k, g.3, j, (n - 1) as nat) {
        let x = choose|x: State| #[trigger] e.contains((p, x)) && walk(m, e, a, w, x, k, g.3, j, (n - 1) as nat);
        assert(g.1.contains((p, x)));
        lemma_walk_stuck(m, e, a, w, x, k, g.3, j, (n - 1) as nat);
    } else {
        let x = choose|x: State| #[trigger] m.contains((p, w[k], x)) && walk(m, e, a, w, x, k + 1, g.3, j, (n - 1) as nat);
        assert(g.0.contains((p, w[k], x)));
    }
}

/// A walk through a repetition from the start of its body reads a match of
/// the repetition.
proof fn lemma_repeat_walks_match(
    body: RegExp, rx: RegExp, sigma: Set<char>, c: int, m: Set<(State, char, State)>, e: Set<(State, State)>,
    w: Seq<char>, i: int, j: int, n: nat,
)
    requires
        rx == RegExp::Repeat(Box::new(body)),
        0 <= c,
        c + states_needed(rx) <= i32::MAX,
        embeds(m, e, thompson(rx, sigma, c), c),
        0 <= i <= j <= w.len(),
        over(w, sigma),
        walk(m, e, inner(thompson(rx, sigma, c), c), w, thompson(body, sigma, c + 1).2, i, thompson(rx, sigma, c).3, j, n),
    ensures
        rx.matches(w, i).contains(j),
    decreases body, 1int, n,
{
    let g = thompson(rx, sigma, c);
    let a = inner(g, c);
    let b = thompson(body, sigma, c + 1);
    lemma_gadget_shape(rx, sigma, c);
    lemma_gadget_shape(body, sigma, c + 1);
    assert(embeds(m, e, b, c + 1));
    let (k, n1, n2) = lemma_walk_exit(b, c + 1, m, e, a, w, b.2, i, g.3, j, n);
    lemma_walk_forward(m, e, a, w, b.3, k, g.3, j, n2);
    lemma_gadget_walks(body, sigma, c + 1, m, e, w, i, k);
    assert(body.matches(w, i).contains(k));
    if exists|x: State| #[trigger] e.contains((b.3, x)) && walk(m, e, a, w, x, k, g.3, j, (n2 - 1) as nat) {
        let x = choose|x: State| #[trigger] e.contains((b.3, x)) && walk(m, e, a, w, x, k, g.3, j, (n2 - 1) as nat);
        assert(g.1.contains((b.3, x)));
        if x == g.3 {
            lemma_walk_stuck(m, e, a, w, x, k, g.3, j, (n2 - 1) as nat);
            assert(rx.matches(w, k).contains(k));
        } else {
            assert(x == b.2);
            lemma_repeat_walks_match(body, rx, sigma, c, m, e, w, k, j, (n2 - 1) as nat);
        }
        if k != i {
            assert(rx.matches(w, i).contains(j));
        }
    } else {
        let x = choose|x: State| #[trigger] m.contains((b.3, w[k], x)) && walk(m, e, a, w, x, k + 1, g.3, j, (n2 - 1) as nat);
        assert(g.0.contains((b.3, w[k], x)));
    }
}

/// For every match of a repetition there are walks to its end, from its
/// start and from the end of its body.
proof fn lemma_repeat_match_walks(
    body: RegExp, rx: RegExp, sigma: Set<char>, c: int, m: Set<(State, char, State)>, e: Set<(State, State)>,
    w: Seq<char>, i: int, j: int,
)
    requires
        rx == RegExp::Repeat(Box::new(body)),
        0 <= c,
        c + states_needed(rx) <= i32::MAX,
        embeds(m, e, thompson(rx, sigma, c), c),
        0 <= i <= j <= w.len(),
        over(w, sigma),
        rx.matches(w, i).contains(j),
    ensures
        ({
            let g = thompson(rx, sigma, c);
            let b = thompson(body, sigma, c + 1);
            &&& exists|n: nat| #[trigger] walk(m, e, inner(g, c), w, g.2, i, g.3, j, n)
            &&& exists|n: nat| #[trigger] walk(m, e, inner(g, c), w, b.3, i, g.3, j, n)
        }),
    decreases body, 1int, w.len() - i,
{
    let g = thompson(rx, sigma, c);
    let a = inner(g, c);
    let b = thompson(body, sigma, c + 1);
    lemma_gadget_shape(rx, sigma, c);
    lemma_gadget_shape(body, sigma, c + 1);
    assert(embeds(m, e, b, c + 1));
    if j == i {
        lemma_walk_eps(m, e, a, w, g.2, g.3, i);
        lemma_walk_eps(m, e, a, w, b.3, g.3, i);
    } else {
        let p = choose|p: int|
            #[trigger] body.matches(w, i).contains(p) && i < p <= w.len() && rx.matches(w, p).contains(j);
        rx.lemma_matches_bounded(w, p);
        lemma_repeat_match_walks(body, rx, sigma, c, m, e, w, p, j);
        let n3 = choose|n3: nat| #[trigger] walk(m, e, a, w, b.3, p, g.3, j, n3);
        lemma_gadget_walks(body, sigma, c + 1, m, e, w, i, p);
        let n1 = choose|n1: nat| #[trigger] walk(m, e, inner(b, c + 1), w, b.2, i, b.3, p, n1);
        lemma_walk_mono(m, e, inner(b, c + 1), a, w, b.2, i, b.3, p, n1);
        lemma_walk_concat(m, e, a, w, b.2, i, b.3, p, n1, g.3, j, n3);
        lemma_walk_eps(m, e, a, w, g.2, b.2, i);
        lemma_walk_eps(m, e, a, w, b.3, b.2, i);
        lemma_walk_concat(m, e, a, w, g.2, i, b.2, i, 1, g.3, j, n1 + n3);
        lemma_walk_concat(m, e, a, w, b.3, i, b.2, i, 1, g.3, j, n1 + n3);
    }
}

/// When every move leaves a state of `a`, every walk leaves only states of `a`.
proof fn lemma_walk_sources(
    m: Set<(State, char, State)>, e: Set<(State, State)>, a: Set<State>, w: Seq<char>,
    p: State, i: int, q: State, j: int, n: nat,
)
    requires
        walk(m, e, Set::full(), w, p, i, q, j, n),
        forall|x: State, ch: char, y: State| #[trigger] m.contains((x, ch, y)) ==> a.contains(x),
        forall|x: State, y: State| #[trigger] e.contains((x, y)) ==> a.contains(x),
    ensures
        walk(m, e, a, w, p, i, q, j, n),
    decreases n,
{
    if n > 0 {
        let full = Set::<State>::full();
        if exists|r: State| #[trigger] e.contains((p, r)) && walk(m, e, full, w, r, i, q, j, (n - 1) as nat) {
            let r = choose|r: State| #[trigger] e.contains((p, r)) && walk(m, e, full, w, r, i, q, j, (n - 1) as nat);
            lemma_walk_sources(m, e, a, w, r, i, q, j, (n - 1) as nat);
        } else {
            let r = choose|r: State| #[trigger] m.contains((p, w[i], r)) && walk(m, e, full, w, r, i + 1, q, j, (n - 1) as nat);
            lemma_walk_sources(m, e, a, w, r, i + 1, q, j, (n - 1) as nat);
        }
    }
}

/// The automaton that Thompson construction builds for `rx` over the
/// symbols of `alphabet` (with ids drawn after `c`) accepts an input over
/// those symbols exactly when `rx` matches the whole input from its start.
pub proof fn lemma_thompson_accepts(rx: RegExp, alphabet: Seq<char>, c: int, n: NFA, w: Seq<char>)
    requires
        0 <= c,
        c + states_needed(rx) <= i32::MAX,
        ({
            let g = thompson(rx, alphabet.to_set(), c);
            &&& n.transition@.to_set() == g.0
            &&& n.epsilon_transition@.to_set() == g.1
            &&& n.start == g.2
            &&& n.finals@.to_set() == set![g.3]
        }),
        over(w, alphabet.to_set()),
    ensures
        n.accepts(w) == rx.matches(w, 0).contains(w.len() as int),
{
    let sigma = alphabet.to_set();
    let g = thompson(rx, sigma, c);
    let m = moves(n);
    let e = eps_moves(n);
    let a = inner(g, c);
    let full = Set::<State>::full();
    lemma_gadget_shape(rx, sigma, c);
    assert(embeds(m, e, g, c));
    assert(w.take(w.len() as int) =~= w);
    lemma_run_is_walks(n, w, w.len() as int, g.3);
    lemma_gadget_walks(rx, sigma, c, m, e, w, 0, w.len() as int);
    assert(n.finals@.to_set().contains(g.3));
    if n.accepts(w) {
        let q = choose|q: State| n.run(w).contains(q) && #[trigger] n.finals@.contains(q);
        assert(n.finals@.to_set().contains(q));
        let k = choose|k: nat| #[trigger] walk(m, e, full, w, n.start, 0, g.3, w.len() as int, k);
        lemma_walk_sources(m, e, a, w, n.start, 0, g.3, w.len() as int, k);
    }
    if rx.matches(w, 0).contains(w.len() as int) {
        let k = choose|k: nat| #[trigger] walk(m, e, a, w, g.2, 0, g.3, w.len() as int, k);
        lemma_walk_mono(m, e, a, full, w, g.2, 0, g.3, w.len() as int, k);
        assert(n.run(w).contains(g.3));
    }
}

/// The three ways of matching agree: for the automaton that Thompson
/// construction builds for `rx` and a table that subset construction builds
/// from it, on every input over the symbols of `alphabet`, the table accepts
/// exactly what the automaton accepts, and that is what `rx` matches whole.
pub proof fn lemma_three_routes_agree(rx: RegExp, alphabet: Seq<char>, c: int, n: NFA, d: DFA, w: Seq<char>)
    requires
        0 <= c,
        c + states_needed(rx) <= i32::MAX,
        ({
            let g = thompson(rx, alphabet.to_set(), c);
            &&& n.transition@.to_set() == g.0
            &&& n.epsilon_transition@.to_set() == g.1
            &&& n.start == g.2
            &&& n.finals@.to_set() == set![g.3]
        }),
        d.deterministic(),
        exists|sets: Seq<Set<State>>| #[trigger] n.subset_table(d, sets),
        over(w, alphabet.to_set()),
    ensures
        d.accepts(w) == n.accepts(w),
        rx.matches(w, 0).contains(w.len() as int) == d.accepts(w),
{
    let sets = choose|sets: Seq<Set<State>>| #[trigger] n.subset_table(d, sets);
    n.lemma_subset_run(d, sets, w);
    lemma_thompson_accepts(rx, alphabet, c, n, w);
}

} // verus!
