//! Regular expressions as trees, and a matcher that works on the tree
//! directly: from an offset it finds every offset at which a match can end.
//!
//! Offsets count characters, not bytes.

use vstd::prelude::*;

use crate::text::chars_of;

verus! {

/// A regular expression over characters.
#[derive(Debug)]
pub enum RegExp {
    /// One given character.
    Char(char),
    /// Any one character.
    Any,
    /// The empty string.
    Empty,
    /// `left` followed by `right`.
    Concat { left: Box<RegExp>, right: Box<RegExp> },
    /// `left` or `right`.
    Or { left: Box<RegExp>, right: Box<RegExp> },
    /// Zero or more repetitions.
    Repeat(Box<RegExp>),
}

/// The offsets that a sequence of offsets holds.
pub open spec fn offsets(v: Seq<usize>) -> Set<int> {
    Set::new(|q: int| exists|i: int| 0 <= i < v.len() && v[i] as int == q)
}

impl RegExp {
    /// The offsets of `w` at which a match of `self` starting at `pos` can end.
    ///
    /// A concatenation keeps every way through it that succeeds: an offset
    /// where `left` ends but `right` cannot go on is dropped, not the whole
    /// match.
    /// A repetition ends at its start, or goes on from wherever its body
    /// ends further on.
    pub open spec fn matches(&self, w: Seq<char>, pos: int) -> Set<int>
        decreases self, w.len() - pos,
    {
        match self {
            RegExp::Char(c) => if 0 <= pos < w.len() && w[pos] == *c {
                set![pos + 1]
            } else {
                Set::empty()
            },
            RegExp::Any => if 0 <= pos < w.len() {
                set![pos + 1]
            } else {
                Set::empty()
            },
            RegExp::Empty => if 0 <= pos <= w.len() {
                set![pos]
            } else {
                Set::empty()
            },
            RegExp::Concat { left, right } => Set::new(
                |q: int|
                    exists|p: int| #[trigger] left.matches(w, pos).contains(p) && right.matches(w, p).contains(q),
            ),
            RegExp::Or { left, right } => left.matches(w, pos).union(right.matches(w, pos)),
            RegExp::Repeat(inner) => Set::new(
                |q: int|
                    q == pos || exists|p: int|
                        #[trigger] inner.matches(w, pos).contains(p) && pos < p <= w.len() && self.matches(
                            w,
                            p,
                        ).contains(q),
            ),
        }
    }

    /// The character offsets of `input` at which a match of `self` starting
    /// at offset `pos` can end, in increasing order; `None` when there is
    /// none.
    pub fn _match(&self, input: &str, pos: usize) -> (r: Option<Vec<usize>>)
        requires
            input@.len() < usize::MAX,
        ensures
            match r {
                None => self.matches(input@, pos as int) == Set::<int>::empty(),
                Some(v) => {
                    &&& v@.len() > 0
                    &&& offsets(v@) == self.matches(input@, pos as int)
                    &&& forall|i: int, j: int| 0 <= i < j < v@.len() ==> v@[i] < v@[j]
                },
            },
    {
        let w = chars_of(input);
        if pos > w.len() {
            if self.match_beyond(&w, pos) {
                let mut v: Vec<usize> = Vec::new();
                v.push(pos);
                assert(offsets(v@) =~= set![pos as int]) by {
                    assert(v@[0] == pos);
                }
                return Some(v);
            } else {
                return None;
            }
        }
        let marks = self.match_marks(&w, pos);
        proof {
            self.lemma_matches_bounded(w@, pos as int);
        }
        let mut v: Vec<usize> = Vec::new();
        let mut q: usize = 0;
        while q < marks.len()
            invariant
                q <= marks.len(),
                marks.len() == w.len() + 1,
                offsets(v@) == Set::new(|x: int| 0 <= x < q && marks@[x]),
                forall|i: int| 0 <= i < v@.len() ==> v@[i] < q,
                forall|i: int, j: int| 0 <= i < j < v@.len() ==> v@[i] < v@[j],
            decreases marks.len() - q,
        {
            if marks[q] {
                let ghost v0 = v@;
                v.push(q);
                assert(offsets(v@) =~= Set::new(|x: int| 0 <= x < q + 1 && marks@[x])) by {
                    assert forall|x: int| offsets(v@).contains(x) implies 0 <= x < q + 1 && marks@[x] by {
                        let i = choose|i: int| 0 <= i < v@.len() && v@[i] as int == x;
                        if i < v0.len() {
                            assert(offsets(v0).contains(x));
                        }
                    }
                    assert forall|x: int| 0 <= x < q + 1 && marks@[x] implies offsets(v@).contains(x) by {
                        if x < q {
                            assert(offsets(v0).contains(x));
                            let i = choose|i: int| 0 <= i < v0.len() && v0[i] as int == x;
                            assert(v@[i] == v0[i]);
                        } else {
                            assert(v@[v0.len() as int] == q);
                        }
                    }
                }
            } else {
                assert(offsets(v@) =~= Set::new(|x: int| 0 <= x < q + 1 && marks@[x]));
            }
            q += 1;
        }
        assert(offsets(v@) =~= self.matches(w@, pos as int));
        if v.len() == 0 {
            assert(offsets(v@) =~= Set::<int>::empty());
            None
        } else {
            Some(v)
        }
    }

    /// One match of `self`, as a step from offset to offsets.
    pub open spec fn step_of(&self, w: Seq<char>) -> spec_fn(int) -> Set<int> {
        |p: int| self.matches(w, p)
    }

    /// A repetition reaches what rounds of its body reach.
    pub proof fn lemma_repeat_star(&self, w: Seq<char>, pos: int)
        requires
            self is Repeat,
            0 <= pos <= w.len(),
        ensures
            self.matches(w, pos) == star(self->Repeat_0.step_of(w), pos),
        decreases w.len() - pos,
    {
        match self {
            RegExp::Repeat(inner) => {
                let step = inner.step_of(w);
                assert forall|q: int| self.matches(w, pos).contains(q) implies star(step, pos).contains(q) by {
                    if q == pos {
                        assert(star_iter(step, pos, 0).contains(pos));
                    } else {
                        let p = choose|p: int|
                            #[trigger] inner.matches(w, pos).contains(p) && pos < p <= w.len() && self.matches(w, p).contains(q);
                        self.lemma_repeat_star(w, p);
                        let n = choose|n: nat| #[trigger] star_iter(step, p, n).contains(q);
                        let t = lemma_star_has_chain(step, p, n, q);
                        let s = seq![pos] + t;
                        assert forall|i: int| 0 <= i < s.len() - 1 implies #[trigger] step(s[i]).contains(s[i + 1]) by {
                            if i > 0 {
                                assert(s[i] == t[i - 1] && s[i + 1] == t[i]);
                                assert(step(t[i - 1]).contains(t[i - 1 + 1]));
                            }
                        }
                        assert(s.last() == t.last());
                        lemma_chain_in_star(step, s, pos);
                    }
                }
                assert forall|q: int| star(step, pos).contains(q) implies self.matches(w, pos).contains(q) by {
                    let n = choose|n: nat| #[trigger] star_iter(step, pos, n).contains(q);
                    let s = lemma_star_has_chain(step, pos, n, q);
                    self.lemma_chain_in_repeat(w, pos, s);
                }
                assert(self.matches(w, pos) =~= star(step, pos));
            },
            _ => {},
        }
    }

    /// Where a chain of matches of the body of a repetition ends, the
    /// repetition can end.
    proof fn lemma_chain_in_repeat(&self, w: Seq<char>, pos: int, s: Seq<int>)
        requires
            self is Repeat,
            0 <= pos <= w.len(),
            is_chain(self->Repeat_0.step_of(w), s, pos),
        ensures
            self.matches(w, pos).contains(s.last()),
        decreases w.len() - pos, s.len(),
    {
        match self {
            RegExp::Repeat(inner) => {
                let step = inner.step_of(w);
                if s.len() > 1 {
                    let p = s[1];
                    let z: int = 0;
                    assert(step(s[z]).contains(s[z + 1]));
                    inner.lemma_matches_bounded(w, pos);
                    let t = s.drop_first();
                    assert forall|i: int| 0 <= i < t.len() - 1 implies #[trigger] step(t[i]).contains(t[i + 1]) by {
                        assert(step(s[i + 1]).contains(s[i + 1 + 1]));
                    }
                    self.lemma_chain_in_repeat(w, p, t);
                    if p != pos {
                        assert(inner.matches(w, pos).contains(p));
                    }
                }
            },
            _ => {},
        }
    }

    /// Matching from an offset within the input ends within the input, and
    /// never before the offset.
    pub proof fn lemma_matches_bounded(&self, w: Seq<char>, pos: int)
        requires
            0 <= pos <= w.len(),
        ensures
            forall|q: int| #[trigger] self.matches(w, pos).contains(q) ==> pos <= q <= w.len(),
        decreases self, w.len() - pos,
    {
        match self {
            RegExp::Concat { left, right } => {
                assert(self.matches(w, pos) == Set::new(
                    |q: int| exists|p: int| #[trigger] left.matches(w, pos).contains(p) && right.matches(w, p).contains(q),
                ));
                assert forall|q: int| #[trigger] self.matches(w, pos).contains(q) implies pos <= q <= w.len() by {
                    let p = choose|p: int| #[trigger] left.matches(w, pos).contains(p) && right.matches(w, p).contains(q);
                    left.lemma_matches_bounded(w, pos);
                    right.lemma_matches_bounded(w, p);
                }
            },
            RegExp::Or { left, right } => {
                left.lemma_matches_bounded(w, pos);
                right.lemma_matches_bounded(w, pos);
                assert(self.matches(w, pos) == left.matches(w, pos).union(right.matches(w, pos)));
            },
            RegExp::Repeat(inner) => {
                assert(self.matches(w, pos) == Set::new(
                    |q: int|
                        q == pos || exists|p: int|
                            #[trigger] inner.matches(w, pos).contains(p) && pos < p <= w.len() && self.matches(
                                w,
                                p,
                            ).contains(q),
                ));
                assert forall|q: int| #[trigger] self.matches(w, pos).contains(q) implies pos <= q <= w.len() by {
                    if q != pos {
                        let p = choose|p: int|
                            #[trigger] inner.matches(w, pos).contains(p) && pos < p <= w.len() && self.matches(w, p).contains(q);
                        self.lemma_matches_bounded(w, p);
                    }
                }
            },
            RegExp::Char(c) => {
                assert(self.matches(w, pos) == (if 0 <= pos < w.len() && w[pos] == *c {
                    set![pos + 1]
                } else {
                    Set::empty()
                }));
            },
            RegExp::Any => {
                assert(self.matches(w, pos) == (if 0 <= pos < w.len() {
                    set![pos + 1]
                } else {
                    Set::empty()
                }));
            },
            RegExp::Empty => {
                assert(self.matches(w, pos) == set![pos]);
            },
        }
    }

    /// What a match from an offset past the end of `w` gives: the offset
    /// itself (when the result holds) or nothing.
    fn match_beyond(&self, w: &Vec<char>, pos: usize) -> (r: bool)
        requires
            pos > w.len(),
        ensures
            self.matches(w@, pos as int) == (if r { set![pos as int] } else { Set::<int>::empty() }),
        decreases self,
    {
        match self {
            RegExp::Char(c) => {
                assert(self.matches(w@, pos as int) =~= Set::<int>::empty());
                false
            },
            RegExp::Any => {
                assert(self.matches(w@, pos as int) =~= Set::<int>::empty());
                false
            },
            RegExp::Empty => {
                assert(self.matches(w@, pos as int) =~= Set::<int>::empty());
                false
            },
            RegExp::Concat { left, right } => {
                let l = left.match_beyond(w, pos);
                let r = l && right.match_beyond(w, pos);
                assert(self.matches(w@, pos as int) == Set::new(
                    |q: int| exists|p: int| #[trigger] left.matches(w@, pos as int).contains(p) && right.matches(w@, p).contains(q),
                ));
                assert(self.matches(w@, pos as int) =~= (if r { set![pos as int] } else { Set::<int>::empty() })) by {
                    if l {
                        assert(left.matches(w@, pos as int).contains(pos as int));
                    }
                }
                r
            },
            RegExp::Or { left, right } => {
                let l = left.match_beyond(w, pos);
                let r = right.match_beyond(w, pos);
                assert(self.matches(w@, pos as int) =~= (if l || r { set![pos as int] } else { Set::<int>::empty() }));
                l || r
            },
            RegExp::Repeat(inner) => {
                assert(self.matches(w@, pos as int) =~= set![pos as int]);
                true
            },
        }
    }

    /// The end offsets of the matches from `pos`, as marks over `0..=w.len()`.
    #[verifier::loop_isolation(false)]
    fn match_marks(&self, w: &Vec<char>, pos: usize) -> (r: Vec<bool>)
        requires
            pos <= w.len() < usize::MAX,
        ensures
            r.len() == w.len() + 1,
            forall|q: int| 0 <= q <= w.len() ==> r@[q] == self.matches(w@, pos as int).contains(q),
        decreases self, 0nat,
    {
        let n = w.len();
        proof {
            self.lemma_matches_bounded(w@, pos as int);
        }
        match self {
            RegExp::Char(c) => {
                let mut r = falses(n + 1);
                if pos < n && w[pos] == *c {
                    r[pos + 1] = true;
                }
                assert(self.matches(w@, pos as int) == (if pos < w@.len() && w@[pos as int] == *c {
                    set![pos + 1]
                } else {
                    Set::<int>::empty()
                }));
                r
            },
            RegExp::Any => {
                let mut r = falses(n + 1);
                if pos < n {
                    r[pos + 1] = true;
                }
                assert(self.matches(w@, pos as int) == (if pos < w@.len() {
                    set![pos + 1]
                } else {
                    Set::<int>::empty()
                }));
                r
            },
            RegExp::Empty => {
                let mut r = falses(n + 1);
                r[pos] = true;
                assert(self.matches(w@, pos as int) == set![pos as int]);
                r
            },
            RegExp::Concat { left, right } => {
                let lm = left.match_marks(w, pos);
                let mut r = falses(n + 1);
                let mut p: usize = 0;
                while p <= n
                    invariant
                        n == w.len() < usize::MAX,
                        p <= n + 1,
                        r.len() == n + 1,
                        lm.len() == n + 1,
                        forall|q: int| 0 <= q <= n ==> lm@[q] == left.matches(w@, pos as int).contains(q),
                        forall|q: int|
                            0 <= q <= n ==> r@[q] == exists|pp: int|
                                0 <= pp < p && lm@[pp] && #[trigger] right.matches(w@, pp).contains(q),
                    decreases n + 1 - p,
                {
                    if lm[p] {
                        let rm = right.match_marks(w, p);
                        let ghost r0 = r@;
                        let _ = or_into(&mut r, &rm);
                        assert forall|q: int| 0 <= q <= n implies r@[q] == exists|pp: int|
                            0 <= pp < p + 1 && lm@[pp] && #[trigger] right.matches(w@, pp).contains(q) by {
                            if rm@[q] {
                                assert(right.matches(w@, p as int).contains(q));
                            }
                            if r0[q] {
                            }
                        }
                    }
                    p += 1;
                }
                proof {
                    left.lemma_matches_bounded(w@, pos as int);
                    assert(self.matches(w@, pos as int) == Set::new(
                        |q: int| exists|pp: int| #[trigger] left.matches(w@, pos as int).contains(pp) && right.matches(w@, pp).contains(q),
                    ));
                    assert forall|q: int| 0 <= q <= w.len() implies r@[q] == self.matches(w@, pos as int).contains(q) by {
                        if self.matches(w@, pos as int).contains(q) {
                            let pp = choose|pp: int| #[trigger] left.matches(w@, pos as int).contains(pp) && right.matches(w@, pp).contains(q);
                            assert(lm@[pp]);
                        }
                        if r@[q] {
                            let pp = choose|pp: int| 0 <= pp < p && lm@[pp] && #[trigger] right.matches(w@, pp).contains(q);
                            assert(left.matches(w@, pos as int).contains(pp));
                        }
                    }
                }
                r
            },
            RegExp::Or { left, right } => {
                let mut r = left.match_marks(w, pos);
                let ghost r0 = r@;
                let rm = right.match_marks(w, pos);
                let _ = or_into(&mut r, &rm);
                assert(self.matches(w@, pos as int) == left.matches(w@, pos as int).union(right.matches(w@, pos as int)));
                assert forall|q: int| 0 <= q <= w.len() implies r@[q] == self.matches(w@, pos as int).contains(q) by {
                    assert(r@[q] == (r0[q] || rm@[q]));
                    assert(r0[q] == left.matches(w@, pos as int).contains(q));
                    assert(rm@[q] == right.matches(w@, pos as int).contains(q));
                }
                r
            },
            RegExp::Repeat(inner) => {
                let r = inner.repeat_match(w, pos);
                proof {
                    self.lemma_repeat_star(w@, pos as int);
                }
                r
            },
        }
    }

    /// The offsets reached from `pos` by zero or more matches of `self` in a
    /// row, as marks over `0..=w.len()`: rounds of matching from every offset
    /// found so far, until a round finds nothing new.
    fn repeat_match(&self, w: &Vec<char>, pos: usize) -> (r: Vec<bool>)
        requires
            pos <= w.len() < usize::MAX,
        ensures
            r.len() == w.len() + 1,
            forall|q: int|
                0 <= q <= w.len() ==> r@[q] == star(self.step_of(w@), pos as int).contains(q),
        decreases self, 1nat,
    {
        let ghost step = self.step_of(w@);
        let n = w.len();
        let mut acc = falses(n + 1);
        acc[pos] = true;
        let ghost mut k: nat = 0;
        proof {
            lemma_marked_len(acc@);
            assert forall|p: int, q: int| 0 <= p <= w.len() && #[trigger] step(p).contains(q) implies p <= q <= w.len() by {
                self.lemma_matches_bounded(w@, p);
            }
        }
        loop
            invariant
                n == w.len() < usize::MAX,
                pos <= n,
                step == self.step_of(w@),
                forall|p: int, q: int| 0 <= p <= w.len() && #[trigger] step(p).contains(q) ==> p <= q <= w.len(),
                acc.len() == n + 1,
                forall|q: int| 0 <= q <= n ==> acc@[q] == star_iter(step, pos as int, k).contains(q),
                marked(acc@).len() <= n + 1,
            decreases n + 1 - marked(acc@).len(),
        {
            let mut next = acc.clone();
            assert(next@ =~= acc@);
            let mut changed = false;
            let mut p: usize = 0;
            while p <= n
                invariant
                    n == w.len() < usize::MAX,
                    p <= n + 1,
                    step == self.step_of(w@),
                    acc.len() == n + 1,
                    next.len() == n + 1,
                    forall|q: int|
                        0 <= q <= n ==> next@[q] == (acc@[q] || exists|pp: int|
                            0 <= pp < p && acc@[pp] && #[trigger] step(pp).contains(q)),
                    changed == exists|q: int| 0 <= q <= n && next@[q] && !acc@[q],
                decreases n + 1 - p,
            {
                if acc[p] {
                    let m = self.match_marks(w, p);
                    let ghost n0 = next@;
                    let grew = or_into(&mut next, &m);
                    changed = changed || grew;
                    assert forall|q: int| 0 <= q <= n implies next@[q] == (acc@[q] || exists|pp: int|
                        0 <= pp < p + 1 && acc@[pp] && #[trigger] step(pp).contains(q)) by {
                        if m@[q] {
                            assert(step(p as int).contains(q));
                        }
                        if n0[q] {
                        }
                    }
                    assert(changed == exists|q: int| 0 <= q <= n && next@[q] && !acc@[q]) by {
                        if grew {
                            let q = choose|q: int| 0 <= q < m@.len() && m@[q] && !n0[q];
                            assert(next@[q] && !acc@[q]);
                        }
                        if exists|q: int| 0 <= q <= n && next@[q] && !acc@[q] {
                            let q = choose|q: int| 0 <= q <= n && next@[q] && !acc@[q];
                            if !n0[q] {
                                assert(m@[q]);
                                assert(grew);
                            }
                        }
                    }
                }
                p += 1;
            }
            proof {
                let cur = star_iter(step, pos as int, k);
                lemma_star_bounded(step, pos as int, k, n as int);
                lemma_star_bounded(step, pos as int, k + 1, n as int);
                assert forall|q: int| 0 <= q <= n implies next@[q] == #[trigger] star_iter(step, pos as int, k + 1).contains(q) by {
                    if star_iter(step, pos as int, k + 1).contains(q) && !cur.contains(q) {
                        let pp = choose|pp: int| #[trigger] cur.contains(pp) && step(pp).contains(q);
                        assert(acc@[pp]);
                    }
                    if next@[q] && !acc@[q] {
                        let pp = choose|pp: int| 0 <= pp < p && acc@[pp] && #[trigger] step(pp).contains(q);
                        assert(cur.contains(pp));
                    }
                }
                lemma_marked_len(next@);
            }
            if !changed {
                proof {
                    assert(star_iter(step, pos as int, k + 1) =~= star_iter(step, pos as int, k)) by {
                        assert forall|q: int| #[trigger] star_iter(step, pos as int, k + 1).contains(q)
                            implies star_iter(step, pos as int, k).contains(q) by {
                            assert(0 <= q <= n);
                            assert(next@[q]);
                        }
                        lemma_star_mono(step, pos as int, k, k + 1);
                    }
                    lemma_star_at_fixpoint(step, pos as int, k);
                }
                return acc;
            }
            proof {
                let q = choose|q: int| 0 <= q <= n && next@[q] && !acc@[q];
                assert(marked(acc@).subset_of(marked(next@)));
                assert(marked(next@).contains(q));
                marked(acc@).lemma_subset_not_in_lt(marked(next@), q);
                k = k + 1;
            }
            acc = next;
        }
    }
}

/// The offsets reached from `pos` by at most `n` steps in a row, where
/// `step(p)` gives the offsets one step reaches from `p`.
pub open spec fn star_iter(step: spec_fn(int) -> Set<int>, pos: int, n: nat) -> Set<int>
    decreases n,
{
    if n == 0 {
        set![pos]
    } else {
        let prev = star_iter(step, pos, (n - 1) as nat);
        prev.union(Set::new(|q: int| exists|p: int| #[trigger] prev.contains(p) && step(p).contains(q)))
    }
}

/// The offsets reached from `pos` by any number of steps in a row.
pub open spec fn star(step: spec_fn(int) -> Set<int>, pos: int) -> Set<int> {
    Set::new(|q: int| exists|n: nat| #[trigger] star_iter(step, pos, n).contains(q))
}

/// A chain of steps from `pos`, each starting where the last one ended.
pub open spec fn is_chain(step: spec_fn(int) -> Set<int>, s: Seq<int>, pos: int) -> bool {
    &&& s.len() >= 1
    &&& s[0] == pos
    &&& forall|i: int| 0 <= i < s.len() - 1 ==> #[trigger] step(s[i]).contains(s[i + 1])
}

/// Where a chain of `k + 1` offsets ends, `k` rounds of steps reach.
pub proof fn lemma_chain_in_star(step: spec_fn(int) -> Set<int>, s: Seq<int>, pos: int)
    requires
        is_chain(step, s, pos),
    ensures
        star_iter(step, pos, (s.len() - 1) as nat).contains(s.last()),
        star(step, pos).contains(s.last()),
    decreases s.len(),
{
    if s.len() > 1 {
        let t = s.drop_last();
        assert(is_chain(step, t, pos)) by {
            assert forall|i: int| 0 <= i < t.len() - 1 implies #[trigger] step(t[i]).contains(t[i + 1]) by {
                assert(step(s[i]).contains(s[i + 1]));
            }
        }
        lemma_chain_in_star(step, t, pos);
        let i = s.len() - 2;
        assert(step(s[i]).contains(s[i + 1]));
        assert(t.last() == s[i]);
    }
    assert(star_iter(step, pos, (s.len() - 1) as nat).contains(s.last()));
}

/// Whatever `n` rounds of steps reach, a chain reaches.
pub proof fn lemma_star_has_chain(step: spec_fn(int) -> Set<int>, pos: int, n: nat, q: int) -> (s: Seq<int>)
    requires
        star_iter(step, pos, n).contains(q),
    ensures
        is_chain(step, s, pos),
        s.last() == q,
    decreases n,
{
    if n == 0 {
        seq![pos]
    } else {
        let prev = star_iter(step, pos, (n - 1) as nat);
        if prev.contains(q) {
            lemma_star_has_chain(step, pos, (n - 1) as nat, q)
        } else {
            let p = choose|p: int| #[trigger] prev.contains(p) && step(p).contains(q);
            let t = lemma_star_has_chain(step, pos, (n - 1) as nat, p);
            let s = t.push(q);
            assert forall|i: int| 0 <= i < s.len() - 1 implies #[trigger] step(s[i]).contains(s[i + 1]) by {
                if i < t.len() - 1 {
                    assert(step(t[i]).contains(t[i + 1]));
                }
            }
            s
        }
    }
}

/// Steps that stay within `0..=len` and never go back keep repetition there.
pub proof fn lemma_star_bounded(step: spec_fn(int) -> Set<int>, pos: int, n: nat, len: int)
    requires
        0 <= pos <= len,
        forall|p: int, q: int| 0 <= p <= len && #[trigger] step(p).contains(q) ==> p <= q <= len,
    ensures
        forall|q: int| #[trigger] star_iter(step, pos, n).contains(q) ==> pos <= q <= len,
    decreases n,
{
    if n > 0 {
        lemma_star_bounded(step, pos, (n - 1) as nat, len);
        let prev = star_iter(step, pos, (n - 1) as nat);
        assert forall|q: int| #[trigger] star_iter(step, pos, n).contains(q) implies pos <= q <= len by {
            if !prev.contains(q) {
                let p = choose|p: int| #[trigger] prev.contains(p) && step(p).contains(q);
            }
        }
    }
}

/// Further rounds of repetition reach no fewer offsets.
pub proof fn lemma_star_mono(step: spec_fn(int) -> Set<int>, pos: int, m: nat, n: nat)
    requires
        m <= n,
    ensures
        star_iter(step, pos, m).subset_of(star_iter(step, pos, n)),
    decreases n - m,
{
    if m < n {
        lemma_star_mono(step, pos, m, (n - 1) as nat);
    }
}

proof fn lemma_star_stable(step: spec_fn(int) -> Set<int>, pos: int, k: nat, n: nat)
    requires
        star_iter(step, pos, k + 1) == star_iter(step, pos, k),
        k <= n,
    ensures
        star_iter(step, pos, n) == star_iter(step, pos, k),
    decreases n - k,
{
    if k < n {
        lemma_star_stable(step, pos, k, (n - 1) as nat);
    }
}

/// Once a round of repetition adds nothing, every offset has been found.
pub proof fn lemma_star_at_fixpoint(step: spec_fn(int) -> Set<int>, pos: int, k: nat)
    requires
        star_iter(step, pos, k + 1) == star_iter(step, pos, k),
    ensures
        star(step, pos) == star_iter(step, pos, k),
{
    assert forall|q: int| star(step, pos).contains(q) implies star_iter(step, pos, k).contains(q) by {
        let n = choose|n: nat| #[trigger] star_iter(step, pos, n).contains(q);
        if n <= k {
            lemma_star_mono(step, pos, n, k);
        } else {
            lemma_star_stable(step, pos, k, n);
        }
    }
    assert(star(step, pos) =~= star_iter(step, pos, k));
}

/// The offsets marked in `s`.
pub open spec fn marked(s: Seq<bool>) -> Set<int> {
    Set::new(|q: int| 0 <= q < s.len() && s[q])
}

proof fn lemma_marked_len(s: Seq<bool>)
    ensures
        marked(s).finite(),
        marked(s).len() <= s.len(),
{
    let all = vstd::set_lib::set_int_range(0, s.len() as int);
    vstd::set_lib::lemma_int_range(0, s.len() as int);
    assert(marked(s).subset_of(all));
    vstd::set_lib::lemma_len_subset(marked(s), all);
}

/// `n` marks, none set.
fn falses(n: usize) -> (r: Vec<bool>)
    ensures
        r.len() == n,
        forall|i: int| 0 <= i < n ==> !r@[i],
{
    let mut r: Vec<bool> = Vec::new();
    let mut i: usize = 0;
    while i < n
        invariant
            i <= n,
            r.len() == i,
            forall|j: int| 0 <= j < i ==> !r@[j],
        decreases n - i,
    {
        r.push(false);
        i += 1;
    }
    r
}

/// Sets in `acc` every mark set in `m`; tells whether a mark was new.
fn or_into(acc: &mut Vec<bool>, m: &Vec<bool>) -> (grew: bool)
    requires
        old(acc).len() == m.len(),
    ensures
        final(acc).len() == m.len(),
        forall|i: int| 0 <= i < m.len() ==> #[trigger] final(acc)@[i] == (old(acc)@[i] || m@[i]),
        grew == exists|i: int| 0 <= i < m.len() && m@[i] && !old(acc)@[i],
{
    let ghost a0 = acc@;
    let mut grew = false;
    let mut i: usize = 0;
    while i < m.len()
        invariant
            i <= m.len(),
            acc.len() == m.len(),
            a0.len() == m.len(),
            forall|j: int| 0 <= j < i ==> #[trigger] acc@[j] == (a0[j] || m@[j]),
            forall|j: int| i <= j < m.len() ==> #[trigger] acc@[j] == a0[j],
            grew == exists|j: int| 0 <= j < i && m@[j] && !a0[j],
        decreases m.len() - i,
    {
        if m[i] {
            if !acc[i] {
                grew = true;
            }
            acc[i] = true;
        }
        i += 1;
    }
    grew
}

} // verus!
