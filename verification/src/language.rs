use crate::automaton::{Automaton, CAPACITY};
use crate::nfa_to_dfa::{
    all_live, charted, crowded, determinizes, distinct_moves, distinct_sets, faithful,
    lemma_chart_facts, lemma_chart_tag,
};
use crate::re_to_nfa::{BranchLabel, State};
use vstd::prelude::*;
use vstd::set_lib::{lemma_int_range, lemma_len_subset, set_int_range};

verus! {

impl Automaton {
    /// Some path from a start state to `v` spells `w`.
    pub open spec fn arrives(self, w: Seq<char>, v: int) -> bool {
        exists|s: int, path: Seq<int>| #[trigger]
            self.walk(s, path, v) && self.node(s) && self.states[s] == State::Start && self.word(
                path,
            ) == w
    }

    /// A path of epsilon moves spells the empty word.
    pub proof fn lemma_silent(self, path: Seq<int>)
        requires
            self.uniform(path, BranchLabel::Empty),
        ensures
            self.word(path) == Seq::<char>::empty(),
        decreases path.len(),
    {
        if path.len() > 0 {
            assert(path[path.len() - 1] == path.last());
            assert forall|k: int| 0 <= k < path.drop_last().len() implies self.edges[
                #[trigger] path.drop_last()[k]].2 == BranchLabel::<char>::Empty by {
                assert(path.drop_last()[k] == path[k]);
            }
            self.lemma_silent(path.drop_last());
        }
    }

    /// Every state in which the automaton can be after `w` is reached from a
    /// start state by a path that spells `w`.
    pub proof fn lemma_run_arrives(self, w: Seq<char>, v: int)
        requires
            self.run(w).contains(v),
        ensures
            self.arrives(w, v),
        decreases w.len(),
    {
        let eps = BranchLabel::<char>::Empty;
        if w.len() == 0 {
            let u = choose|u: int| self.starts().contains(u) && #[trigger] self.reaches(u, eps, v);
            let path = choose|path: Seq<int>| #[trigger]
                self.walk(u, path, v) && self.uniform(path, eps);
            self.lemma_silent(path);
            assert(self.word(path) =~= w);
        } else {
            let c = w.last();
            let before = self.run(w.drop_last());
            let x = choose|x: int|
                self.step(before, c).contains(x) && #[trigger] self.reaches(x, eps, v);
            let q = choose|q: Seq<int>| #[trigger] self.walk(x, q, v) && self.uniform(q, eps);
            let e = choose|e: int|
                #[trigger] self.edge(e) && before.contains(self.edges[e].0) && self.edges[e].2
                    == BranchLabel::Literal(c) && self.edges[e].1 == x;
            self.lemma_run_arrives(w.drop_last(), self.edges[e].0);
            let (s, p) = choose|s: int, p: Seq<int>| #[trigger]
                self.walk(s, p, self.edges[e].0) && self.node(s) && self.states[s] == State::Start
                    && self.word(p) == w.drop_last();
            self.lemma_walk_push(s, p, e);
            self.lemma_walk_join(s, p.push(e), x, q, v);
            self.lemma_silent(q);
            assert(self.word(p.push(e) + q) =~= w) by {
                assert(w.drop_last().push(c) =~= w);
            }
        }
    }

    /// A path from a start state ends in a state in which the automaton can
    /// be after the word that the path spells.
    pub proof fn lemma_walk_runs(self, s: int, path: Seq<int>, v: int)
        requires
            self.walk(s, path, v),
            self.node(s),
            self.states[s] == State::Start,
        ensures
            self.run(self.word(path)).contains(v),
        decreases path.len(),
    {
        let eps = BranchLabel::<char>::Empty;
        if path.len() == 0 {
            assert(self.uniform(path, eps));
            assert(self.reaches(s, eps, v));
            assert(self.starts().contains(s));
        } else {
            let e = path.last();
            let x = self.edges[e].0;
            let w = self.word(path.drop_last());
            self.lemma_walk_runs(s, path.drop_last(), x);
            match self.edges[e].2 {
                BranchLabel::Literal(c) => {
                    let word = self.word(path);
                    assert(word.drop_last() =~= w);
                    assert(word.last() == c);
                    assert(self.step(self.run(w), c).contains(v));
                    assert(self.walk(v, Seq::<int>::empty(), v));
                    assert(self.uniform(Seq::<int>::empty(), eps));
                    assert(self.reaches(v, eps, v));
                },
                BranchLabel::Empty => {
                    if w.len() == 0 {
                        self.lemma_closure_step(self.starts(), eps, e);
                    } else {
                        self.lemma_closure_step(self.step(self.run(w.drop_last()), w.last()), eps, e);
                    }
                },
            }
        }
    }

    /// The automaton accepts a word where it can be in a final state after it.
    pub proof fn lemma_accepts_by_run(self, w: Seq<char>)
        ensures
            self.accepts(w) <==> self.has_final(self.run(w)),
    {
        if self.accepts(w) {
            let (s, path, f) = choose|s: int, path: Seq<int>, f: int| #[trigger]
                self.walk(s, path, f) && self.node(s) && self.states[s] == State::Start
                    && self.states[f] == State::Final && self.word(path) == w;
            self.lemma_walk_runs(s, path, f);
            self.lemma_walk_from_node(s, path, f);
            assert(self.states[f] == State::Final);
        }
        if self.has_final(self.run(w)) {
            let f = choose|f: int|
                self.run(w).contains(f) && self.node(f) && #[trigger] self.states[f]
                    == State::Final;
            self.lemma_run_arrives(w, f);
        }
    }

    /// Where the automaton can be in some state after `w`, it can follow `w`.
    pub proof fn lemma_run_live(self, w: Seq<char>, v: int)
        requires
            self.run(w).contains(v),
        ensures
            self.live(w),
        decreases w.len(),
    {
        if w.len() > 0 {
            let eps = BranchLabel::<char>::Empty;
            let c = w.last();
            let before = self.run(w.drop_last());
            let x = choose|x: int|
                self.step(before, c).contains(x) && #[trigger] self.reaches(x, eps, v);
            let e = choose|e: int|
                #[trigger] self.edge(e) && before.contains(self.edges[e].0) && self.edges[e].2
                    == BranchLabel::Literal(c) && self.edges[e].1 == x;
            self.lemma_run_live(w.drop_last(), self.edges[e].0);
        }
    }
}

/// A path of the subset construction from its first state ends in the state
/// that stands for the set in which the automaton can be after the path's word.
pub proof fn lemma_chart_follows(
    nfa: Automaton,
    dfa: Automaton,
    words: Seq<Seq<char>>,
    path: Seq<int>,
    k: int,
)
    requires
        charted(nfa, dfa, words, dfa.states.len() as int),
        dfa.walk(0, path, k),
    ensures
        0 <= k < words.len(),
        nfa.run(dfa.word(path)) == nfa.run(words[k]),
    decreases path.len(),
{
    reveal(charted);
    if path.len() > 0 {
        let e = path.last();
        let a = dfa.edges[e].0;
        lemma_chart_follows(nfa, dfa, words, path.drop_last(), a);
        assert(faithful(nfa, words, dfa.edges[e]));
        match dfa.edges[e].2 {
            BranchLabel::Literal(c) => {
                let word = dfa.word(path);
                assert(word.drop_last() =~= dfa.word(path.drop_last()));
            },
            BranchLabel::Empty => {},
        }
    }
}

/// In the subset construction a state has an edge for every symbol that
/// its set offers, to the state that stands for the set that the symbol
/// leads to.
pub proof fn lemma_chart_move(
    nfa: Automaton,
    dfa: Automaton,
    words: Seq<Seq<char>>,
    a: int,
    c: char,
) -> (e: int)
    requires
        charted(nfa, dfa, words, dfa.states.len() as int),
        0 <= a < words.len(),
        nfa.offers(nfa.run(words[a]), c),
    ensures
        dfa.edge(e),
        dfa.edges[e].0 == a,
        dfa.edges[e].2 == BranchLabel::Literal(c),
        0 <= dfa.edges[e].1 < words.len(),
        nfa.run(words[dfa.edges[e].1]) == nfa.next(nfa.run(words[a]), c),
{
    reveal(charted);
    assert(dfa.has_move(a, c));
    let e = choose|e: int|
        0 <= e < dfa.edges.len() && (#[trigger] dfa.edges[e]).0 == a && dfa.edges[e].2
            == BranchLabel::Literal(c);
    assert(faithful(nfa, words, dfa.edges[e]));
    e
}

/// `path` leads from the first state of the subset construction to the
/// state `k`, which stands for the set after `w`, and spells `w`.
pub open spec fn leads(
    nfa: Automaton,
    dfa: Automaton,
    words: Seq<Seq<char>>,
    w: Seq<char>,
    path: Seq<int>,
    k: int,
) -> bool {
    dfa.walk(0, path, k) && dfa.word(path) == w && 0 <= k < words.len() && nfa.run(words[k])
        == nfa.run(w)
}

/// The subset construction has a path from its first state for every word
/// that the automaton can follow.
pub proof fn lemma_chart_leads(
    nfa: Automaton,
    dfa: Automaton,
    words: Seq<Seq<char>>,
    w: Seq<char>,
) -> (found: (Seq<int>, int))
    requires
        charted(nfa, dfa, words, dfa.states.len() as int),
        nfa.live(w),
    ensures
        leads(nfa, dfa, words, w, found.0, found.1),
    decreases w.len(),
{
    lemma_chart_facts(nfa, dfa, words, dfa.states.len() as int);
    if w.len() == 0 {
        let path = Seq::<int>::empty();
        assert(dfa.walk(0, path, 0));
        assert(dfa.word(path) =~= w);
        assert(w =~= words[0]);
        (path, 0)
    } else {
        let c = w.last();
        let (p, a) = lemma_chart_leads(nfa, dfa, words, w.drop_last());
        let e = lemma_chart_move(nfa, dfa, words, a, c);
        dfa.lemma_walk_push(0, p, e);
        assert(w.drop_last().push(c) =~= w);
        (p.push(e), dfa.edges[e].1)
    }
}

/// Numbers below `n`, no two of them the same, are at most `n`.
pub proof fn lemma_numbers_fit(numbers: Seq<int>, n: int)
    requires
        0 <= n,
        numbers.no_duplicates(),
        forall|i: int| 0 <= i < numbers.len() ==> 0 <= #[trigger] numbers[i] < n,
    ensures
        numbers.len() <= n,
{
    numbers.unique_seq_to_set();
    lemma_int_range(0, n);
    assert(numbers.to_set().subset_of(set_int_range(0, n))) by {
        assert forall|x: int| numbers.to_set().contains(x) implies set_int_range(0, n).contains(
            x,
        ) by {
            let i = choose|i: int| 0 <= i < numbers.len() && numbers[i] == x;
            assert(0 <= numbers[i] < n);
        }
    }
    lemma_len_subset(numbers.to_set(), set_int_range(0, n));
}

/// The state of the subset construction that stands for the set after `w`.
pub open spec fn state_after(nfa: Automaton, words: Seq<Seq<char>>, w: Seq<char>) -> int {
    choose|k: int| 0 <= k < words.len() && nfa.run(#[trigger] words[k]) == nfa.run(w)
}

/// The edge of the subset construction for the symbol `c` after the word `w`.
pub open spec fn edge_after(
    nfa: Automaton,
    dfa: Automaton,
    words: Seq<Seq<char>>,
    w: Seq<char>,
    c: char,
) -> int {
    choose|e: int|
        0 <= e < dfa.edges.len() && (#[trigger] dfa.edges[e]).0 == state_after(nfa, words, w)
            && dfa.edges[e].2 == BranchLabel::Literal(c)
}

/// The subset construction has a state for the set after every word that
/// the automaton can follow.
pub proof fn lemma_state_after(nfa: Automaton, dfa: Automaton, words: Seq<Seq<char>>, w: Seq<char>)
    requires
        charted(nfa, dfa, words, dfa.states.len() as int),
        nfa.live(w),
    ensures
        0 <= state_after(nfa, words, w) < words.len(),
        nfa.run(words[state_after(nfa, words, w)]) == nfa.run(w),
{
    let (path, k) = lemma_chart_leads(nfa, dfa, words, w);
    assert(0 <= k < words.len() && nfa.run(words[k]) == nfa.run(w));
}

/// A subset construction that a graph holds is not too large for one.
pub proof fn lemma_chart_roomy(nfa: Automaton, dfa: Automaton, words: Seq<Seq<char>>)
    requires
        charted(nfa, dfa, words, dfa.states.len() as int),
        dfa.states.len() <= CAPACITY,
        dfa.edges.len() <= CAPACITY,
    ensures
        !crowded(nfa),
{
    lemma_chart_facts(nfa, dfa, words, dfa.states.len() as int);
    if exists|many: Seq<Seq<char>>|
        many.len() > CAPACITY && all_live(nfa, many) && #[trigger] distinct_sets(nfa, many) {
        let many = choose|many: Seq<Seq<char>>|
            many.len() > CAPACITY && all_live(nfa, many) && #[trigger] distinct_sets(nfa, many);
        let numbers = Seq::new(many.len(), |i: int| state_after(nfa, words, many[i]));
        assert forall|i: int| 0 <= i < numbers.len() implies 0 <= #[trigger] numbers[i]
            < words.len() && nfa.run(words[numbers[i]]) == nfa.run(many[i]) by {
            lemma_state_after(nfa, dfa, words, many[i]);
        }
        assert forall|i: int, j: int|
            0 <= i < numbers.len() && 0 <= j < numbers.len() && i != j implies numbers[i]
            != numbers[j] by {
            assert(nfa.run(words[numbers[i]]) == nfa.run(many[i]));
            assert(nfa.run(words[numbers[j]]) == nfa.run(many[j]));
            if i < j {
                assert(nfa.run(many[i]) != nfa.run(many[j]));
            } else {
                assert(nfa.run(many[j]) != nfa.run(many[i]));
            }
        }
        lemma_numbers_fit(numbers, words.len() as int);
    }
    if exists|moves: Seq<(Seq<char>, char)>|
        moves.len() > CAPACITY && #[trigger] distinct_moves(nfa, moves) {
        let moves = choose|moves: Seq<(Seq<char>, char)>|
            moves.len() > CAPACITY && #[trigger] distinct_moves(nfa, moves);
        let numbers = Seq::new(
            moves.len(),
            |i: int| edge_after(nfa, dfa, words, moves[i].0, moves[i].1),
        );
        assert forall|i: int| 0 <= i < numbers.len() implies 0 <= #[trigger] numbers[i]
            < dfa.edges.len() && dfa.edges[numbers[i]].0 == state_after(nfa, words, moves[i].0)
            && dfa.edges[numbers[i]].2 == BranchLabel::Literal(moves[i].1) by {
            lemma_state_after(nfa, dfa, words, moves[i].0);
            let e = lemma_chart_move(
                nfa,
                dfa,
                words,
                state_after(nfa, words, moves[i].0),
                moves[i].1,
            );
        }
        assert forall|i: int, j: int|
            0 <= i < numbers.len() && 0 <= j < numbers.len() && i != j implies numbers[i]
            != numbers[j] by {
            lemma_state_after(nfa, dfa, words, moves[i].0);
            lemma_state_after(nfa, dfa, words, moves[j].0);
            assert(0 <= numbers[i] < dfa.edges.len());
            assert(0 <= numbers[j] < dfa.edges.len());
            if i < j {
                assert(!(nfa.run(moves[i].0) == nfa.run(moves[j].0) && moves[i].1 == moves[j].1));
            } else {
                assert(!(nfa.run(moves[j].0) == nfa.run(moves[i].0) && moves[j].1 == moves[i].1));
            }
        }
        lemma_numbers_fit(numbers, dfa.edges.len() as int);
    }
}

/// The subset construction accepts a word where the automaton can be in a
/// final state after it, unless the word leads back to the set of the first
/// state, which is a start state and never final.
pub proof fn lemma_chart_accepts(nfa: Automaton, dfa: Automaton, w: Seq<char>)
    requires
        determinizes(nfa, dfa),
    ensures
        dfa.accepts(w) <==> nfa.has_final(nfa.run(w)) && nfa.run(w) != nfa.run(Seq::<char>::empty()),
{
    let words = choose|words: Seq<Seq<char>>| #[trigger]
        charted(nfa, dfa, words, dfa.states.len() as int);
    lemma_chart_facts(nfa, dfa, words, dfa.states.len() as int);
    if dfa.accepts(w) {
        let (s, path, f) = choose|s: int, path: Seq<int>, f: int| #[trigger]
            dfa.walk(s, path, f) && dfa.node(s) && dfa.states[s] == State::Start && dfa.states[f]
                == State::Final && dfa.word(path) == w;
        if s != 0 {
            lemma_chart_tag(nfa, dfa, words, dfa.states.len() as int, s);
        }
        lemma_chart_follows(nfa, dfa, words, path, f);
        assert(f != 0);
        lemma_chart_tag(nfa, dfa, words, dfa.states.len() as int, f);
        assert(nfa.run(words[0]) != nfa.run(words[f]));
    }
    if nfa.has_final(nfa.run(w)) && nfa.run(w) != nfa.run(Seq::<char>::empty()) {
        let v = choose|v: int|
            nfa.run(w).contains(v) && nfa.node(v) && #[trigger] nfa.states[v] == State::Final;
        nfa.lemma_run_live(w, v);
        let (path, k) = lemma_chart_leads(nfa, dfa, words, w);
        assert(k != 0);
        lemma_chart_tag(nfa, dfa, words, dfa.states.len() as int, k);
        assert(dfa.node(0));
    }
}

/// The subset construction accepts the words that the automaton accepts,
/// but for an accepted word after which the automaton can be in just the
/// states in which it can be at the start.
pub proof fn lemma_language_kept(nfa: Automaton, dfa: Automaton, w: Seq<char>)
    requires
        determinizes(nfa, dfa),
        !(nfa.accepts(w) && nfa.run(w) == nfa.run(Seq::<char>::empty())),
    ensures
        dfa.accepts(w) <==> nfa.accepts(w),
{
    lemma_chart_accepts(nfa, dfa, w);
    nfa.lemma_accepts_by_run(w);
}

/// No state of the subset construction has two edges with the same symbol.
pub proof fn lemma_deterministic(nfa: Automaton, dfa: Automaton)
    requires
        determinizes(nfa, dfa),
    ensures
        dfa.deterministic(),
{
    let words = choose|words: Seq<Seq<char>>| #[trigger]
        charted(nfa, dfa, words, dfa.states.len() as int);
    lemma_chart_facts(nfa, dfa, words, dfa.states.len() as int);
}

} // verus!
