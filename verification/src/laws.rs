use crate::automaton::Automaton;
use crate::fragments::{
    extends, lemma_fragment_reads, lemma_fragment_shape, lemma_fragment_spells,
    lemma_walk_extends, structured, within,
};
use crate::language::lemma_chart_accepts;
use crate::nfa_to_dfa::determinizes;
use crate::re_to_nfa::{compiled, fragment, lemma_fragment_extends, BranchLabel, State};
use crate::regex::{positive, Regex};
use vstd::prelude::*;

verus! {

impl Automaton {
    /// `w` is `n` words in a row, each accepted by the automaton.
    pub open spec fn accepts_row(self, n: nat, w: Seq<char>) -> bool
        decreases n,
    {
        if n == 0 {
            w.len() == 0
        } else {
            exists|k: int|
                0 <= k <= w.len() && self.accepts(#[trigger] w.take(k)) && self.accepts_row(
                    (n - 1) as nat,
                    w.skip(k),
                )
        }
    }

    /// The edges of a path are edges of the automaton.
    pub proof fn lemma_walk_within(self, from: int, path: Seq<int>, to: int)
        requires
            self.walk(from, path, to),
        ensures
            within(path, 0, self.edges.len() as int),
        decreases path.len(),
    {
        if path.len() > 0 {
            self.lemma_walk_within(from, path.drop_last(), self.edges[path.last()].0);
            assert forall|k: int| 0 <= k < path.len() implies 0 <= #[trigger] path[k]
                < self.edges.len() by {
                if k < path.len() - 1 {
                    assert(path.drop_last()[k] == path[k]);
                }
            }
        }
    }

    /// After one symbol or more the automaton is in states that an edge enters.
    pub proof fn lemma_run_entered(self, w: Seq<char>, v: int)
        requires
            w.len() > 0,
            self.run(w).contains(v),
        ensures
            exists|e: int| #[trigger] self.edge(e) && self.edges[e].1 == v,
    {
        let eps = BranchLabel::<char>::Empty;
        let from = self.step(self.run(w.drop_last()), w.last());
        let x = choose|x: int| from.contains(x) && #[trigger] self.reaches(x, eps, v);
        let path = choose|path: Seq<int>| #[trigger]
            self.walk(x, path, v) && self.uniform(path, eps);
        if path.len() == 0 {
            let e = choose|e: int|
                #[trigger] self.edge(e) && self.run(w.drop_last()).contains(self.edges[e].0)
                    && self.edges[e].2 == BranchLabel::Literal(w.last()) && self.edges[e].1 == x;
            assert(self.edge(e) && self.edges[e].1 == v);
        } else {
            assert(self.edge(path.last()) && self.edges[path.last()].1 == v);
        }
    }
}

/// The automaton of an expression has one start state, its first state, and
/// one final state; no edge enters the start state; and every edge is an
/// epsilon move or carries a symbol of the expression.
pub proof fn lemma_compiled_shape(expression: Regex<char>)
    ensures
        structured(compiled(expression), expression),
{
    let base = Automaton { states: seq![State::Start], edges: Seq::empty() };
    let (built, end) = fragment(base, 0, expression);
    let c = compiled(expression);
    lemma_fragment_extends(base, 0, expression);
    lemma_fragment_shape(base, 0, expression);
    assert(built.states[0] == base.states[0]);
    assert(c.states[end] == State::Final);
    assert forall|v: int| c.node(v) && #[trigger] c.states[v] == State::Final implies v == end by {
        if v != end {
            assert(c.states[v] == built.states[v]);
        }
    }
    assert forall|v: int| c.node(v) && #[trigger] c.states[v] == State::Start implies v == 0 by {
        if v != end && v != 0 {
            assert(c.states[v] == built.states[v]);
        }
    }
    assert forall|e: int| 0 <= e < c.edges.len() implies 1 <= (#[trigger] c.edges[e]).1
        < c.states.len() && 0 <= c.edges[e].0 < c.states.len() by {
        assert(c.edges[e] == built.edges[e]);
    }
}

/// The automaton of an expression accepts the words that the expression matches.
pub proof fn lemma_compiled_language(expression: Regex<char>, w: Seq<char>)
    ensures
        compiled(expression).accepts(w) <==> expression.matches(w),
{
    let base = Automaton { states: seq![State::Start], edges: Seq::empty() };
    let (built, end) = fragment(base, 0, expression);
    let c = compiled(expression);
    lemma_fragment_extends(base, 0, expression);
    lemma_compiled_shape(expression);
    assert(extends(c, built));
    if expression.matches(w) {
        let path = lemma_fragment_spells(base, 0, expression, w);
        lemma_walk_extends(c, built, 0, path, end);
        assert(c.walk(0, path, end) && c.node(0) && c.states[0] == State::Start && c.states[end]
            == State::Final && c.word(path) == w);
    }
    if c.accepts(w) {
        let (s, path, f) = choose|s: int, path: Seq<int>, f: int| #[trigger]
            c.walk(s, path, f) && c.node(s) && c.states[s] == State::Start && c.states[f]
                == State::Final && c.word(path) == w;
        c.lemma_walk_from_node(s, path, f);
        c.lemma_walk_within(s, path, f);
        assert(s == 0);
        assert(f == end);
        lemma_fragment_reads(base, 0, expression, c, path);
    }
}

/// The subset construction of the automaton of an expression accepts the
/// words of one symbol or more that the expression matches. It does not
/// accept the empty word: its first state is a start state, not a final one.
pub proof fn lemma_compiled_dfa_language(expression: Regex<char>, dfa: Automaton, w: Seq<char>)
    requires
        determinizes(compiled(expression), dfa),
    ensures
        dfa.accepts(w) <==> w.len() > 0 && expression.matches(w),
{
    let c = compiled(expression);
    let none = Seq::<char>::empty();
    lemma_chart_accepts(c, dfa, w);
    c.lemma_accepts_by_run(w);
    lemma_compiled_language(expression, w);
    lemma_compiled_shape(expression);
    if w.len() > 0 {
        assert(c.run(none).contains(0)) by {
            assert(c.walk(0, Seq::<int>::empty(), 0));
            assert(c.uniform(Seq::<int>::empty(), BranchLabel::Empty));
            assert(c.reaches(0, BranchLabel::Empty, 0));
            assert(c.starts().contains(0));
        }
        if c.run(w).contains(0) {
            c.lemma_run_entered(w, 0);
        }
    } else {
        assert(w =~= none);
    }
}

/// The subset construction of an alternative accepts a word where that of
/// the first operand or that of the second accepts it.
pub proof fn lemma_alternation(
    a: Regex<char>,
    b: Regex<char>,
    first: Automaton,
    second: Automaton,
    either: Automaton,
    w: Seq<char>,
)
    requires
        determinizes(compiled(a), first),
        determinizes(compiled(b), second),
        determinizes(compiled(Regex::Alternative(Box::new(a), Box::new(b))), either),
    ensures
        either.accepts(w) <==> first.accepts(w) || second.accepts(w),
{
    lemma_compiled_dfa_language(a, first, w);
    lemma_compiled_dfa_language(b, second, w);
    lemma_compiled_dfa_language(Regex::Alternative(Box::new(a), Box::new(b)), either, w);
}

/// A row of words that the subset construction of an expression accepts is
/// a row of as many words that the expression matches.
pub proof fn lemma_row_repeats(a: Regex<char>, single: Automaton, n: nat, w: Seq<char>)
    requires
        determinizes(compiled(a), single),
        single.accepts_row(n, w),
    ensures
        a.repeats(n, w),
        n == 0 ==> w.len() == 0,
    decreases n,
{
    if n > 0 {
        let k = choose|k: int|
            0 <= k <= w.len() && single.accepts(#[trigger] w.take(k)) && single.accepts_row(
                (n - 1) as nat,
                w.skip(k),
            );
        lemma_compiled_dfa_language(a, single, w.take(k));
        lemma_row_repeats(a, single, (n - 1) as nat, w.skip(k));
    }
}

/// A word of one symbol or more that is a row of words that an expression
/// matches is a row of words that the subset construction of the expression
/// accepts: the empty words of the row are left out. The result is the
/// number of words that stay.
pub proof fn lemma_repeats_row(a: Regex<char>, single: Automaton, n: nat, w: Seq<char>) -> (rows:
    nat)
    requires
        determinizes(compiled(a), single),
        a.repeats(n, w),
        w.len() > 0,
    ensures
        single.accepts_row(rows, w),
    decreases n,
{
    let k = choose|k: int|
        0 <= k <= w.len() && a.matches(#[trigger] w.take(k)) && a.repeats(
            (n - 1) as nat,
            w.skip(k),
        );
    if k == 0 {
        assert(w.skip(0) =~= w);
        lemma_repeats_row(a, single, (n - 1) as nat, w)
    } else {
        lemma_compiled_dfa_language(a, single, w.take(k));
        if k == w.len() {
            assert(single.accepts_row(0, w.skip(k)));
            1
        } else {
            let rest = lemma_repeats_row(a, single, (n - 1) as nat, w.skip(k));
            rest + 1
        }
    }
}

/// The subset construction of a repetition accepts a word of one symbol or
/// more where the word is a row of words that the subset construction of
/// the operand accepts.
pub proof fn lemma_star(a: Regex<char>, single: Automaton, repeated: Automaton, w: Seq<char>)
    requires
        determinizes(compiled(a), single),
        determinizes(compiled(Regex::Star(Box::new(a))), repeated),
        w.len() > 0,
    ensures
        repeated.accepts(w) <==> exists|n: nat| #[trigger] single.accepts_row(n, w),
{
    lemma_compiled_dfa_language(Regex::Star(Box::new(a)), repeated, w);
    if repeated.accepts(w) {
        let n = choose|n: nat| #[trigger] positive(n) && a.repeats(n, w);
        let rows = lemma_repeats_row(a, single, n, w);
    }
    if exists|n: nat| #[trigger] single.accepts_row(n, w) {
        let n = choose|n: nat| #[trigger] single.accepts_row(n, w);
        lemma_row_repeats(a, single, n, w);
        assert(positive(n) && a.repeats(n, w));
    }
}

} // verus!
