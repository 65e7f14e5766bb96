use crate::re_to_nfa::{BranchLabel, State};
use vstd::prelude::*;

verus! {

/// An automaton as a value: its states by node index, and its transitions by
/// edge index, each a source, a target and a label.
pub struct Automaton {
    pub states: Seq<State>,
    pub edges: Seq<(int, int, BranchLabel<char>)>,
}

/// Why an automaton was not built.
#[derive(Clone, Copy, Debug, PartialEq, Eq, Structural)]
pub enum ConversionError {
    /// The automaton would need more nodes or edges than a graph can index.
    CapacityExceeded,
    /// The automaton to convert does not have exactly one start state.
    InvariantViolation,
}

/// The most nodes, and the most edges, that a graph holds.
pub const CAPACITY: usize = 0xffff_ffff;

impl Automaton {
    /// The automaton with one more node.
    pub open spec fn with_node(self, state: State) -> Automaton {
        Automaton { states: self.states.push(state), edges: self.edges }
    }

    /// The automaton with one more edge.
    pub open spec fn with_edge(self, a: int, b: int, label: BranchLabel<char>) -> Automaton {
        Automaton { states: self.states, edges: self.edges.push((a, b, label)) }
    }

    /// The automaton with the state of node `v` replaced.
    pub open spec fn with_state(self, v: int, state: State) -> Automaton {
        Automaton { states: self.states.update(v, state), edges: self.edges }
    }

    /// `v` is a node.
    pub open spec fn node(self, v: int) -> bool {
        0 <= v < self.states.len()
    }

    /// `e` is an edge between two nodes.
    pub open spec fn edge(self, e: int) -> bool {
        0 <= e < self.edges.len() && self.node(self.edges[e].0) && self.node(self.edges[e].1)
    }

    /// `path`, a sequence of edge indices, leads from node `from` to node `to`.
    pub open spec fn walk(self, from: int, path: Seq<int>, to: int) -> bool
        decreases path.len(),
    {
        if path.len() == 0 {
            from == to && self.node(to)
        } else {
            self.edge(path.last()) && self.edges[path.last()].1 == to && self.walk(
                from,
                path.drop_last(),
                self.edges[path.last()].0,
            )
        }
    }

    /// The symbols along `path`, in order; epsilon moves add nothing.
    pub open spec fn word(self, path: Seq<int>) -> Seq<char>
        decreases path.len(),
    {
        if path.len() == 0 {
            Seq::empty()
        } else {
            match self.edges[path.last()].2 {
                BranchLabel::Literal(c) => self.word(path.drop_last()).push(c),
                BranchLabel::Empty => self.word(path.drop_last()),
            }
        }
    }

    /// Some path from a start state to a final state spells `w`.
    pub open spec fn accepts(self, w: Seq<char>) -> bool {
        exists|s: int, path: Seq<int>, f: int| #[trigger]
            self.walk(s, path, f) && self.node(s) && self.states[s] == State::Start
                && self.states[f] == State::Final && self.word(path) == w
    }

    /// Every edge of `path` carries `label`.
    pub open spec fn uniform(self, path: Seq<int>, label: BranchLabel<char>) -> bool {
        forall|k: int| 0 <= k < path.len() ==> self.edges[#[trigger] path[k]].2 == label
    }

    /// `to` is reached from `from` along edges that all carry `label`: along
    /// any number of epsilon moves, or along at least one edge with a symbol.
    pub open spec fn reaches(self, from: int, label: BranchLabel<char>, to: int) -> bool {
        exists|path: Seq<int>| #[trigger]
            self.walk(from, path, to) && self.uniform(path, label) && (label == BranchLabel::<
                char,
            >::Empty || path.len() > 0)
    }

    /// The nodes reached from a member of `seeds` along edges that carry `label`.
    pub open spec fn closure(self, seeds: Set<int>, label: BranchLabel<char>) -> Set<int> {
        Set::new(|v: int| exists|u: int| seeds.contains(u) && #[trigger] self.reaches(u, label, v))
    }
}

impl Automaton {
    /// The start states.
    pub open spec fn starts(self) -> Set<int> {
        Set::new(|v: int| self.node(v) && self.states[v] == State::Start)
    }

    /// `s` is the one start state.
    pub open spec fn sole_start(self, s: int) -> bool {
        self.node(s) && self.states[s] == State::Start && forall|v: int|
            self.node(v) && #[trigger] self.states[v] == State::Start ==> v == s
    }

    /// Some member of `set` is a final state.
    pub open spec fn has_final(self, set: Set<int>) -> bool {
        exists|v: int| set.contains(v) && self.node(v) && #[trigger] self.states[v] == State::Final
    }

    /// Some edge with the symbol `c` leaves a member of `from`.
    pub open spec fn offers(self, from: Set<int>, c: char) -> bool {
        exists|e: int|
            #[trigger] self.edge(e) && from.contains(self.edges[e].0) && self.edges[e].2
                == BranchLabel::Literal(c)
    }

    /// The targets of the edges with the symbol `c` that leave a member of `from`.
    pub open spec fn step(self, from: Set<int>, c: char) -> Set<int> {
        Set::new(
            |v: int|
                exists|e: int|
                    #[trigger] self.edge(e) && from.contains(self.edges[e].0) && self.edges[e].2
                        == BranchLabel::Literal(c) && self.edges[e].1 == v,
        )
    }

    /// The states in which the automaton can be after `c`, when it was in a
    /// member of `from`.
    pub open spec fn next(self, from: Set<int>, c: char) -> Set<int> {
        self.closure(self.step(from, c), BranchLabel::Empty)
    }

    /// The states in which the automaton can be after `w`.
    pub open spec fn run(self, w: Seq<char>) -> Set<int>
        decreases w.len(),
    {
        if w.len() == 0 {
            self.closure(self.starts(), BranchLabel::Empty)
        } else {
            self.next(self.run(w.drop_last()), w.last())
        }
    }

    /// The automaton can follow `w` symbol by symbol: after each proper
    /// prefix it is in a state that the next symbol leaves.
    pub open spec fn live(self, w: Seq<char>) -> bool
        decreases w.len(),
    {
        w.len() == 0 || (self.live(w.drop_last()) && self.offers(self.run(w.drop_last()), w.last()))
    }

    /// No two edges leave the same node with the same label.
    pub open spec fn deterministic(self) -> bool {
        forall|d: int, e: int|
            0 <= d < e < self.edges.len() ==> !((#[trigger] self.edges[d]).0 == (
            #[trigger] self.edges[e]).0 && self.edges[d].2 == self.edges[e].2)
    }

    /// An edge with the symbol `c` leaves node `a`.
    pub open spec fn has_move(self, a: int, c: char) -> bool {
        exists|e: int|
            0 <= e < self.edges.len() && (#[trigger] self.edges[e]).0 == a && self.edges[e].2
                == BranchLabel::Literal(c)
    }
}

impl Automaton {
    /// Every edge with `label` that leaves `u` ends in `found`.
    pub open spec fn followed(self, label: BranchLabel<char>, u: int, found: Set<int>) -> bool {
        forall|e: int|
            #[trigger] self.edge(e) && self.edges[e].0 == u && self.edges[e].2 == label
                ==> found.contains(self.edges[e].1)
    }

    /// `found` is closed: it holds the target of every edge with `label` that
    /// leaves a seed or one of its members.
    pub open spec fn saturated(
        self,
        seeds: Set<int>,
        label: BranchLabel<char>,
        found: Set<int>,
    ) -> bool {
        forall|u: int|
            self.node(u) && (seeds.contains(u) || found.contains(u)) ==> #[trigger] self.followed(
                label,
                u,
                found,
            )
    }

    /// A walk goes on along one more edge.
    pub proof fn lemma_walk_push(self, from: int, path: Seq<int>, e: int)
        requires
            self.edge(e),
            self.walk(from, path, self.edges[e].0),
        ensures
            self.walk(from, path.push(e), self.edges[e].1),
            self.word(path.push(e)) == match self.edges[e].2 {
                BranchLabel::Literal(c) => self.word(path).push(c),
                BranchLabel::Empty => self.word(path),
            },
    {
        assert(path.push(e).drop_last() =~= path);
    }

    /// Two walks that meet make one, which spells the two words in turn.
    pub proof fn lemma_walk_join(self, from: int, first: Seq<int>, mid: int, second: Seq<int>, to: int)
        requires
            self.walk(from, first, mid),
            self.walk(mid, second, to),
        ensures
            self.walk(from, first + second, to),
            self.word(first + second) == self.word(first) + self.word(second),
        decreases second.len(),
    {
        if second.len() == 0 {
            assert(first + second =~= first);
            assert(self.word(first) + self.word(second) =~= self.word(first));
        } else {
            let e = second.last();
            self.lemma_walk_join(from, first, mid, second.drop_last(), self.edges[e].0);
            assert((first + second).drop_last() =~= first + second.drop_last());
            assert((first + second).last() == e);
            match self.edges[e].2 {
                BranchLabel::Literal(c) => {
                    assert((self.word(first) + self.word(second.drop_last())).push(c)
                        =~= self.word(first) + self.word(second.drop_last()).push(c));
                },
                BranchLabel::Empty => {},
            }
        }
    }

    /// A walk starts at a node.
    pub proof fn lemma_walk_from_node(self, from: int, path: Seq<int>, to: int)
        requires
            self.walk(from, path, to),
        ensures
            self.node(from),
            self.node(to),
        decreases path.len(),
    {
        if path.len() > 0 {
            self.lemma_walk_from_node(from, path.drop_last(), self.edges[path.last()].0);
        }
    }

    /// The target of an edge with `label` that leaves a seed, or a node of the
    /// closure, is in the closure.
    pub proof fn lemma_closure_step(self, seeds: Set<int>, label: BranchLabel<char>, e: int)
        requires
            self.edge(e),
            self.edges[e].2 == label,
            seeds.contains(self.edges[e].0) || self.closure(seeds, label).contains(self.edges[e].0),
        ensures
            self.closure(seeds, label).contains(self.edges[e].1),
    {
        let x = self.edges[e].0;
        let v = self.edges[e].1;
        if self.closure(seeds, label).contains(x) {
            let u = choose|u: int| seeds.contains(u) && #[trigger] self.reaches(u, label, x);
            let path = choose|path: Seq<int>| #[trigger]
                self.walk(u, path, x) && self.uniform(path, label) && (label == BranchLabel::<
                    char,
                >::Empty || path.len() > 0);
            self.lemma_walk_push(u, path, e);
            assert(self.uniform(path.push(e), label));
            assert(self.reaches(u, label, v));
        } else {
            let path = Seq::<int>::empty();
            assert(self.walk(x, path, x));
            self.lemma_walk_push(x, path, e);
            assert(self.uniform(path.push(e), label));
            assert(self.reaches(x, label, v));
        }
    }

    /// A closed set that holds the seeds, where epsilon moves are followed,
    /// holds every node that a walk along `label` reaches from a seed.
    pub proof fn lemma_saturated_holds(
        self,
        seeds: Set<int>,
        label: BranchLabel<char>,
        found: Set<int>,
        u: int,
        path: Seq<int>,
        v: int,
    )
        requires
            self.saturated(seeds, label, found),
            label == BranchLabel::<char>::Empty ==> forall|x: int|
                self.node(x) && seeds.contains(x) ==> found.contains(x),
            seeds.contains(u),
            self.walk(u, path, v),
            self.uniform(path, label),
            label == BranchLabel::<char>::Empty || path.len() > 0,
        ensures
            found.contains(v),
        decreases path.len(),
    {
        if path.len() > 0 {
            let e = path.last();
            let x = self.edges[e].0;
            self.lemma_walk_from_node(u, path.drop_last(), x);
            assert(self.uniform(path.drop_last(), label)) by {
                assert forall|k: int| 0 <= k < path.drop_last().len() implies self.edges[
                    #[trigger] path.drop_last()[k]].2 == label by {
                    assert(path.drop_last()[k] == path[k]);
                }
            }
            if path.len() == 1 {
                assert(self.walk(u, path.drop_last(), x));
                assert(x == u);
            } else {
                self.lemma_saturated_holds(seeds, label, found, u, path.drop_last(), x);
            }
            assert(self.followed(label, x, found));
            assert(self.edge(e));
            assert(self.edges[e].2 == label) by {
                assert(path[path.len() - 1] == e);
            }
        }
    }

    /// The epsilon closure of an epsilon closure adds nothing.
    pub proof fn lemma_closure_idempotent(self, seeds: Set<int>)
        ensures
            self.closure(self.closure(seeds, BranchLabel::Empty), BranchLabel::Empty)
                == self.closure(seeds, BranchLabel::Empty),
    {
        let eps = BranchLabel::<char>::Empty;
        let once = self.closure(seeds, eps);
        let twice = self.closure(once, eps);
        assert forall|v: int| twice.contains(v) implies once.contains(v) by {
            let x = choose|x: int| once.contains(x) && #[trigger] self.reaches(x, eps, v);
            let u = choose|u: int| seeds.contains(u) && #[trigger] self.reaches(u, eps, x);
            let p = choose|p: Seq<int>| #[trigger] self.walk(u, p, x) && self.uniform(p, eps);
            let q = choose|q: Seq<int>| #[trigger] self.walk(x, q, v) && self.uniform(q, eps);
            self.lemma_walk_join(u, p, x, q, v);
            assert(self.uniform(p + q, eps));
            assert(self.reaches(u, eps, v));
        }
        assert forall|v: int| once.contains(v) implies twice.contains(v) by {
            let u = choose|u: int| seeds.contains(u) && #[trigger] self.reaches(u, eps, v);
            let p = choose|p: Seq<int>| #[trigger] self.walk(u, p, v) && self.uniform(p, eps);
            self.lemma_walk_from_node(u, p, v);
            assert(self.walk(v, Seq::<int>::empty(), v));
            assert(self.uniform(Seq::<int>::empty(), eps));
            assert(self.reaches(v, eps, v));
        }
        assert(twice =~= once);
    }
}

} // verus!
