use crate::automaton::{Automaton, ConversionError, CAPACITY};
use crate::graph::{
    add_edge, add_node, clone_graph, edge_count, graph_nodes, hands, is_edge, lemma_out_edges,
    model, new_graph, node_count, node_state, out_edges, shown,
};
use crate::language::lemma_chart_roomy;
use crate::laws::{lemma_compiled_dfa_language, lemma_compiled_shape};
use crate::re_to_nfa::{compiled, fits, BranchLabel, State, NFA};
use crate::regex::Regex;
use crate::state_set::StateSet;
use petgraph::graph::Graph;
use vstd::prelude::*;

verus! {

/// A deterministic automaton.
pub struct DFA {
    pub graph: Graph<State, BranchLabel<char>>,
}

/// The role of the state that stands for `set`, but for the first state.
pub open spec fn tag(nfa: Automaton, set: Set<int>) -> State {
    if nfa.has_final(set) {
        State::Final
    } else {
        State::Standard
    }
}

/// `edge` joins two listed states, carries a symbol that the source's set
/// offers, and ends at the state whose set the symbol leads to.
pub open spec fn faithful(
    nfa: Automaton,
    words: Seq<Seq<char>>,
    edge: (int, int, BranchLabel<char>),
) -> bool {
    &&& 0 <= edge.0 < words.len()
    &&& 0 <= edge.1 < words.len()
    &&& match edge.2 {
        BranchLabel::Literal(c) => nfa.offers(nfa.run(words[edge.0]), c) && nfa.run(words[edge.1])
            == nfa.next(nfa.run(words[edge.0]), c),
        BranchLabel::Empty => false,
    }
}

/// The automaton can follow each of `words`.
pub open spec fn all_live(nfa: Automaton, words: Seq<Seq<char>>) -> bool {
    forall|k: int| 0 <= k < words.len() ==> nfa.live(#[trigger] words[k])
}

/// After no two of `words` the automaton can be in the same states.
pub open spec fn distinct_sets(nfa: Automaton, words: Seq<Seq<char>>) -> bool {
    forall|i: int, j: int|
        0 <= i < j < words.len() ==> nfa.run(#[trigger] words[i]) != nfa.run(#[trigger] words[j])
}

/// Each of `moves` is a word that the automaton can follow and a symbol that
/// it offers after the word, and no two of them have both the same states
/// after the word and the same symbol.
pub open spec fn distinct_moves(nfa: Automaton, moves: Seq<(Seq<char>, char)>) -> bool {
    &&& forall|k: int|
        0 <= k < moves.len() ==> nfa.live((#[trigger] moves[k]).0) && nfa.offers(
            nfa.run(moves[k].0),
            moves[k].1,
        )
    &&& forall|i: int, j: int|
        0 <= i < j < moves.len() ==> !(nfa.run((#[trigger] moves[i]).0) == nfa.run(
            (#[trigger] moves[j]).0,
        ) && moves[i].1 == moves[j].1)
}

/// The subset construction of `nfa` does not fit into a graph: it has more
/// states, or more edges, than `CAPACITY`.
pub open spec fn crowded(nfa: Automaton) -> bool {
    ||| exists|words: Seq<Seq<char>>|
        words.len() > CAPACITY && all_live(nfa, words) && #[trigger] distinct_sets(nfa, words)
    ||| exists|moves: Seq<(Seq<char>, char)>|
        moves.len() > CAPACITY && #[trigger] distinct_moves(nfa, moves)
}

/// `dfa` is the subset construction of `nfa` as far as its first `done`
/// states: state `k` stands for the set of states in which `nfa` can be
/// after `words[k]`. The first state stands for the empty word and is the
/// start state; no two states stand for the same set; every other state is
/// final where its set holds a final state; the edges are faithful; no state
/// has two edges with one symbol; and each of the first `done` states has an
/// edge for every symbol that its set offers.
#[verifier::opaque]
pub open spec fn charted(nfa: Automaton, dfa: Automaton, words: Seq<Seq<char>>, done: int) -> bool {
    &&& words.len() == dfa.states.len()
    &&& words.len() >= 1
    &&& words[0] == Seq::<char>::empty()
    &&& dfa.states[0] == State::Start
    &&& forall|k: int|
        1 <= k < words.len() ==> #[trigger] dfa.states[k] == tag(nfa, nfa.run(words[k]))
    &&& forall|i: int, j: int|
        0 <= i < j < words.len() ==> nfa.run(#[trigger] words[i]) != nfa.run(#[trigger] words[j])
    &&& all_live(nfa, words)
    &&& forall|e: int| 0 <= e < dfa.edges.len() ==> faithful(nfa, words, #[trigger] dfa.edges[e])
    &&& dfa.deterministic()
    &&& forall|a: int, c: char|
        0 <= a < done && nfa.offers(nfa.run(words[a]), c) ==> #[trigger] dfa.has_move(a, c)
}

/// `dfa` is the subset construction of `nfa`: one state for each set of
/// states in which `nfa` can be after some word, the empty set left out.
pub open spec fn determinizes(nfa: Automaton, dfa: Automaton) -> bool {
    exists|words: Seq<Seq<char>>| #[trigger] charted(nfa, dfa, words, dfa.states.len() as int)
}

/// `label` carries one of `symbols`.
pub open spec fn used(symbols: Seq<char>, label: BranchLabel<char>) -> bool {
    match label {
        BranchLabel::Literal(c) => symbols.contains(c),
        BranchLabel::Empty => false,
    }
}

/// A start state alone is a chart of which nothing is done.
pub proof fn lemma_chart_start(nfa: Automaton, dfa: Automaton)
    requires
        dfa.states == seq![State::Start],
        dfa.edges == Seq::<(int, int, BranchLabel<char>)>::empty(),
    ensures
        charted(nfa, dfa, seq![Seq::<char>::empty()], 0),
{
    reveal(charted);
}

/// A chart lists a word for each state, the empty word first, and is
/// deterministic.
pub proof fn lemma_chart_facts(nfa: Automaton, dfa: Automaton, words: Seq<Seq<char>>, done: int)
    requires
        charted(nfa, dfa, words, done),
    ensures
        words.len() == dfa.states.len(),
        words.len() >= 1,
        words[0] == Seq::<char>::empty(),
        dfa.states[0] == State::Start,
        dfa.deterministic(),
        all_live(nfa, words),
        distinct_sets(nfa, words),
{
    reveal(charted);
}

/// In a chart every state but the first is final where its set holds a
/// final state, and a standard state where not.
pub proof fn lemma_chart_tag(
    nfa: Automaton,
    dfa: Automaton,
    words: Seq<Seq<char>>,
    done: int,
    k: int,
)
    requires
        charted(nfa, dfa, words, done),
        1 <= k < words.len(),
    ensures
        dfa.states[k] == tag(nfa, nfa.run(words[k])),
{
    reveal(charted);
}

/// A chart is done for one more state when that state has an edge for
/// every symbol that its set offers.
pub proof fn lemma_chart_done(nfa: Automaton, dfa: Automaton, words: Seq<Seq<char>>, done: int)
    requires
        charted(nfa, dfa, words, done),
        forall|c: char| nfa.offers(nfa.run(words[done]), c) ==> #[trigger] dfa.has_move(done, c),
    ensures
        charted(nfa, dfa, words, done + 1),
{
    reveal(charted);
}

/// A chart stays one when an edge is added for a symbol that the source
/// offers and has no edge for yet, to the state that the symbol leads to.
pub proof fn lemma_chart_edge(
    nfa: Automaton,
    dfa: Automaton,
    words: Seq<Seq<char>>,
    done: int,
    cur: int,
    t: int,
    c: char,
)
    requires
        charted(nfa, dfa, words, done),
        0 <= cur < words.len(),
        0 <= t < words.len(),
        nfa.offers(nfa.run(words[cur]), c),
        nfa.run(words[t]) == nfa.next(nfa.run(words[cur]), c),
        !dfa.has_move(cur, c),
    ensures
        charted(nfa, dfa.with_edge(cur, t, BranchLabel::Literal(c)), words, done),
        dfa.with_edge(cur, t, BranchLabel::Literal(c)).has_move(cur, c),
        forall|a: int, x: char|
            dfa.has_move(a, x) ==> #[trigger] dfa.with_edge(cur, t, BranchLabel::Literal(c)).has_move(
                a,
                x,
            ),
{
    reveal(charted);
    let grown = dfa.with_edge(cur, t, BranchLabel::Literal(c));
    assert(grown.edges[dfa.edges.len() as int] == (cur, t, BranchLabel::Literal(c)));
    assert forall|a: int, x: char| dfa.has_move(a, x) implies #[trigger] grown.has_move(a, x) by {
        let e = choose|e: int|
            0 <= e < dfa.edges.len() && (#[trigger] dfa.edges[e]).0 == a && dfa.edges[e].2
                == BranchLabel::Literal(x);
        assert(grown.edges[e] == dfa.edges[e]);
    }
    assert forall|e: int| 0 <= e < grown.edges.len() implies faithful(
        nfa,
        words,
        #[trigger] grown.edges[e],
    ) by {
        if e < dfa.edges.len() {
            assert(grown.edges[e] == dfa.edges[e]);
        }
    }
    assert(grown.deterministic()) by {
        assert forall|d: int, e: int| 0 <= d < e < grown.edges.len() implies !((
        #[trigger] grown.edges[d]).0 == (#[trigger] grown.edges[e]).0 && grown.edges[d].2
            == grown.edges[e].2) by {
            assert(grown.edges[d] == dfa.edges[d]);
            if e < dfa.edges.len() {
                assert(grown.edges[e] == dfa.edges[e]);
            }
        }
    }
}

/// A chart stays one when a state is added for a set that no state stands for.
pub proof fn lemma_chart_node(
    nfa: Automaton,
    dfa: Automaton,
    words: Seq<Seq<char>>,
    done: int,
    cur: int,
    c: char,
)
    requires
        charted(nfa, dfa, words, done),
        0 <= cur < words.len(),
        done <= words.len(),
        nfa.offers(nfa.run(words[cur]), c),
        forall|k: int|
            0 <= k < words.len() ==> nfa.run(#[trigger] words[k]) != nfa.next(
                nfa.run(words[cur]),
                c,
            ),
    ensures
        nfa.run(words[cur].push(c)) == nfa.next(nfa.run(words[cur]), c),
        charted(
            nfa,
            dfa.with_node(tag(nfa, nfa.next(nfa.run(words[cur]), c))),
            words.push(words[cur].push(c)),
            done,
        ),
        forall|a: int, x: char|
            dfa.has_move(a, x) ==> #[trigger] dfa.with_node(
                tag(nfa, nfa.next(nfa.run(words[cur]), c)),
            ).has_move(a, x),
{
    reveal(charted);
    let word = words[cur].push(c);
    assert(word.drop_last() =~= words[cur]);
    let grown = dfa.with_node(tag(nfa, nfa.next(nfa.run(words[cur]), c)));
    let more = words.push(word);
    assert(nfa.live(word));
    assert forall|k: int| 0 <= k < more.len() implies nfa.live(#[trigger] more[k]) by {
        if k < words.len() {
            assert(more[k] == words[k]);
        }
    }
    assert forall|e: int| 0 <= e < grown.edges.len() implies faithful(
        nfa,
        more,
        #[trigger] grown.edges[e],
    ) by {
        assert(faithful(nfa, words, dfa.edges[e]));
    }
    assert forall|a: int, x: char| 0 <= a < done && nfa.offers(nfa.run(more[a]), x) implies
        #[trigger] grown.has_move(a, x) by {
        assert(more[a] == words[a]);
        assert(dfa.has_move(a, x));
    }
    assert forall|i: int, j: int| 0 <= i < j < more.len() implies nfa.run(#[trigger] more[i])
        != nfa.run(#[trigger] more[j]) by {
        assert(more[i] == words[i]);
        if j < words.len() {
            assert(more[j] == words[j]);
        }
    }
    assert forall|k: int| 1 <= k < more.len() implies #[trigger] grown.states[k] == tag(
        nfa,
        nfa.run(more[k]),
    ) by {
        if k < words.len() {
            assert(more[k] == words[k]);
            assert(grown.states[k] == dfa.states[k]);
        }
    }
}

/// The symbol of a label, or any symbol for an epsilon move.
pub open spec fn symbol_of(label: BranchLabel<char>) -> char {
    match label {
        BranchLabel::Literal(c) => c,
        BranchLabel::Empty => ' ',
    }
}

/// A chart that is full of states, and needs one more, shows that the
/// subset construction does not fit.
pub proof fn lemma_crowded_states(
    nfa: Automaton,
    dfa: Automaton,
    words: Seq<Seq<char>>,
    done: int,
    cur: int,
    c: char,
)
    requires
        charted(nfa, dfa, words, done),
        0 <= cur < words.len(),
        done <= words.len(),
        words.len() >= CAPACITY,
        nfa.offers(nfa.run(words[cur]), c),
        forall|k: int|
            0 <= k < words.len() ==> nfa.run(#[trigger] words[k]) != nfa.next(
                nfa.run(words[cur]),
                c,
            ),
    ensures
        crowded(nfa),
{
    lemma_chart_node(nfa, dfa, words, done, cur, c);
    reveal(charted);
    let more = words.push(words[cur].push(c));
    assert(distinct_sets(nfa, more));
}

/// A chart that is full of edges, and needs one more, shows that the subset
/// construction does not fit.
pub proof fn lemma_crowded_edges(
    nfa: Automaton,
    dfa: Automaton,
    words: Seq<Seq<char>>,
    done: int,
    cur: int,
    c: char,
)
    requires
        charted(nfa, dfa, words, done),
        0 <= cur < words.len(),
        dfa.edges.len() >= CAPACITY,
        nfa.offers(nfa.run(words[cur]), c),
        !dfa.has_move(cur, c),
    ensures
        crowded(nfa),
{
    reveal(charted);
    let n = dfa.edges.len() as int;
    let moves = Seq::new(
        (n + 1) as nat,
        |e: int|
            if e < n {
                (words[dfa.edges[e].0], symbol_of(dfa.edges[e].2))
            } else {
                (words[cur], c)
            },
    );
    assert forall|k: int| 0 <= k < moves.len() implies nfa.live((#[trigger] moves[k]).0)
        && nfa.offers(nfa.run(moves[k].0), moves[k].1) by {
        if k < n {
            assert(faithful(nfa, words, dfa.edges[k]));
        }
    }
    assert forall|i: int, j: int| 0 <= i < j < moves.len() implies !(nfa.run(
        (#[trigger] moves[i]).0,
    ) == nfa.run((#[trigger] moves[j]).0) && moves[i].1 == moves[j].1) by {
        assert(faithful(nfa, words, dfa.edges[i]));
        let a = dfa.edges[i].0;
        if j < n {
            assert(faithful(nfa, words, dfa.edges[j]));
            let b = dfa.edges[j].0;
            if a != b {
                if a < b {
                    assert(nfa.run(words[a]) != nfa.run(words[b]));
                } else {
                    assert(nfa.run(words[b]) != nfa.run(words[a]));
                }
            }
        } else {
            if a != cur {
                if a < cur {
                    assert(nfa.run(words[a]) != nfa.run(words[cur]));
                } else {
                    assert(nfa.run(words[cur]) != nfa.run(words[a]));
                }
            }
        }
    }
    assert(distinct_moves(nfa, moves));
}

/// Whether two labels are the same.
pub fn same_label(a: BranchLabel<char>, b: BranchLabel<char>) -> (same: bool)
    ensures
        same == (a == b),
{
    match a {
        BranchLabel::Literal(x) => match b {
            BranchLabel::Literal(y) => x == y,
            BranchLabel::Empty => false,
        },
        BranchLabel::Empty => match b {
            BranchLabel::Literal(_) => false,
            BranchLabel::Empty => true,
        },
    }
}

/// The states reached from a member of `indices` along edges that carry
/// `label`: along any number of epsilon moves, the members themselves
/// included, or along one or more edges with the same symbol. Each state is
/// taken up once, so a cycle of such edges ends the search like any other path.
pub fn closure(graph: &Graph<State, BranchLabel<char>>, indices: StateSet, label: BranchLabel<char>) -> (set:
    StateSet)
    ensures
        set@ == model(*graph).closure(indices@, label),
        set.bound() == graph_nodes(*graph).len(),
        label == BranchLabel::<char>::Empty ==> model(*graph).closure(set@, label) == set@,
{
    let ghost m = model(*graph);
    let ghost seeds = indices@;
    let n = node_count(graph);
    let unlabelled = same_label(label, BranchLabel::Empty);
    let mut set = StateSet::new(n);
    let mut pending: Vec<usize> = Vec::new();
    let mut i: usize = 0;
    while i < n
        invariant
            i <= n,
            n == m.states.len(),
            set.bound() == n,
            unlabelled == (label == BranchLabel::<char>::Empty),
            seeds == indices@,
            forall|v: int| set@.contains(v) ==> m.closure(seeds, label).contains(v),
            forall|v: int| #[trigger] set@.contains(v) ==> 0 <= v < i && seeds.contains(v),
            forall|k: int|
                0 <= k < pending@.len() ==> (#[trigger] pending@[k]) < n && seeds.contains(
                    pending@[k] as int,
                ),
            forall|u: int|
                0 <= u < i && seeds.contains(u) ==> pending@.contains(u as usize) && (unlabelled
                    ==> set@.contains(u)),
        decreases n - i,
    {
        if indices.contains(i) {
            if unlabelled {
                proof {
                    assert(m.walk(i as int, Seq::<int>::empty(), i as int));
                    assert(m.uniform(Seq::<int>::empty(), label));
                    assert(m.reaches(i as int, label, i as int));
                }
                set.insert(i);
            }
            let ghost before = pending@;
            pending.push(i);
            proof {
                assert(pending@[before.len() as int] == i);
                assert forall|u: int| 0 <= u < i + 1 && seeds.contains(u) implies pending@.contains(
                    u as usize,
                ) by {
                    if u < i {
                        let k = choose|k: int| 0 <= k < before.len() && before[k] == u as usize;
                        assert(pending@[k] == u as usize);
                    }
                }
            }
        }
        i += 1;
    }
    while pending.len() > 0
        invariant
            n == m.states.len(),
            m == model(*graph),
            set.bound() == n,
            seeds == indices@,
            forall|v: int| set@.contains(v) ==> m.closure(seeds, label).contains(v),
            forall|k: int|
                0 <= k < pending@.len() ==> (#[trigger] pending@[k]) < n && (seeds.contains(
                    pending@[k] as int,
                ) || set@.contains(pending@[k] as int)),
            forall|u: int|
                0 <= u < n && (seeds.contains(u) || set@.contains(u)) ==> pending@.contains(
                    u as usize,
                ) || #[trigger] m.followed(label, u, set@),
            label == BranchLabel::<char>::Empty ==> forall|u: int|
                0 <= u < n && seeds.contains(u) ==> set@.contains(u),
        decreases 2 * set.vacant() + pending@.len(),
    {
        let ghost before = pending@;
        let ghost budget = 2 * set.vacant() + pending@.len();
        let u = pending.pop().unwrap();
        let out = out_edges(graph, u);
        let ghost leaving = shown(out@);
        proof {
            lemma_out_edges(m.edges, u as int, out@);
        }
        proof {
            assert(before[before.len() - 1] == u);
            assert forall|x: int|
                0 <= x < n && x != u && (seeds.contains(x) || set@.contains(x))
                    implies pending@.contains(x as usize) || #[trigger] m.followed(
                    label,
                    x,
                    set@,
                ) by {
                if before.contains(x as usize) {
                    let j = choose|j: int| 0 <= j < before.len() && before[j] == x as usize;
                    assert(pending@[j] == x as usize);
                }
            }
        }
        let mut k: usize = 0;
        while k < out.len()
            invariant
                k <= out@.len(),
                n == m.states.len(),
                m == model(*graph),
                u < n,
                set.bound() == n,
                seeds == indices@,
                seeds.contains(u as int) || set@.contains(u as int),
                hands(m.edges, u as int, leaving),
                out@.len() == leaving.len(),
                forall|j: int|
                    0 <= j < out@.len() ==> (#[trigger] out@[j]).0 == leaving[j].0 && out@[j].1
                        == leaving[j].1,
                forall|v: int| set@.contains(v) ==> m.closure(seeds, label).contains(v),
                forall|j: int|
                    0 <= j < pending@.len() ==> (#[trigger] pending@[j]) < n && (seeds.contains(
                        pending@[j] as int,
                    ) || set@.contains(pending@[j] as int)),
                forall|x: int|
                    0 <= x < n && x != u && (seeds.contains(x) || set@.contains(x))
                        ==> pending@.contains(x as usize) || #[trigger] m.followed(label, x, set@),
                forall|j: int|
                    0 <= j < k && leaving[j].1 == label && 0 <= leaving[j].0 < n ==> set@.contains(
                        #[trigger] leaving[j].0,
                    ),
                label == BranchLabel::<char>::Empty ==> forall|x: int|
                    0 <= x < n && seeds.contains(x) ==> set@.contains(x),
                2 * set.vacant() + pending@.len() < budget,
            decreases out@.len() - k,
        {
            let target = out[k].0;
            let ghost was = set@;
            let ghost queued = pending@;
            if same_label(out[k].1, label) && target < n {
                proof {
                    assert(is_edge(m.edges, u as int, leaving[k as int]));
                    let e = choose|e: int|
                        0 <= e < m.edges.len() && #[trigger] m.edges[e] == (
                            u as int,
                            leaving[k as int].0,
                            leaving[k as int].1,
                        );
                    assert(m.edge(e));
                    m.lemma_closure_step(seeds, label, e);
                }
                let grew = set.insert(target);
                if grew {
                    pending.push(target);
                    proof {
                        assert(pending@[queued.len() as int] == target);
                    }
                }
            }
            proof {
                assert forall|x: int|
                    0 <= x < n && x != u && (seeds.contains(x) || set@.contains(x))
                        implies pending@.contains(x as usize) || #[trigger] m.followed(
                        label,
                        x,
                        set@,
                    ) by {
                    if seeds.contains(x) || was.contains(x) {
                        if queued.contains(x as usize) {
                            let j = choose|j: int| 0 <= j < queued.len() && queued[j] == x as usize;
                            assert(pending@[j] == x as usize);
                        } else {
                            assert(m.followed(label, x, was));
                        }
                    }
                }
            }
            k += 1;
        }
        proof {
            assert(m.followed(label, u as int, set@)) by {
                assert forall|e: int|
                    #[trigger] m.edge(e) && m.edges[e].0 == u && m.edges[e].2 == label
                        implies set@.contains(m.edges[e].1) by {
                    assert(leaving.contains((m.edges[e].1, m.edges[e].2)));
                    let j = choose|j: int|
                        0 <= j < leaving.len() && #[trigger] leaving[j] == (
                            m.edges[e].1,
                            m.edges[e].2,
                        );
                    assert(set@.contains(leaving[j].0));
                }
            }
        }
    }
    proof {
        assert(m.saturated(seeds, label, set@)) by {
            assert forall|u: int|
                m.node(u) && (seeds.contains(u) || set@.contains(u)) implies #[trigger] m.followed(
                label,
                u,
                set@,
            ) by {
                assert(!pending@.contains(u as usize));
            }
        }
        assert forall|v: int| m.closure(seeds, label).contains(v) implies set@.contains(v) by {
            let u = choose|u: int| seeds.contains(u) && #[trigger] m.reaches(u, label, v);
            let path = choose|path: Seq<int>| #[trigger]
                m.walk(u, path, v) && m.uniform(path, label) && (label == BranchLabel::<
                    char,
                >::Empty || path.len() > 0);
            m.lemma_saturated_holds(seeds, label, set@, u, path, v);
        }
        assert(set@ =~= m.closure(seeds, label));
        if label == BranchLabel::<char>::Empty {
            m.lemma_closure_idempotent(seeds);
        }
    }
    set
}

/// Whether `c` is among `symbols`.
pub fn has_symbol(symbols: &Vec<char>, c: char) -> (found: bool)
    ensures
        found == symbols@.contains(c),
{
    let mut i: usize = 0;
    while i < symbols.len()
        invariant
            i <= symbols@.len(),
            forall|k: int| 0 <= k < i ==> symbols@[k] != c,
        decreases symbols@.len() - i,
    {
        if symbols[i] == c {
            return true;
        }
        i += 1;
    }
    false
}

/// The one start state of the automaton, where it has exactly one.
pub fn start_state(graph: &Graph<State, BranchLabel<char>>) -> (start: Option<usize>)
    ensures
        start matches Some(s) ==> model(*graph).sole_start(s as int),
        start is None ==> forall|s: int| !model(*graph).sole_start(s),
{
    let ghost m = model(*graph);
    let n = node_count(graph);
    let mut start: Option<usize> = None;
    let mut i: usize = 0;
    while i < n
        invariant
            i <= n,
            n == m.states.len(),
            m == model(*graph),
            start matches Some(s) ==> s < i && m.states[s as int] == State::Start && forall|v: int|
                0 <= v < i && #[trigger] m.states[v] == State::Start ==> v == s,
            start is None ==> forall|v: int| 0 <= v < i ==> #[trigger] m.states[v] != State::Start,
        decreases n - i,
    {
        if node_state(graph, i) == State::Start {
            if start.is_some() {
                proof {
                    let s = start.unwrap();
                    assert forall|x: int| !m.sole_start(x) by {
                        if m.sole_start(x) {
                            assert(m.states[s as int] == State::Start);
                            assert(m.states[i as int] == State::Start);
                        }
                    }
                }
                return None;
            }
            start = Some(i);
        }
        i += 1;
    }
    proof {
        if start is None {
            assert forall|x: int| !m.sole_start(x) by {
                if m.sole_start(x) {
                    assert(m.states[x] == State::Start);
                }
            }
        }
    }
    start
}

/// Whether a member of `set` is a final state.
pub fn accepting(graph: &Graph<State, BranchLabel<char>>, set: &StateSet) -> (found: bool)
    ensures
        found == model(*graph).has_final(set@),
{
    let ghost m = model(*graph);
    let n = node_count(graph);
    let mut i: usize = 0;
    while i < n
        invariant
            i <= n,
            n == m.states.len(),
            m == model(*graph),
            forall|v: int| 0 <= v < i && set@.contains(v) ==> #[trigger] m.states[v] != State::Final,
        decreases n - i,
    {
        if set.contains(i) && node_state(graph, i) == State::Final {
            assert(m.states[i as int] == State::Final);
            return true;
        }
        i += 1;
    }
    false
}

/// The first of `sets` that has the members of `set`.
pub fn position(sets: &Vec<StateSet>, set: &StateSet) -> (found: Option<usize>)
    ensures
        found matches Some(i) ==> i < sets@.len() && sets@[i as int]@ == set@ && forall|k: int|
            0 <= k < i ==> (#[trigger] sets@[k])@ != set@,
        found is None ==> forall|i: int| 0 <= i < sets@.len() ==> (#[trigger] sets@[i])@ != set@,
{
    let mut i: usize = 0;
    while i < sets.len()
        invariant
            i <= sets@.len(),
            forall|k: int| 0 <= k < i ==> (#[trigger] sets@[k])@ != set@,
        decreases sets@.len() - i,
    {
        if sets[i].equals(set) {
            return Some(i);
        }
        i += 1;
    }
    None
}

/// `label` is an epsilon move, or its symbol is among `symbols`.
pub open spec fn listed(symbols: Seq<char>, label: BranchLabel<char>) -> bool {
    match label {
        BranchLabel::Literal(c) => symbols.contains(c),
        BranchLabel::Empty => true,
    }
}

/// The symbols on the edges that leave a member of `set`, each once.
pub fn alphabet(graph: &Graph<State, BranchLabel<char>>, set: &StateSet) -> (symbols: Vec<char>)
    ensures
        symbols@.no_duplicates(),
        forall|c: char| symbols@.contains(c) <==> model(*graph).offers(set@, c),
{
    let ghost m = model(*graph);
    let n = node_count(graph);
    let mut symbols: Vec<char> = Vec::new();
    let mut i: usize = 0;
    while i < n
        invariant
            i <= n,
            n == m.states.len(),
            m == model(*graph),
            symbols@.no_duplicates(),
            forall|c: char| symbols@.contains(c) ==> m.offers(set@, c),
            forall|e: int|
                #[trigger] m.edge(e) && set@.contains(m.edges[e].0) && m.edges[e].0 < i ==> listed(
                    symbols@,
                    m.edges[e].2,
                ),
        decreases n - i,
    {
        if set.contains(i) {
            let out = out_edges(graph, i);
            let ghost leaving = shown(out@);
            proof {
                lemma_out_edges(m.edges, i as int, out@);
            }
            let mut k: usize = 0;
            while k < out.len()
                invariant
                    k <= out@.len(),
                    i < n,
                    n == m.states.len(),
                    m == model(*graph),
                    set@.contains(i as int),
                    hands(m.edges, i as int, leaving),
                    out@.len() == leaving.len(),
                    forall|j: int|
                        0 <= j < out@.len() ==> (#[trigger] out@[j]).0 == leaving[j].0
                            && out@[j].1 == leaving[j].1,
                    symbols@.no_duplicates(),
                    forall|c: char| symbols@.contains(c) ==> m.offers(set@, c),
                    forall|e: int|
                        #[trigger] m.edge(e) && set@.contains(m.edges[e].0) && m.edges[e].0 < i
                            ==> listed(symbols@, m.edges[e].2),
                    forall|j: int|
                        0 <= j < k && 0 <= (#[trigger] leaving[j]).0 < n ==> listed(
                            symbols@,
                            leaving[j].1,
                        ),
                decreases out@.len() - k,
            {
                let ghost before = symbols@;
                if out[k].0 < n {
                    if let BranchLabel::Literal(c) = out[k].1 {
                        if !has_symbol(&symbols, c) {
                            proof {
                                assert(is_edge(m.edges, i as int, leaving[k as int]));
                                let e = choose|e: int|
                                    0 <= e < m.edges.len() && #[trigger] m.edges[e] == (
                                        i as int,
                                        leaving[k as int].0,
                                        leaving[k as int].1,
                                    );
                                assert(m.edge(e));
                                assert(m.offers(set@, c));
                            }
                            symbols.push(c);
                            proof {
                                assert(symbols@[before.len() as int] == c);
                            }
                        }
                    }
                }
                proof {
                    assert forall|x: char| before.contains(x) implies symbols@.contains(x) by {
                        let j = choose|j: int| 0 <= j < before.len() && before[j] == x;
                        assert(symbols@[j] == x);
                    }
                    assert forall|x: char| symbols@.contains(x) implies m.offers(set@, x) by {
                        let j = choose|j: int| 0 <= j < symbols@.len() && symbols@[j] == x;
                        if j < before.len() {
                            assert(before[j] == x);
                            assert(before.contains(x));
                        }
                    }
                }
                k += 1;
            }
            proof {
                assert forall|e: int|
                    #[trigger] m.edge(e) && set@.contains(m.edges[e].0) && m.edges[e].0 < i
                        + 1 implies listed(symbols@, m.edges[e].2) by {
                    if m.edges[e].0 == i {
                        assert(leaving.contains((m.edges[e].1, m.edges[e].2)));
                        let j = choose|j: int|
                            0 <= j < leaving.len() && #[trigger] leaving[j] == (
                                m.edges[e].1,
                                m.edges[e].2,
                            );
                        assert(listed(symbols@, leaving[j].1));
                    }
                }
            }
        }
        i += 1;
    }
    proof {
        assert forall|c: char| m.offers(set@, c) implies symbols@.contains(c) by {
            let e = choose|e: int|
                #[trigger] m.edge(e) && set@.contains(m.edges[e].0) && m.edges[e].2
                    == BranchLabel::Literal(c);
            assert(m.edges[e].2 == BranchLabel::Literal(c));
        }
    }
    symbols
}

/// The targets of the edges with the symbol `c` that leave a member of `set`.
pub fn step(graph: &Graph<State, BranchLabel<char>>, set: &StateSet, c: char) -> (targets: StateSet)
    ensures
        targets@ == model(*graph).step(set@, c),
        targets.bound() == graph_nodes(*graph).len(),
{
    let ghost m = model(*graph);
    let n = node_count(graph);
    let mut targets = StateSet::new(n);
    let mut i: usize = 0;
    while i < n
        invariant
            i <= n,
            n == m.states.len(),
            m == model(*graph),
            targets.bound() == n,
            forall|v: int| targets@.contains(v) ==> m.step(set@, c).contains(v),
            forall|e: int|
                #[trigger] m.edge(e) && set@.contains(m.edges[e].0) && m.edges[e].0 < i
                    && m.edges[e].2 == BranchLabel::Literal(c) ==> targets@.contains(m.edges[e].1),
        decreases n - i,
    {
        if set.contains(i) {
            let out = out_edges(graph, i);
            let ghost leaving = shown(out@);
            proof {
                lemma_out_edges(m.edges, i as int, out@);
            }
            let mut k: usize = 0;
            while k < out.len()
                invariant
                    k <= out@.len(),
                    i < n,
                    n == m.states.len(),
                    m == model(*graph),
                    targets.bound() == n,
                    set@.contains(i as int),
                    hands(m.edges, i as int, leaving),
                    out@.len() == leaving.len(),
                    forall|j: int|
                        0 <= j < out@.len() ==> (#[trigger] out@[j]).0 == leaving[j].0
                            && out@[j].1 == leaving[j].1,
                    forall|v: int| targets@.contains(v) ==> m.step(set@, c).contains(v),
                    forall|e: int|
                        #[trigger] m.edge(e) && set@.contains(m.edges[e].0) && m.edges[e].0 < i
                            && m.edges[e].2 == BranchLabel::Literal(c) ==> targets@.contains(
                            m.edges[e].1,
                        ),
                    forall|j: int|
                        0 <= j < k && 0 <= leaving[j].0 < n && (#[trigger] leaving[j]).1
                            == BranchLabel::Literal(c) ==> targets@.contains(leaving[j].0),
                decreases out@.len() - k,
            {
                if out[k].0 < n && same_label(out[k].1, BranchLabel::Literal(c)) {
                    proof {
                        assert(is_edge(m.edges, i as int, leaving[k as int]));
                        let e = choose|e: int|
                            0 <= e < m.edges.len() && #[trigger] m.edges[e] == (
                                i as int,
                                leaving[k as int].0,
                                leaving[k as int].1,
                            );
                        assert(m.edge(e));
                        assert(m.step(set@, c).contains(leaving[k as int].0));
                    }
                    targets.insert(out[k].0);
                }
                k += 1;
            }
            proof {
                assert forall|e: int|
                    #[trigger] m.edge(e) && set@.contains(m.edges[e].0) && m.edges[e].0 < i + 1
                        && m.edges[e].2 == BranchLabel::Literal(c) implies targets@.contains(
                    m.edges[e].1,
                ) by {
                    if m.edges[e].0 == i {
                        assert(leaving.contains((m.edges[e].1, m.edges[e].2)));
                        let j = choose|j: int|
                            0 <= j < leaving.len() && #[trigger] leaving[j] == (
                                m.edges[e].1,
                                m.edges[e].2,
                            );
                    }
                }
            }
        }
        i += 1;
    }
    proof {
        assert(targets@ =~= m.step(set@, c));
    }
    targets
}

impl NFA {
    /// The deterministic automaton of this one.
    pub fn to_dfa(&self) -> (r: Result<DFA, ConversionError>)
        ensures
            r is Ok <==> (exists|s: int| model(self.graph).sole_start(s)) && !crowded(
                model(self.graph),
            ),
            r matches Ok(dfa) ==> determinizes(model(self.graph), model(dfa.graph)) && model(
                dfa.graph,
            ).deterministic(),
            (r matches Err(e) && e == ConversionError::InvariantViolation) <==> forall|s: int|
                !model(self.graph).sole_start(s),
            (r matches Err(e) && e == ConversionError::CapacityExceeded) <==> (exists|s: int|
                model(self.graph).sole_start(s)) && crowded(model(self.graph)),
    {
        let copy = clone_graph(&self.graph);
        assert(model(copy) == model(self.graph));
        match converter(copy) {
            Ok(graph) => Ok(DFA { graph }),
            Err(e) => Err(e),
        }
    }
}

impl Regex<char> {
    /// The deterministic automaton of the expression: its automaton, made
    /// deterministic. It accepts the words of one symbol or more that the
    /// expression matches.
    pub fn to_dfa(&self) -> (r: Result<DFA, ConversionError>)
        ensures
            r is Ok <==> fits(*self) && !crowded(compiled(*self)),
            r matches Ok(dfa) ==> determinizes(compiled(*self), model(dfa.graph)) && model(
                dfa.graph,
            ).deterministic() && forall|w: Seq<char>|
                #[trigger] model(dfa.graph).accepts(w) <==> w.len() > 0 && self.matches(w),
            r matches Err(e) ==> e == ConversionError::CapacityExceeded,
    {
        proof {
            lemma_compiled_shape(*self);
        }
        let nfa = match self.to_nfa() {
            Ok(nfa) => nfa,
            Err(e) => {
                return Err(e);
            },
        };
        match nfa.to_dfa() {
            Ok(dfa) => {
                proof {
                    assert forall|w: Seq<char>| #[trigger]
                        model(dfa.graph).accepts(w) <==> w.len() > 0 && self.matches(w) by {
                        lemma_compiled_dfa_language(*self, model(dfa.graph), w);
                    }
                }
                Ok(dfa)
            },
            Err(e) => {
                proof {
                    assert(compiled(*self).sole_start(0));
                }
                Err(e)
            },
        }
    }
}

/// Builds the deterministic automaton of `nfa` by the subset construction.
///
/// The first state stands for the states that `nfa` reaches from its start
/// state by epsilon moves. A state gets one edge for each symbol that leaves
/// a member of its set, to the state that stands for the members' targets
/// and what they reach by epsilon moves; that state is added where no state
/// stands for the set yet, final where the set holds a final state.
///
/// An automaton without exactly one start state is refused.
pub fn converter(nfa: Graph<State, BranchLabel<char>>) -> (r: Result<
    Graph<State, BranchLabel<char>>,
    ConversionError,
>)
    ensures
        r is Ok <==> (exists|s: int| model(nfa).sole_start(s)) && !crowded(model(nfa)),
        r matches Ok(dfa) ==> determinizes(model(nfa), model(dfa)) && model(dfa).deterministic(),
        (r matches Err(e) && e == ConversionError::InvariantViolation) <==> forall|s: int|
            !model(nfa).sole_start(s),
        (r matches Err(e) && e == ConversionError::CapacityExceeded) <==> (exists|s: int|
            model(nfa).sole_start(s)) && crowded(model(nfa)),
{
    let ghost m = model(nfa);
    let start = match start_state(&nfa) {
        Some(s) => s,
        None => {
            return Err(ConversionError::InvariantViolation);
        },
    };
    let n = node_count(&nfa);
    let mut seed = StateSet::new(n);
    seed.insert(start);
    proof {
        assert(seed@ =~= m.starts());
    }
    let start_set = closure(&nfa, seed, BranchLabel::Empty);
    let mut dfa = new_graph();
    add_node(&mut dfa, State::Start);
    let mut sets: Vec<StateSet> = Vec::new();
    sets.push(start_set);
    let ghost mut words: Seq<Seq<char>> = seq![Seq::<char>::empty()];
    let mut next: usize = 0;
    proof {
        lemma_chart_start(m, model(dfa));
    }
    while next < sets.len()
        invariant
            m == model(nfa),
            m.sole_start(start as int),
            next <= sets@.len() <= CAPACITY,
            sets@.len() == words.len(),
            forall|k: int| 0 <= k < sets@.len() ==> (#[trigger] sets@[k])@ == m.run(words[k]),
            charted(m, model(dfa), words, next as int),
            model(dfa).states.len() == words.len(),
            model(dfa).edges.len() <= CAPACITY,
            forall|e: int|
                0 <= e < model(dfa).edges.len() ==> (#[trigger] model(dfa).edges[e]).0 < next,
        decreases 2 * CAPACITY - sets@.len() - next,
    {
        let symbols = alphabet(&nfa, &sets[next]);
        let ghost known = sets@.len();
        let mut j: usize = 0;
        while j < symbols.len()
            invariant
                m == model(nfa),
                known <= sets@.len(),
                m.sole_start(start as int),
                j <= symbols@.len(),
                next < sets@.len() <= CAPACITY,
                sets@.len() == words.len(),
                symbols@.no_duplicates(),
                model(dfa).states.len() == words.len(),
                model(dfa).edges.len() <= CAPACITY,
                forall|c: char| symbols@.contains(c) <==> m.offers(m.run(words[next as int]), c),
                forall|k: int| 0 <= k < sets@.len() ==> (#[trigger] sets@[k])@ == m.run(words[k]),
                charted(m, model(dfa), words, next as int),
                forall|e: int|
                    0 <= e < model(dfa).edges.len() ==> (#[trigger] model(dfa).edges[e]).0 < next
                        || (model(dfa).edges[e].0 == next && used(
                        symbols@.take(j as int),
                        model(dfa).edges[e].2,
                    )),
                forall|i: int| 0 <= i < j ==> model(dfa).has_move(next as int, #[trigger] symbols@[i]),
            decreases symbols@.len() - j,
        {
            let c = symbols[j];
            let ghost old_dfa = model(dfa);
            let ghost old_words = words;
            let moved = step(&nfa, &sets[next], c);
            let target = closure(&nfa, moved, BranchLabel::Empty);
            proof {
                assert(symbols@.contains(c));
                assert(!old_dfa.has_move(next as int, c)) by {
                    if old_dfa.has_move(next as int, c) {
                        let e = choose|e: int|
                            0 <= e < old_dfa.edges.len() && (#[trigger] old_dfa.edges[e]).0 == next
                                && old_dfa.edges[e].2 == BranchLabel::Literal(c);
                        assert(symbols@.take(j as int).contains(c));
                        let i = choose|i: int|
                            0 <= i < symbols@.take(j as int).len() && symbols@.take(j as int)[i]
                                == c;
                        assert(symbols@[i] == c && symbols@[j as int] == c);
                    }
                }
            }
            let found = position(&sets, &target);
            let to = match found {
                Some(t) => t,
                None => {
                    if node_count(&dfa) >= CAPACITY {
                        proof {
                            assert forall|k: int| 0 <= k < words.len() implies m.run(
                                #[trigger] words[k],
                            ) != m.next(m.run(words[next as int]), c) by {
                                assert(sets@[k]@ != target@);
                            }
                            lemma_crowded_states(m, old_dfa, words, next as int, next as int, c);
                        }
                        return Err(ConversionError::CapacityExceeded);
                    }
                    let state = if accepting(&nfa, &target) {
                        State::Final
                    } else {
                        State::Standard
                    };
                    proof {
                        assert forall|k: int| 0 <= k < words.len() implies m.run(
                            #[trigger] words[k],
                        ) != m.next(m.run(words[next as int]), c) by {
                            assert(sets@[k]@ != target@);
                        }
                        lemma_chart_node(m, old_dfa, words, next as int, next as int, c);
                        words = words.push(words[next as int].push(c));
                    }
                    sets.push(target);
                    add_node(&mut dfa, state)
                },
            };
            if edge_count(&dfa) >= CAPACITY {
                proof {
                    assert forall|a: int, x: char| model(dfa).has_move(a, x) implies old_dfa.has_move(
                        a,
                        x,
                    ) by {
                        let e = choose|e: int|
                            0 <= e < model(dfa).edges.len() && (#[trigger] model(dfa).edges[e]).0
                                == a && model(dfa).edges[e].2 == BranchLabel::Literal(x);
                        assert(old_dfa.edges[e] == model(dfa).edges[e]);
                    }
                    lemma_crowded_edges(m, model(dfa), words, next as int, next as int, c);
                }
                return Err(ConversionError::CapacityExceeded);
            }
            proof {
                lemma_chart_edge(m, model(dfa), words, next as int, next as int, to as int, c);
            }
            let ghost mid_dfa = model(dfa);
            add_edge(&mut dfa, next, to, BranchLabel::Literal(c));
            proof {
                assert(model(dfa) == mid_dfa.with_edge(next as int, to as int, BranchLabel::Literal(c)));
                assert(symbols@.take(j + 1) =~= symbols@.take(j as int).push(c));
                assert forall|e: int| 0 <= e < model(dfa).edges.len() implies (
                #[trigger] model(dfa).edges[e]).0 < next || (model(dfa).edges[e].0 == next && used(
                    symbols@.take(j + 1),
                    model(dfa).edges[e].2,
                )) by {
                    if e < old_dfa.edges.len() {
                        assert(model(dfa).edges[e] == old_dfa.edges[e]);
                        if old_dfa.edges[e].0 == next {
                            if let BranchLabel::Literal(x) = old_dfa.edges[e].2 {
                                let i = choose|i: int|
                                    0 <= i < symbols@.take(j as int).len() && symbols@.take(
                                        j as int,
                                    )[i] == x;
                                assert(symbols@.take(j + 1)[i] == x);
                            }
                        }
                    } else {
                        assert(symbols@.take(j + 1)[j as int] == c);
                    }
                }
                assert forall|i: int| 0 <= i < j + 1 implies model(dfa).has_move(
                    next as int,
                    #[trigger] symbols@[i],
                ) by {
                    if i < j {
                        assert(old_dfa.has_move(next as int, symbols@[i]));
                        assert(mid_dfa.has_move(next as int, symbols@[i]));
                    }
                }
            }
            j += 1;
        }
        proof {
            assert forall|c: char| m.offers(m.run(words[next as int]), c) implies #[trigger] model(
                dfa,
            ).has_move(next as int, c) by {
                assert(symbols@.contains(c));
                let i = choose|i: int| 0 <= i < symbols@.len() && symbols@[i] == c;
                assert(model(dfa).has_move(next as int, symbols@[i]));
            }
            lemma_chart_done(m, model(dfa), words, next as int);
        }
        next += 1;
    }
    proof {
        lemma_chart_facts(m, model(dfa), words, next as int);
        lemma_chart_roomy(m, model(dfa), words);
    }
    Ok(dfa)
}

} // verus!
