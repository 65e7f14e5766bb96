use crate::automaton::{Automaton, ConversionError, CAPACITY};
use crate::fragments::structured;
use crate::graph::{
    add_edge, add_node, graph_edges, graph_nodes, model, new_graph, set_node_state,
};
use crate::laws::lemma_compiled_shape;
use crate::regex::{push_char, Regex};
use petgraph::graph::Graph;
use vstd::prelude::*;

verus! {

/// The role of an automaton state.
#[derive(Clone, Copy, Debug, PartialEq, Eq, Structural)]
pub enum State {
    Start,
    Standard,
    Final,
}

/// The label of a transition: one symbol, or nothing (an epsilon move).
#[derive(Clone, Copy, Debug, PartialEq, Eq, Hash)]
pub enum BranchLabel<T> {
    Literal(T),
    Empty,
}

impl State {
    /// How a state is shown: by its role, a standard state by nothing.
    pub open spec fn text(self) -> Seq<char> {
        match self {
            State::Start => "Start"@,
            State::Standard => ""@,
            State::Final => "Final"@,
        }
    }

    /// The state as text.
    pub fn label(&self) -> (s: &'static str)
        ensures
            s@ == self.text(),
    {
        match self {
            State::Start => "Start",
            State::Standard => "",
            State::Final => "Final",
        }
    }
}

/// How a symbol is shown for inspection: in quotes, with escapes where needed.
pub uninterp spec fn debug_text(c: char) -> Seq<char>;

/// `Debug` of `char`, through `format!`: the symbol as shown for inspection.
#[verifier::external_body]
fn symbol_debug(c: char) -> (s: String)
    ensures
        s@ == debug_text(c),
{
    format!("{:?}", c)
}

impl BranchLabel<char> {
    /// How a label is shown: a symbol as for inspection, an epsilon move by
    /// the letter epsilon.
    pub open spec fn text(self) -> Seq<char> {
        match self {
            BranchLabel::Literal(c) => debug_text(c),
            BranchLabel::Empty => seq!['\u{3b5}'],
        }
    }

    /// The label as text.
    pub fn label(&self) -> (s: String)
        ensures
            s@ == self.text(),
    {
        match self {
            BranchLabel::Literal(c) => symbol_debug(*c),
            BranchLabel::Empty => {
                let mut s = String::new();
                push_char(&mut s, '\u{3b5}');
                assert(s@ =~= seq!['\u{3b5}']);
                s
            },
        }
    }
}

/// A nondeterministic automaton with epsilon moves.
pub struct NFA {
    pub graph: Graph<State, BranchLabel<char>>,
}

/// The automaton `m` with the fragment for `expression` added at the state
/// `entry`, and the state at which the fragment ends. Every state that a
/// fragment adds is new.
///
/// A symbol and the empty expression add one state and the edge to it. A
/// concatenation starts its second operand where the first one ends. An
/// alternative adds a state to end at, starts both operands at `entry` and
/// joins each end to the new state by an epsilon move. A repetition adds a
/// state to come back to, reached from `entry` by an epsilon move; it starts
/// its operand there and joins the operand's end back to that state; it ends
/// where the operand ends.
pub open spec fn fragment(m: Automaton, entry: int, expression: Regex<char>) -> (Automaton, int)
    decreases expression,
{
    let fresh = m.states.len() as int;
    match expression {
        Regex::Literal(s) => (
            m.with_node(State::Standard).with_edge(entry, fresh, BranchLabel::Literal(s)),
            fresh,
        ),
        Regex::Empty => (
            m.with_node(State::Standard).with_edge(entry, fresh, BranchLabel::Empty),
            fresh,
        ),
        Regex::Concatenation(a, b) => {
            let (first, mid) = fragment(m, entry, *a);
            fragment(first, mid, *b)
        },
        Regex::Alternative(a, b) => {
            let (left, end_a) = fragment(m.with_node(State::Standard), entry, *a);
            let (right, end_b) = fragment(
                left.with_edge(end_a, fresh, BranchLabel::Empty),
                entry,
                *b,
            );
            (right.with_edge(end_b, fresh, BranchLabel::Empty), fresh)
        },
        Regex::Star(a) => {
            let (inner, end) = fragment(
                m.with_node(State::Standard).with_edge(entry, fresh, BranchLabel::Empty),
                fresh,
                *a,
            );
            (inner.with_edge(end, fresh, BranchLabel::Empty), end)
        },
    }
}

/// The automaton of `expression`: a start state, the fragment for the
/// expression added at it, and the state where the fragment ends made final.
pub open spec fn compiled(expression: Regex<char>) -> Automaton {
    let base = Automaton { states: seq![State::Start], edges: Seq::empty() };
    let (built, end) = fragment(base, 0, expression);
    built.with_state(end, State::Final)
}

/// A fragment adds as many states and transitions as its expression counts,
/// keeps what was there, and ends at one of the states that it added.
pub proof fn lemma_fragment_extends(m: Automaton, entry: int, expression: Regex<char>)
    ensures
        fragment(m, entry, expression).0.states.len() == m.states.len() + expression.states(),
        fragment(m, entry, expression).0.edges.len() == m.edges.len() + expression.transitions(),
        m.states.len() <= fragment(m, entry, expression).1 < fragment(m, entry, expression).0.states.len(),
        fragment(m, entry, expression).0.states.take(m.states.len() as int) == m.states,
        fragment(m, entry, expression).0.edges.take(m.edges.len() as int) == m.edges,
    decreases expression,
{
    let fresh = m.states.len() as int;
    let out = fragment(m, entry, expression).0;
    match expression {
        Regex::Literal(s) => {},
        Regex::Empty => {},
        Regex::Concatenation(a, b) => {
            let (first, mid) = fragment(m, entry, *a);
            lemma_fragment_extends(m, entry, *a);
            lemma_fragment_extends(first, mid, *b);
            assert(first.states.take(m.states.len() as int) =~= out.states.take(
                first.states.len() as int,
            ).take(m.states.len() as int));
            assert(first.edges.take(m.edges.len() as int) =~= out.edges.take(
                first.edges.len() as int,
            ).take(m.edges.len() as int));
        },
        Regex::Alternative(a, b) => {
            let m0 = m.with_node(State::Standard);
            let (left, end_a) = fragment(m0, entry, *a);
            let m1 = left.with_edge(end_a, fresh, BranchLabel::Empty);
            let (right, end_b) = fragment(m1, entry, *b);
            lemma_fragment_extends(m0, entry, *a);
            lemma_fragment_extends(m1, entry, *b);
            assert(forall|i: int|
                0 <= i < m.states.len() ==> out.states[i] == right.states.take(
                    m1.states.len() as int,
                )[i] && left.states[i] == left.states.take(m0.states.len() as int)[i]);
            assert(forall|i: int|
                0 <= i < m.edges.len() ==> out.edges[i] == right.edges.take(
                    m1.edges.len() as int,
                )[i] && left.edges[i] == left.edges.take(m0.edges.len() as int)[i]);
        },
        Regex::Star(a) => {
            let m0 = m.with_node(State::Standard).with_edge(entry, fresh, BranchLabel::Empty);
            let (inner, end) = fragment(m0, fresh, *a);
            lemma_fragment_extends(m0, fresh, *a);
            assert(forall|i: int|
                0 <= i < m.states.len() ==> out.states[i] == inner.states.take(
                    m0.states.len() as int,
                )[i]);
            assert(forall|i: int|
                0 <= i < m.edges.len() ==> out.edges[i] == inner.edges.take(
                    m0.edges.len() as int,
                )[i]);
        },
    }
    assert(out.states.take(m.states.len() as int) =~= m.states);
    assert(out.edges.take(m.edges.len() as int) =~= m.edges);
}

/// An expression fits where its automaton stays within a graph's capacity.
pub open spec fn fits(expression: Regex<char>) -> bool {
    1 + expression.states() <= CAPACITY && expression.transitions() <= CAPACITY
}

impl Regex<char> {
    /// The automaton of the expression, where it fits.
    pub fn to_nfa(&self) -> (r: Result<NFA, ConversionError>)
        ensures
            r is Ok <==> fits(*self),
            r matches Ok(nfa) ==> model(nfa.graph) == compiled(*self) && structured(
                model(nfa.graph),
                *self,
            ),
            r matches Err(e) ==> e == ConversionError::CapacityExceeded,
    {
        match converter(self.duplicate()) {
            Ok(graph) => Ok(NFA { graph }),
            Err(e) => Err(e),
        }
    }
}

/// Builds the automaton of `expression`: a start state, the fragment for the
/// expression, and its end made final. An expression fails only where its
/// automaton would not fit into a graph.
pub fn converter(expression: Regex<char>) -> (r: Result<
    Graph<State, BranchLabel<char>>,
    ConversionError,
>)
    ensures
        r is Ok <==> fits(expression),
        r matches Ok(graph) ==> model(graph) == compiled(expression) && structured(
            model(graph),
            expression,
        ),
        r matches Err(e) ==> e == ConversionError::CapacityExceeded,
{
    proof {
        lemma_compiled_shape(expression);
    }
    let states = expression.count_states();
    let transitions = expression.count_transitions();
    if states >= 0xffff_ffff || transitions > 0xffff_ffff {
        return Err(ConversionError::CapacityExceeded);
    }
    let mut graph = new_graph();
    let start = add_node(&mut graph, State::Start);
    assert(model(graph) == (Automaton { states: seq![State::Start], edges: Seq::empty() }));
    proof {
        lemma_fragment_extends(model(graph), 0, expression);
    }
    let end = generate(&mut graph, start, expression);
    set_node_state(&mut graph, end, State::Final);
    Ok(graph)
}

fn generate(
    graph: &mut Graph<State, BranchLabel<char>>,
    start: usize,
    expression: Regex<char>,
) -> (end: usize)
    requires
        start < graph_nodes(*old(graph)).len(),
        graph_nodes(*old(graph)).len() + expression.states() <= CAPACITY,
        graph_edges(*old(graph)).len() + expression.transitions() <= CAPACITY,
    ensures
        (model(*final(graph)), end as int) == fragment(model(*old(graph)), start as int, expression),
    decreases expression.size(), 1nat,
{
    match expression {
        Regex::Literal(s) => symbol(graph, start, s),
        Regex::Concatenation(a, b) => concatenation(graph, start, *a, *b),
        Regex::Alternative(a, b) => alternative(graph, start, *a, *b),
        Regex::Star(a) => kleene_star(graph, start, *a),
        Regex::Empty => empty(graph, start),
    }
}

fn concatenation(
    graph: &mut Graph<State, BranchLabel<char>>,
    start: usize,
    a: Regex<char>,
    b: Regex<char>,
) -> (end: usize)
    requires
        start < graph_nodes(*old(graph)).len(),
        graph_nodes(*old(graph)).len() + a.states() + b.states() <= CAPACITY,
        graph_edges(*old(graph)).len() + a.transitions() + b.transitions() <= CAPACITY,
    ensures
        (model(*final(graph)), end as int) == fragment(
            model(*old(graph)),
            start as int,
            Regex::Concatenation(Box::new(a), Box::new(b)),
        ),
    decreases a.size() + b.size(), 2nat,
{
    proof {
        lemma_fragment_extends(model(*graph), start as int, a);
    }
    let mid = generate(graph, start, a);
    let end = generate(graph, mid, b);
    end
}

fn alternative(
    graph: &mut Graph<State, BranchLabel<char>>,
    start: usize,
    a: Regex<char>,
    b: Regex<char>,
) -> (end: usize)
    requires
        start < graph_nodes(*old(graph)).len(),
        graph_nodes(*old(graph)).len() + 1 + a.states() + b.states() <= CAPACITY,
        graph_edges(*old(graph)).len() + 2 + a.transitions() + b.transitions() <= CAPACITY,
    ensures
        (model(*final(graph)), end as int) == fragment(
            model(*old(graph)),
            start as int,
            Regex::Alternative(Box::new(a), Box::new(b)),
        ),
    decreases a.size() + b.size(), 2nat,
{
    let end = add_node(graph, State::Standard);
    proof {
        lemma_fragment_extends(model(*graph), start as int, a);
    }
    let end_a = generate(graph, start, a);
    add_edge(graph, end_a, end, BranchLabel::Empty);
    proof {
        lemma_fragment_extends(model(*graph), start as int, b);
    }
    let end_b = generate(graph, start, b);
    add_edge(graph, end_b, end, BranchLabel::Empty);
    end
}

fn kleene_star(graph: &mut Graph<State, BranchLabel<char>>, start: usize, a: Regex<char>) -> (end:
    usize)
    requires
        start < graph_nodes(*old(graph)).len(),
        graph_nodes(*old(graph)).len() + 1 + a.states() <= CAPACITY,
        graph_edges(*old(graph)).len() + 2 + a.transitions() <= CAPACITY,
    ensures
        (model(*final(graph)), end as int) == fragment(
            model(*old(graph)),
            start as int,
            Regex::Star(Box::new(a)),
        ),
    decreases a.size(), 2nat,
{
    let node = add_node(graph, State::Standard);
    add_edge(graph, start, node, BranchLabel::Empty);
    proof {
        lemma_fragment_extends(model(*graph), node as int, a);
    }
    let end = generate(graph, node, a);
    add_edge(graph, end, node, BranchLabel::Empty);
    end
}

fn symbol(graph: &mut Graph<State, BranchLabel<char>>, start: usize, s: char) -> (end: usize)
    requires
        start < graph_nodes(*old(graph)).len(),
        graph_nodes(*old(graph)).len() < CAPACITY,
        graph_edges(*old(graph)).len() < CAPACITY,
    ensures
        (model(*final(graph)), end as int) == fragment(
            model(*old(graph)),
            start as int,
            Regex::Literal(s),
        ),
{
    let end = add_node(graph, State::Standard);
    add_edge(graph, start, end, BranchLabel::Literal(s));
    end
}

fn empty(graph: &mut Graph<State, BranchLabel<char>>, start: usize) -> (end: usize)
    requires
        start < graph_nodes(*old(graph)).len(),
        graph_nodes(*old(graph)).len() < CAPACITY,
        graph_edges(*old(graph)).len() < CAPACITY,
    ensures
        (model(*final(graph)), end as int) == fragment(
            model(*old(graph)),
            start as int,
            Regex::Empty,
        ),
{
    let end = add_node(graph, State::Standard);
    add_edge(graph, start, end, BranchLabel::Empty);
    end
}

} // verus!
