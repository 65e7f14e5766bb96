use dfa_generator::automaton::ConversionError;
use dfa_generator::nfa_to_dfa;
use dfa_generator::nfa_to_dfa::{
    accepting, alphabet, closure, has_symbol, position, same_label, start_state, step, DFA,
};
use dfa_generator::re_to_nfa;
use dfa_generator::re_to_nfa::{BranchLabel, State, NFA};
use dfa_generator::regex::Regex;
use dfa_generator::state_set::StateSet;
use petgraph::graph::{Graph, NodeIndex};
use petgraph::visit::EdgeRef;

type Automaton = Graph<State, BranchLabel<char>>;

fn lit(c: char) -> Regex<char> {
    Regex::Literal(c)
}

fn scenario() -> Regex<char> {
    lit('A')
        .concatenate(&lit('B').alternate(&lit('C')))
        .concatenate(&lit('D'))
}

fn nodes(g: &Automaton) -> Vec<State> {
    g.node_indices().map(|i| g[i]).collect()
}

fn edges(g: &Automaton) -> Vec<(usize, usize, BranchLabel<char>)> {
    g.edge_references()
        .map(|e| (e.source().index(), e.target().index(), *e.weight()))
        .collect()
}

fn set_of(universe: usize, members: &[usize]) -> StateSet {
    let mut s = StateSet::new(universe);
    for &m in members {
        s.insert(m);
    }
    s
}

fn members(s: &StateSet) -> Vec<usize> {
    (0..s.universe()).filter(|&i| s.contains(i)).collect()
}

/// Path search: is a final state reached from a start state along `word`?
fn nfa_accepts(g: &Automaton, word: &[char]) -> bool {
    let n = g.node_count();
    let mut seen = vec![false; n * (word.len() + 1)];
    let mut stack: Vec<(usize, usize)> = Vec::new();
    for i in g.node_indices() {
        if g[i] == State::Start {
            stack.push((i.index(), 0));
        }
    }
    while let Some((v, at)) = stack.pop() {
        if seen[v * (word.len() + 1) + at] {
            continue;
        }
        seen[v * (word.len() + 1) + at] = true;
        if at == word.len() && g[NodeIndex::new(v)] == State::Final {
            return true;
        }
        for e in g.edges(NodeIndex::new(v)) {
            match *e.weight() {
                BranchLabel::Empty => stack.push((e.target().index(), at)),
                BranchLabel::Literal(c) => {
                    if at < word.len() && word[at] == c {
                        stack.push((e.target().index(), at + 1));
                    }
                }
            }
        }
    }
    false
}

/// Transition walk: one edge per symbol from the start state, final at the end.
fn dfa_accepts(g: &Automaton, word: &[char]) -> bool {
    let mut at = match g.node_indices().find(|&i| g[i] == State::Start) {
        Some(i) => i,
        None => return false,
    };
    for &c in word {
        let mut next = None;
        for e in g.edges(at) {
            if *e.weight() == BranchLabel::Literal(c) {
                assert!(next.is_none(), "two edges with one symbol");
                next = Some(e.target());
            }
        }
        match next {
            Some(t) => at = t,
            None => return false,
        }
    }
    g[at] == State::Final
}

fn deterministic(g: &Automaton) -> bool {
    let all = edges(g);
    for i in 0..all.len() {
        for j in (i + 1)..all.len() {
            if all[i].0 == all[j].0 && all[i].2 == all[j].2 {
                return false;
            }
        }
    }
    true
}

fn words_up_to(symbols: &[char], len: usize) -> Vec<Vec<char>> {
    let mut all: Vec<Vec<char>> = vec![vec![]];
    let mut last: Vec<Vec<char>> = vec![vec![]];
    for _ in 0..len {
        let mut next = Vec::new();
        for w in &last {
            for &c in symbols {
                let mut v = w.clone();
                v.push(c);
                next.push(v);
            }
        }
        all.extend(next.iter().cloned());
        last = next;
    }
    all
}

#[test]
fn a_symbol_compiles_to_one_edge() {
    let g = re_to_nfa::converter(lit('a')).unwrap();
    assert_eq!(nodes(&g), vec![State::Start, State::Final]);
    assert_eq!(edges(&g), vec![(0, 1, BranchLabel::Literal('a'))]);
}

#[test]
fn the_empty_expression_compiles_to_one_epsilon_move() {
    let g = re_to_nfa::converter(Regex::Empty).unwrap();
    assert_eq!(nodes(&g), vec![State::Start, State::Final]);
    assert_eq!(edges(&g), vec![(0, 1, BranchLabel::Empty)]);
}

#[test]
fn a_concatenation_glues_its_operands() {
    let g = re_to_nfa::converter(lit('a').concatenate(&lit('b'))).unwrap();
    assert_eq!(nodes(&g), vec![State::Start, State::Standard, State::Final]);
    assert_eq!(
        edges(&g),
        vec![(0, 1, BranchLabel::Literal('a')), (1, 2, BranchLabel::Literal('b'))]
    );
}

#[test]
fn an_alternative_starts_both_operands_at_the_entry() {
    let g = re_to_nfa::converter(lit('a').alternate(&lit('b'))).unwrap();
    assert_eq!(
        nodes(&g),
        vec![State::Start, State::Final, State::Standard, State::Standard]
    );
    assert_eq!(
        edges(&g),
        vec![
            (0, 2, BranchLabel::Literal('a')),
            (2, 1, BranchLabel::Empty),
            (0, 3, BranchLabel::Literal('b')),
            (3, 1, BranchLabel::Empty),
        ]
    );
}

#[test]
fn a_repetition_ends_where_its_operand_ends() {
    let g = re_to_nfa::converter(lit('a').star()).unwrap();
    assert_eq!(nodes(&g), vec![State::Start, State::Standard, State::Final]);
    assert_eq!(
        edges(&g),
        vec![
            (0, 1, BranchLabel::Empty),
            (1, 2, BranchLabel::Literal('a')),
            (2, 1, BranchLabel::Empty),
        ]
    );
}

#[test]
fn the_scenario_compiles_to_six_states() {
    let g = re_to_nfa::converter(scenario()).unwrap();
    assert_eq!(
        nodes(&g),
        vec![
            State::Start,
            State::Standard,
            State::Standard,
            State::Standard,
            State::Standard,
            State::Final,
        ]
    );
    assert_eq!(
        edges(&g),
        vec![
            (0, 1, BranchLabel::Literal('A')),
            (1, 3, BranchLabel::Literal('B')),
            (3, 2, BranchLabel::Empty),
            (1, 4, BranchLabel::Literal('C')),
            (4, 2, BranchLabel::Empty),
            (2, 5, BranchLabel::Literal('D')),
        ]
    );
}

#[test]
fn to_nfa_builds_what_the_converter_builds() {
    let r = scenario();
    let nfa = r.to_nfa().unwrap();
    let g = re_to_nfa::converter(r).unwrap();
    assert_eq!(nodes(&nfa.graph), nodes(&g));
    assert_eq!(edges(&nfa.graph), edges(&g));
}

#[test]
fn a_compiled_automaton_has_one_start_and_a_final_state() {
    let all = vec![
        scenario(),
        lit('a').star(),
        Regex::Empty,
        lit('a').alternate(&lit('b')).star().concatenate(&Regex::Empty),
    ];
    for r in all {
        let g = re_to_nfa::converter(r).unwrap();
        let starts = nodes(&g).iter().filter(|s| **s == State::Start).count();
        let finals = nodes(&g).iter().filter(|s| **s == State::Final).count();
        assert_eq!(starts, 1);
        assert_eq!(finals, 1);
        assert_eq!(start_state(&g), Some(0));
    }
}

#[test]
fn compiled_edges_carry_symbols_of_the_expression_only() {
    let g = re_to_nfa::converter(scenario()).unwrap();
    for (_, _, label) in edges(&g) {
        match label {
            BranchLabel::Empty => {}
            BranchLabel::Literal(c) => assert!("ABCD".contains(c)),
        }
    }
}

#[test]
fn the_scenario_nfa_accepts_exactly_the_two_words() {
    let g = re_to_nfa::converter(scenario()).unwrap();
    assert!(nfa_accepts(&g, &['A', 'B', 'D']));
    assert!(nfa_accepts(&g, &['A', 'C', 'D']));
    assert!(!nfa_accepts(&g, &['A', 'D']));
    assert!(!nfa_accepts(&g, &['A', 'B', 'C', 'D']));
    assert!(!nfa_accepts(&g, &[]));
    for w in words_up_to(&['A', 'B', 'C', 'D'], 4) {
        let expected = w == vec!['A', 'B', 'D'] || w == vec!['A', 'C', 'D'];
        assert_eq!(nfa_accepts(&g, &w), expected, "{:?}", w);
    }
}

#[test]
fn the_scenario_dfa_accepts_exactly_the_two_words() {
    let nfa = re_to_nfa::converter(scenario()).unwrap();
    let g = nfa_to_dfa::converter(nfa).unwrap();
    assert!(dfa_accepts(&g, &['A', 'B', 'D']));
    assert!(dfa_accepts(&g, &['A', 'C', 'D']));
    assert!(!dfa_accepts(&g, &['A', 'D']));
    assert!(!dfa_accepts(&g, &['A', 'B', 'C', 'D']));
    assert!(!dfa_accepts(&g, &[]));
    for w in words_up_to(&['A', 'B', 'C', 'D'], 4) {
        let expected = w == vec!['A', 'B', 'D'] || w == vec!['A', 'C', 'D'];
        assert_eq!(dfa_accepts(&g, &w), expected, "{:?}", w);
    }
}

#[test]
fn the_scenario_dfa_has_one_state_for_each_set() {
    let nfa = re_to_nfa::converter(scenario()).unwrap();
    let g = nfa_to_dfa::converter(nfa).unwrap();
    assert_eq!(
        nodes(&g),
        vec![
            State::Start,
            State::Standard,
            State::Standard,
            State::Standard,
            State::Final,
        ]
    );
    let mut all = edges(&g);
    all.sort_by_key(|e| (e.0, e.1));
    assert_eq!(all.len(), 5);
    assert_eq!(all[0], (0, 1, BranchLabel::Literal('A')));
    assert_eq!(all[1].0, 1);
    assert_eq!(all[2].0, 1);
    assert_ne!(all[1].2, all[2].2);
    assert_eq!(all[3].1, 4);
    assert_eq!(all[3].2, BranchLabel::Literal('D'));
    assert_eq!(all[4].1, 4);
    assert_eq!(all[4].2, BranchLabel::Literal('D'));
}

#[test]
fn to_dfa_leaves_the_nfa_as_it_was() {
    let nfa = scenario().to_nfa().unwrap();
    let before = (nodes(&nfa.graph), edges(&nfa.graph));
    let dfa: DFA = nfa.to_dfa().unwrap();
    assert_eq!((nodes(&nfa.graph), edges(&nfa.graph)), before);
    assert!(dfa_accepts(&dfa.graph, &['A', 'C', 'D']));
    assert!(!dfa_accepts(&dfa.graph, &['A']));
}

#[test]
fn a_dfa_has_no_two_edges_with_one_symbol() {
    let all = vec![
        scenario(),
        lit('a').alternate(&lit('a').concatenate(&lit('b'))),
        lit('a').alternate(&lit('b')).star().concatenate(&lit('a')),
        lit('a').star().star(),
    ];
    for r in all {
        let g = nfa_to_dfa::converter(re_to_nfa::converter(r).unwrap()).unwrap();
        assert!(deterministic(&g));
        for (_, _, label) in edges(&g) {
            assert_ne!(label, BranchLabel::Empty);
        }
    }
}

#[test]
fn the_dfa_accepts_what_the_nfa_accepts_but_for_the_empty_word() {
    let all = vec![
        scenario(),
        lit('a').alternate(&lit('a').concatenate(&lit('b'))),
        lit('a').alternate(&lit('b')).star().concatenate(&lit('a')),
        lit('a').star().concatenate(&lit('b').star()),
        Regex::Empty.concatenate(&lit('a')),
        lit('a').concatenate(&Regex::Empty).star(),
    ];
    for r in all {
        let nfa = re_to_nfa::converter(r).unwrap();
        let dfa = nfa_to_dfa::converter(nfa.clone()).unwrap();
        for w in words_up_to(&['a', 'b', 'A', 'D'], 4) {
            let expected = !w.is_empty() && nfa_accepts(&nfa, &w);
            assert_eq!(dfa_accepts(&dfa, &w), expected, "{:?}", w);
        }
    }
}

#[test]
fn no_dfa_accepts_the_empty_word() {
    let nfa = re_to_nfa::converter(Regex::Empty).unwrap();
    assert!(nfa_accepts(&nfa, &[]));
    let dfa = nfa_to_dfa::converter(nfa).unwrap();
    assert_eq!(nodes(&dfa), vec![State::Start]);
    assert!(!dfa_accepts(&dfa, &[]));
}

#[test]
fn an_alternative_accepts_what_either_operand_accepts() {
    let a = lit('a').concatenate(&lit('b'));
    let b = lit('a').star();
    let da = nfa_to_dfa::converter(re_to_nfa::converter(a.duplicate()).unwrap()).unwrap();
    let db = nfa_to_dfa::converter(re_to_nfa::converter(b.duplicate()).unwrap()).unwrap();
    let both = nfa_to_dfa::converter(re_to_nfa::converter(a.alternate(&b)).unwrap()).unwrap();
    for w in words_up_to(&['a', 'b'], 5) {
        assert_eq!(
            dfa_accepts(&both, &w),
            dfa_accepts(&da, &w) || dfa_accepts(&db, &w),
            "{:?}",
            w
        );
    }
    assert!(dfa_accepts(&both, &['a', 'b']));
    assert!(dfa_accepts(&both, &['a', 'a', 'a']));
    assert!(!dfa_accepts(&both, &['b']));
}

#[test]
fn a_repetition_accepts_rows_of_one_or_more_words() {
    let a = lit('a').concatenate(&lit('b'));
    let nfa = re_to_nfa::converter(a.star()).unwrap();
    let dfa = nfa_to_dfa::converter(nfa.clone()).unwrap();
    assert!(!nfa_accepts(&nfa, &[]));
    assert!(!dfa_accepts(&dfa, &[]));
    for w in words_up_to(&['a', 'b'], 6) {
        let rows = !w.is_empty()
            && w.len() % 2 == 0
            && w.chunks(2).all(|p| p == ['a', 'b']);
        assert_eq!(nfa_accepts(&nfa, &w), rows, "{:?}", w);
        assert_eq!(dfa_accepts(&dfa, &w), rows, "{:?}", w);
    }
}

#[test]
fn a_repetition_of_the_empty_expression_accepts_the_empty_word() {
    let nfa = re_to_nfa::converter(Regex::Empty.star()).unwrap();
    assert_eq!(
        edges(&nfa),
        vec![
            (0, 1, BranchLabel::Empty),
            (1, 2, BranchLabel::Empty),
            (2, 1, BranchLabel::Empty),
        ]
    );
    assert!(nfa_accepts(&nfa, &[]));
    assert!(!nfa_accepts(&nfa, &['a']));
    let dfa = nfa_to_dfa::converter(nfa).unwrap();
    assert_eq!(nodes(&dfa), vec![State::Start]);
    assert_eq!(edges(&dfa), vec![]);
}

#[test]
fn closure_follows_epsilon_moves_and_keeps_the_seeds() {
    let g = re_to_nfa::converter(lit('a').alternate(&lit('b'))).unwrap();
    let out = closure(&g, set_of(4, &[2]), BranchLabel::Empty);
    assert_eq!(members(&out), vec![1, 2]);
    assert_eq!(out.universe(), 4);
    let out = closure(&g, set_of(4, &[0]), BranchLabel::Empty);
    assert_eq!(members(&out), vec![0]);
    let out = closure(&g, set_of(4, &[]), BranchLabel::Empty);
    assert!(out.is_empty());
}

#[test]
fn closure_ends_on_a_cycle_of_epsilon_moves() {
    let g = re_to_nfa::converter(Regex::Empty.star()).unwrap();
    let out = closure(&g, set_of(3, &[0]), BranchLabel::Empty);
    assert_eq!(members(&out), vec![0, 1, 2]);
}

#[test]
fn closure_of_a_closure_is_the_closure() {
    let g = re_to_nfa::converter(
        lit('a').star().alternate(&Regex::Empty.star()).concatenate(&Regex::Empty),
    )
    .unwrap();
    let n = g.node_count();
    for v in 0..n {
        let once = closure(&g, set_of(n, &[v]), BranchLabel::Empty);
        let twice = closure(&g, once.duplicate(), BranchLabel::Empty);
        assert!(once.equals(&twice));
        assert_eq!(members(&once), members(&twice));
        assert!(once.contains(v));
    }
}

#[test]
fn closure_along_a_symbol_leaves_the_seeds_out() {
    let mut g: Automaton = Graph::new();
    let a = g.add_node(State::Start);
    let b = g.add_node(State::Standard);
    let c = g.add_node(State::Final);
    g.add_edge(a, b, BranchLabel::Literal('x'));
    g.add_edge(b, c, BranchLabel::Literal('x'));
    g.add_edge(a, c, BranchLabel::Literal('y'));
    let out = closure(&g, set_of(3, &[0]), BranchLabel::Literal('x'));
    assert_eq!(members(&out), vec![1, 2]);
    let out = closure(&g, set_of(3, &[0]), BranchLabel::Literal('y'));
    assert_eq!(members(&out), vec![2]);
    let out = closure(&g, set_of(3, &[2]), BranchLabel::Literal('x'));
    assert!(out.is_empty());
}

#[test]
fn closure_passes_over_seeds_that_are_no_states() {
    let g = re_to_nfa::converter(lit('a')).unwrap();
    let out = closure(&g, set_of(9, &[1, 7]), BranchLabel::Empty);
    assert_eq!(members(&out), vec![1]);
    assert_eq!(out.universe(), 2);
}

#[test]
fn alphabet_lists_each_symbol_once() {
    let g = re_to_nfa::converter(
        lit('a').alternate(&lit('b')).alternate(&lit('a')).alternate(&Regex::Empty),
    )
    .unwrap();
    let n = g.node_count();
    let mut symbols = alphabet(&g, &set_of(n, &[0]));
    symbols.sort();
    assert_eq!(symbols, vec!['a', 'b']);
    assert_eq!(alphabet(&g, &set_of(n, &[1])), Vec::<char>::new());
    assert_eq!(alphabet(&g, &set_of(n, &[])), Vec::<char>::new());
}

#[test]
fn step_collects_the_targets_of_one_symbol() {
    let g = re_to_nfa::converter(scenario()).unwrap();
    assert_eq!(members(&step(&g, &set_of(6, &[1]), 'B')), vec![3]);
    assert_eq!(members(&step(&g, &set_of(6, &[1]), 'C')), vec![4]);
    assert_eq!(members(&step(&g, &set_of(6, &[0, 1, 2]), 'D')), vec![5]);
    assert!(step(&g, &set_of(6, &[1]), 'D').is_empty());
    assert!(step(&g, &set_of(6, &[3]), 'B').is_empty());
}

#[test]
fn accepting_looks_for_a_final_member() {
    let g = re_to_nfa::converter(scenario()).unwrap();
    assert!(accepting(&g, &set_of(6, &[2, 5])));
    assert!(!accepting(&g, &set_of(6, &[0, 1, 2, 3, 4])));
    assert!(!accepting(&g, &set_of(6, &[])));
}

#[test]
fn position_finds_the_first_equal_set() {
    let sets = vec![set_of(4, &[0]), set_of(4, &[1, 2]), set_of(6, &[1, 2])];
    assert_eq!(position(&sets, &set_of(4, &[2, 1])), Some(1));
    assert_eq!(position(&sets, &set_of(9, &[0])), Some(0));
    assert_eq!(position(&sets, &set_of(4, &[1])), None);
    assert_eq!(position(&Vec::new(), &set_of(4, &[1])), None);
}

#[test]
fn start_state_needs_exactly_one_start() {
    let mut g: Automaton = Graph::new();
    assert_eq!(start_state(&g), None);
    g.add_node(State::Standard);
    assert_eq!(start_state(&g), None);
    g.add_node(State::Start);
    assert_eq!(start_state(&g), Some(1));
    g.add_node(State::Final);
    assert_eq!(start_state(&g), Some(1));
    g.add_node(State::Start);
    assert_eq!(start_state(&g), None);
}

#[test]
fn an_automaton_without_a_start_state_is_refused() {
    let mut g: Automaton = Graph::new();
    let a = g.add_node(State::Standard);
    let b = g.add_node(State::Final);
    g.add_edge(a, b, BranchLabel::Literal('a'));
    assert_eq!(
        nfa_to_dfa::converter(g.clone()).err(),
        Some(ConversionError::InvariantViolation)
    );
    assert_eq!(
        NFA { graph: g }.to_dfa().err(),
        Some(ConversionError::InvariantViolation)
    );
    let empty: Automaton = Graph::new();
    assert_eq!(
        nfa_to_dfa::converter(empty).err(),
        Some(ConversionError::InvariantViolation)
    );
}

#[test]
fn an_automaton_with_two_start_states_is_refused() {
    let mut g: Automaton = Graph::new();
    let a = g.add_node(State::Start);
    let b = g.add_node(State::Start);
    let c = g.add_node(State::Final);
    g.add_edge(a, c, BranchLabel::Literal('a'));
    g.add_edge(b, c, BranchLabel::Literal('b'));
    assert_eq!(
        nfa_to_dfa::converter(g).err(),
        Some(ConversionError::InvariantViolation)
    );
}

#[test]
fn a_hand_made_automaton_is_determinized() {
    let mut g: Automaton = Graph::new();
    let s = g.add_node(State::Start);
    let p = g.add_node(State::Standard);
    let q = g.add_node(State::Final);
    g.add_edge(s, p, BranchLabel::Literal('a'));
    g.add_edge(s, q, BranchLabel::Literal('a'));
    g.add_edge(p, q, BranchLabel::Literal('b'));
    g.add_edge(q, q, BranchLabel::Literal('b'));
    g.add_edge(p, p, BranchLabel::Empty);
    let dfa = nfa_to_dfa::converter(g.clone()).unwrap();
    assert!(deterministic(&dfa));
    assert_eq!(nodes(&dfa), vec![State::Start, State::Final, State::Final]);
    for w in words_up_to(&['a', 'b'], 5) {
        assert_eq!(dfa_accepts(&dfa, &w), nfa_accepts(&g, &w), "{:?}", w);
    }
}

#[test]
fn labels_compare_by_value() {
    assert!(same_label(BranchLabel::Empty, BranchLabel::Empty));
    assert!(same_label(BranchLabel::Literal('a'), BranchLabel::Literal('a')));
    assert!(!same_label(BranchLabel::Literal('a'), BranchLabel::Literal('b')));
    assert!(!same_label(BranchLabel::Literal('a'), BranchLabel::Empty));
    assert!(!same_label(BranchLabel::Empty, BranchLabel::Literal('a')));
}

#[test]
fn has_symbol_searches_the_list() {
    assert!(has_symbol(&vec!['a', 'b'], 'b'));
    assert!(!has_symbol(&vec!['a', 'b'], 'c'));
    assert!(!has_symbol(&Vec::new(), 'a'));
}

#[test]
fn states_are_shown_by_their_role() {
    assert_eq!(State::Start.label(), "Start");
    assert_eq!(State::Standard.label(), "");
    assert_eq!(State::Final.label(), "Final");
}

#[test]
fn labels_are_shown_as_symbols_or_epsilon() {
    assert_eq!(BranchLabel::Literal('a').label(), "'a'");
    assert_eq!(BranchLabel::Literal('\n').label(), "'\\n'");
    assert_eq!(BranchLabel::<char>::Empty.label(), "\u{3b5}");
}

#[test]
fn an_expression_is_determinized_in_one_step() {
    let r = scenario();
    let dfa = r.to_dfa().unwrap();
    assert!(deterministic(&dfa.graph));
    for w in words_up_to(&['A', 'B', 'C', 'D'], 4) {
        let expected = w == vec!['A', 'B', 'D'] || w == vec!['A', 'C', 'D'];
        assert_eq!(dfa_accepts(&dfa.graph, &w), expected, "{:?}", w);
    }
    let by_steps = r.to_nfa().unwrap().to_dfa().unwrap();
    assert_eq!(nodes(&dfa.graph), nodes(&by_steps.graph));
    assert_eq!(edges(&dfa.graph), edges(&by_steps.graph));
}
