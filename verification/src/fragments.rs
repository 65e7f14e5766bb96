use crate::automaton::Automaton;
use crate::re_to_nfa::{fragment, lemma_fragment_extends, BranchLabel, State};
use crate::regex::{positive, Regex};
use vstd::prelude::*;

verus! {

/// `g` has the edges of `m` at their indices, and at least its nodes.
pub open spec fn extends(g: Automaton, m: Automaton) -> bool {
    &&& m.states.len() <= g.states.len()
    &&& m.edges.len() <= g.edges.len()
    &&& forall|e: int| 0 <= e < m.edges.len() ==> #[trigger] g.edges[e] == m.edges[e]
}

/// Every edge of `path` has its index from `lo` up to `hi`, `hi` left out.
pub open spec fn within(path: Seq<int>, lo: int, hi: int) -> bool {
    forall|k: int| 0 <= k < path.len() ==> lo <= #[trigger] path[k] < hi
}

/// The edges of `g` from `lo` up to `hi` start at `entry` or at a node from
/// `first` up to `last`, and end at a node from `first` up to `last`.
pub open spec fn enclosed(g: Automaton, lo: int, hi: int, entry: int, first: int, last: int) -> bool {
    forall|e: int|
        lo <= e < hi ==> ((#[trigger] g.edges[e]).0 == entry || first <= g.edges[e].0 < last)
            && first <= g.edges[e].1 < last
}

/// `label` is an epsilon move or carries a symbol of `expression`.
pub open spec fn noted(expression: Regex<char>, label: BranchLabel<char>) -> bool {
    match label {
        BranchLabel::Literal(t) => expression.mentions(t),
        BranchLabel::Empty => true,
    }
}

/// The edges of `g` from `lo` up to `hi` carry symbols of `expression` only.
pub open spec fn labelled(g: Automaton, lo: int, hi: int, expression: Regex<char>) -> bool {
    forall|e: int| lo <= e < hi ==> noted(expression, (#[trigger] g.edges[e]).2)
}

/// `m` has the build of an automaton of `expression`: its first state is
/// its one start state, it has one final state, every edge joins two states
/// and none enters the start state, and every edge is an epsilon move or
/// carries a symbol of the expression.
pub open spec fn structured(m: Automaton, expression: Regex<char>) -> bool {
    &&& m.sole_start(0)
    &&& exists|f: int|
        m.node(f) && #[trigger] m.states[f] == State::Final && forall|v: int|
            m.node(v) && #[trigger] m.states[v] == State::Final ==> v == f
    &&& forall|e: int|
        0 <= e < m.edges.len() ==> 1 <= (#[trigger] m.edges[e]).1 < m.states.len() && 0
            <= m.edges[e].0 < m.states.len()
    &&& labelled(m, 0, m.edges.len() as int, expression)
}

/// What a fragment adds: the states are standard ones and keep the old ones
/// as they were; the edges start at the entry or at a new state, end at a
/// new state, and carry symbols of the expression.
pub proof fn lemma_fragment_shape(m: Automaton, entry: int, expression: Regex<char>)
    requires
        0 <= entry < m.states.len(),
    ensures
        extends(fragment(m, entry, expression).0, m),
        m.states.len() <= fragment(m, entry, expression).1 < fragment(
            m,
            entry,
            expression,
        ).0.states.len(),
        forall|v: int|
            0 <= v < m.states.len() ==> #[trigger] fragment(m, entry, expression).0.states[v]
                == m.states[v],
        forall|v: int|
            m.states.len() <= v < fragment(m, entry, expression).0.states.len()
                ==> #[trigger] fragment(m, entry, expression).0.states[v] == State::Standard,
        enclosed(
            fragment(m, entry, expression).0,
            m.edges.len() as int,
            fragment(m, entry, expression).0.edges.len() as int,
            entry,
            m.states.len() as int,
            fragment(m, entry, expression).0.states.len() as int,
        ),
        labelled(
            fragment(m, entry, expression).0,
            m.edges.len() as int,
            fragment(m, entry, expression).0.edges.len() as int,
            expression,
        ),
    decreases expression,
{
    let fresh = m.states.len() as int;
    let out = fragment(m, entry, expression).0;
    lemma_fragment_extends(m, entry, expression);
    match expression {
        Regex::Literal(s) => {},
        Regex::Empty => {},
        Regex::Concatenation(a, b) => {
            let (first, mid) = fragment(m, entry, *a);
            lemma_fragment_extends(m, entry, *a);
            lemma_fragment_extends(first, mid, *b);
            lemma_fragment_shape(m, entry, *a);
            lemma_fragment_shape(first, mid, *b);
            assert forall|e: int| m.edges.len() <= e < out.edges.len() implies ((
            #[trigger] out.edges[e]).0 == entry || fresh <= out.edges[e].0 < out.states.len())
                && fresh <= out.edges[e].1 < out.states.len() && noted(
                expression,
                out.edges[e].2,
            ) by {
                if e < first.edges.len() {
                    assert(out.edges[e] == first.edges[e]);
                    assert(noted(*a, first.edges[e].2));
                } else {
                    assert(noted(*b, out.edges[e].2));
                }
            }
        },
        Regex::Alternative(a, b) => {
            let m0 = m.with_node(State::Standard);
            let (left, end_a) = fragment(m0, entry, *a);
            let m1 = left.with_edge(end_a, fresh, BranchLabel::Empty);
            let (right, end_b) = fragment(m1, entry, *b);
            lemma_fragment_extends(m0, entry, *a);
            lemma_fragment_extends(m1, entry, *b);
            lemma_fragment_shape(m0, entry, *a);
            lemma_fragment_shape(m1, entry, *b);
            assert forall|e: int| m.edges.len() <= e < out.edges.len() implies ((
            #[trigger] out.edges[e]).0 == entry || fresh <= out.edges[e].0 < out.states.len())
                && fresh <= out.edges[e].1 < out.states.len() && noted(
                expression,
                out.edges[e].2,
            ) by {
                if e < left.edges.len() {
                    assert(right.edges[e] == m1.edges[e]);
                    assert(m1.edges[e] == left.edges[e]);
                    assert(noted(*a, left.edges[e].2));
                } else if e == left.edges.len() {
                    assert(right.edges[e] == m1.edges[e]);
                } else if e < right.edges.len() {
                    assert(out.edges[e] == right.edges[e]);
                    assert(noted(*b, right.edges[e].2));
                } else {
                }
            }
            assert forall|v: int| 0 <= v < out.states.len() implies #[trigger] out.states[v] == (if v
                < m.states.len() {
                m.states[v]
            } else {
                State::Standard
            }) by {
                if v < m1.states.len() {
                    assert(right.states[v] == m1.states[v]);
                    if v < m0.states.len() {
                        assert(left.states[v] == m0.states[v]);
                    }
                }
            }
            assert forall|e: int| 0 <= e < m.edges.len() implies #[trigger] out.edges[e]
                == m.edges[e] by {
                assert(right.edges[e] == m1.edges[e]);
                assert(left.edges[e] == m0.edges[e]);
            }
        },
        Regex::Star(a) => {
            let m0 = m.with_node(State::Standard).with_edge(entry, fresh, BranchLabel::Empty);
            let (inner, end) = fragment(m0, fresh, *a);
            lemma_fragment_extends(m0, fresh, *a);
            lemma_fragment_shape(m0, fresh, *a);
            assert forall|e: int| m.edges.len() <= e < out.edges.len() implies ((
            #[trigger] out.edges[e]).0 == entry || fresh <= out.edges[e].0 < out.states.len())
                && fresh <= out.edges[e].1 < out.states.len() && noted(
                expression,
                out.edges[e].2,
            ) by {
                if e == m.edges.len() {
                    assert(inner.edges[e] == m0.edges[e]);
                } else if e < inner.edges.len() {
                    assert(out.edges[e] == inner.edges[e]);
                    assert(noted(*a, inner.edges[e].2));
                } else {
                }
            }
            assert forall|v: int| 0 <= v < out.states.len() implies #[trigger] out.states[v] == (if v
                < m.states.len() {
                m.states[v]
            } else {
                State::Standard
            }) by {
                if v < m0.states.len() {
                    assert(inner.states[v] == m0.states[v]);
                }
            }
            assert forall|e: int| 0 <= e < m.edges.len() implies #[trigger] out.edges[e]
                == m.edges[e] by {
                assert(inner.edges[e] == m0.edges[e]);
            }
        },
    }
}

/// What extends an extension extends the automaton itself.
pub proof fn lemma_extends_chain(g: Automaton, h: Automaton, m: Automaton)
    requires
        extends(g, h),
        extends(h, m),
    ensures
        extends(g, m),
{
    assert forall|e: int| 0 <= e < m.edges.len() implies #[trigger] g.edges[e] == m.edges[e] by {
        assert(h.edges[e] == m.edges[e]);
    }
}

/// A path of an automaton is a path of what extends it, with the same word.
pub proof fn lemma_walk_extends(g: Automaton, m: Automaton, from: int, path: Seq<int>, to: int)
    requires
        extends(g, m),
        m.walk(from, path, to),
    ensures
        g.walk(from, path, to),
        g.word(path) == m.word(path),
    decreases path.len(),
{
    if path.len() > 0 {
        let e = path.last();
        assert(g.edges[e] == m.edges[e]);
        lemma_walk_extends(g, m, from, path.drop_last(), m.edges[e].0);
    }
}

/// Two paths within a range make one within it.
pub proof fn lemma_within_join(first: Seq<int>, second: Seq<int>, lo: int, hi: int)
    requires
        within(first, lo, hi),
        within(second, lo, hi),
    ensures
        within(first + second, lo, hi),
{
    assert forall|k: int| 0 <= k < (first + second).len() implies lo <= #[trigger] (first
        + second)[k] < hi by {
        if k < first.len() {
            assert((first + second)[k] == first[k]);
        } else {
            assert((first + second)[k] == second[k - first.len()]);
        }
    }
}

/// A path within a range is within every range around it.
pub proof fn lemma_within_wider(path: Seq<int>, lo: int, hi: int, lower: int, higher: int)
    requires
        within(path, lo, hi),
        lower <= lo,
        hi <= higher,
    ensures
        within(path, lower, higher),
{
}

/// A repetition's fragment has a path from the state it comes back to, to
/// its end, for every row of one or more words of the operand.
pub proof fn lemma_star_spells(
    m: Automaton,
    entry: int,
    a: Regex<char>,
    n: nat,
    w: Seq<char>,
) -> (path: Seq<int>)
    requires
        0 <= entry < m.states.len(),
        n >= 1,
        a.repeats(n, w),
    ensures
        fragment(m, entry, Regex::Star(Box::new(a))).0.walk(
            m.states.len() as int,
            path,
            fragment(m, entry, Regex::Star(Box::new(a))).1,
        ),
        fragment(m, entry, Regex::Star(Box::new(a))).0.word(path) == w,
        within(
            path,
            m.edges.len() as int + 1,
            fragment(m, entry, Regex::Star(Box::new(a))).0.edges.len() as int,
        ),
    decreases a, n + 1,
{
    let fresh = m.states.len() as int;
    let m0 = m.with_node(State::Standard).with_edge(entry, fresh, BranchLabel::Empty);
    let (inner, end) = fragment(m0, fresh, a);
    let out = inner.with_edge(end, fresh, BranchLabel::Empty);
    let back = inner.edges.len() as int;
    lemma_fragment_extends(m0, fresh, a);
    let k = choose|k: int|
        0 <= k <= w.len() && a.matches(#[trigger] w.take(k)) && a.repeats(
            (n - 1) as nat,
            w.skip(k),
        );
    let p = lemma_fragment_spells(m0, fresh, a, w.take(k));
    assert(extends(out, inner));
    lemma_walk_extends(out, inner, fresh, p, end);
    lemma_within_wider(p, m0.edges.len() as int, inner.edges.len() as int, m.edges.len() as int + 1, out.edges.len() as int);
    if n == 1 {
        assert(w.take(k) =~= w);
        p
    } else {
        let rest = lemma_star_spells(m, entry, a, (n - 1) as nat, w.skip(k));
        assert(out.edge(back));
        out.lemma_walk_push(fresh, p, back);
        out.lemma_walk_join(fresh, p.push(back), fresh, rest, end);
        assert(w.take(k) + w.skip(k) =~= w);
        assert(within(p.push(back), m.edges.len() as int + 1, out.edges.len() as int));
        lemma_within_join(p.push(back), rest, m.edges.len() as int + 1, out.edges.len() as int);
        p.push(back) + rest
    }
}

/// A fragment has a path from its entry to its end for every word that its
/// expression matches, along edges of the fragment.
pub proof fn lemma_fragment_spells(
    m: Automaton,
    entry: int,
    expression: Regex<char>,
    w: Seq<char>,
) -> (path: Seq<int>)
    requires
        0 <= entry < m.states.len(),
        expression.matches(w),
    ensures
        fragment(m, entry, expression).0.walk(entry, path, fragment(m, entry, expression).1),
        fragment(m, entry, expression).0.word(path) == w,
        within(path, m.edges.len() as int, fragment(m, entry, expression).0.edges.len() as int),
    decreases expression, 0nat,
{
    let fresh = m.states.len() as int;
    let (out, exit) = fragment(m, entry, expression);
    let none = Seq::<int>::empty();
    lemma_fragment_extends(m, entry, expression);
    match expression {
        Regex::Literal(s) => {
            let e = m.edges.len() as int;
            assert(out.walk(entry, none, entry));
            assert(out.edge(e));
            out.lemma_walk_push(entry, none, e);
            assert(out.word(none.push(e)) =~= w);
            none.push(e)
        },
        Regex::Empty => {
            let e = m.edges.len() as int;
            assert(out.walk(entry, none, entry));
            assert(out.edge(e));
            out.lemma_walk_push(entry, none, e);
            assert(out.word(none.push(e)) =~= w);
            none.push(e)
        },
        Regex::Concatenation(a, b) => {
            let (first, mid) = fragment(m, entry, *a);
            lemma_fragment_extends(m, entry, *a);
            lemma_fragment_extends(first, mid, *b);
            lemma_fragment_shape(first, mid, *b);
            let k = choose|k: int|
                0 <= k <= w.len() && a.matches(#[trigger] w.take(k)) && b.matches(w.skip(k));
            let p = lemma_fragment_spells(m, entry, *a, w.take(k));
            let q = lemma_fragment_spells(first, mid, *b, w.skip(k));
            lemma_walk_extends(out, first, entry, p, mid);
            out.lemma_walk_join(entry, p, mid, q, exit);
            assert(w.take(k) + w.skip(k) =~= w);
            lemma_within_wider(p, m.edges.len() as int, first.edges.len() as int, m.edges.len() as int, out.edges.len() as int);
            lemma_within_wider(q, first.edges.len() as int, out.edges.len() as int, m.edges.len() as int, out.edges.len() as int);
            lemma_within_join(p, q, m.edges.len() as int, out.edges.len() as int);
            p + q
        },
        Regex::Alternative(a, b) => {
            let m0 = m.with_node(State::Standard);
            let (left, end_a) = fragment(m0, entry, *a);
            let m1 = left.with_edge(end_a, fresh, BranchLabel::Empty);
            let (right, end_b) = fragment(m1, entry, *b);
            lemma_fragment_extends(m0, entry, *a);
            lemma_fragment_extends(m1, entry, *b);
            lemma_fragment_shape(m0, entry, *a);
            lemma_fragment_shape(m1, entry, *b);
            assert(extends(m1, left));
            assert(extends(out, right));
            lemma_extends_chain(right, m1, left);
            lemma_extends_chain(out, right, left);
            if a.matches(w) {
                let p = lemma_fragment_spells(m0, entry, *a, w);
                let e = left.edges.len() as int;
                lemma_walk_extends(out, left, entry, p, end_a);
                assert(out.edges[e] == m1.edges[e]);
                assert(out.edge(e));
                out.lemma_walk_push(entry, p, e);
                assert(within(p.push(e), m.edges.len() as int, out.edges.len() as int));
                p.push(e)
            } else {
                let p = lemma_fragment_spells(m1, entry, *b, w);
                let e = right.edges.len() as int;
                lemma_walk_extends(out, right, entry, p, end_b);
                assert(out.edge(e));
                out.lemma_walk_push(entry, p, e);
                assert(within(p.push(e), m.edges.len() as int, out.edges.len() as int));
                p.push(e)
            }
        },
        Regex::Star(a) => {
            let m0 = m.with_node(State::Standard).with_edge(entry, fresh, BranchLabel::Empty);
            let (inner, end) = fragment(m0, fresh, *a);
            lemma_fragment_extends(m0, fresh, *a);
            lemma_fragment_shape(m0, fresh, *a);
            let n = choose|n: nat| #[trigger] positive(n) && a.repeats(n, w);
            let q = lemma_star_spells(m, entry, *a, n, w);
            let e = m.edges.len() as int;
            assert(out.edges[e] == inner.edges[e]);
            assert(inner.edges[e] == m0.edges[e]);
            assert(out.walk(entry, none, entry));
            assert(out.edge(e));
            out.lemma_walk_push(entry, none, e);
            out.lemma_walk_join(entry, none.push(e), fresh, q, exit);
            assert(out.word(none.push(e)) =~= Seq::<char>::empty());
            assert(Seq::<char>::empty() + w =~= w);
            assert(within(none.push(e), m.edges.len() as int, out.edges.len() as int));
            lemma_within_wider(q, m.edges.len() as int + 1, out.edges.len() as int, m.edges.len() as int, out.edges.len() as int);
            lemma_within_join(none.push(e), q, m.edges.len() as int, out.edges.len() as int);
            none.push(e) + q
        },
    }
}

/// The word of two paths in a row is the two words in a row.
pub proof fn lemma_word_join(g: Automaton, first: Seq<int>, second: Seq<int>)
    ensures
        g.word(first + second) == g.word(first) + g.word(second),
    decreases second.len(),
{
    if second.len() == 0 {
        assert(first + second =~= first);
        assert(g.word(first) + g.word(second) =~= g.word(first));
    } else {
        lemma_word_join(g, first, second.drop_last());
        assert((first + second).drop_last() =~= first + second.drop_last());
        assert((first + second).last() == second.last());
        match g.edges[second.last()].2 {
            BranchLabel::Literal(c) => {
                assert((g.word(first) + g.word(second.drop_last())).push(c) =~= g.word(first)
                    + g.word(second.drop_last()).push(c));
            },
            BranchLabel::Empty => {},
        }
    }
}

/// The word of a single edge is its symbol, or empty.
pub proof fn lemma_word_single(g: Automaton, e: int)
    ensures
        g.word(seq![e]) == match g.edges[e].2 {
            BranchLabel::Literal(c) => seq![c],
            BranchLabel::Empty => Seq::<char>::empty(),
        },
{
    let path = seq![e];
    assert(path.drop_last() =~= Seq::<int>::empty());
    assert(g.word(path.drop_last()) =~= Seq::<char>::empty());
    assert(path.last() == e);
    match g.edges[e].2 {
        BranchLabel::Literal(c) => {
            assert(g.word(path) =~= seq![c]);
        },
        BranchLabel::Empty => {},
    }
}

/// What holds of the edges of an automaton in a range holds of them in
/// what extends it.
pub proof fn lemma_enclosed_extends(
    g: Automaton,
    m: Automaton,
    lo: int,
    hi: int,
    entry: int,
    first: int,
    last: int,
)
    requires
        extends(g, m),
        enclosed(m, lo, hi, entry, first, last),
        0 <= lo,
        hi <= m.edges.len(),
    ensures
        enclosed(g, lo, hi, entry, first, last),
{
    assert forall|e: int| lo <= e < hi implies ((#[trigger] g.edges[e]).0 == entry || first
        <= g.edges[e].0 < last) && first <= g.edges[e].1 < last by {
        assert(g.edges[e] == m.edges[e]);
    }
}

/// A path from `entry` to `exit` along the one edge between them is that edge.
pub proof fn lemma_single_edge(g: Automaton, entry: int, path: Seq<int>, exit: int, e: int)
    requires
        g.walk(entry, path, exit),
        within(path, e, e + 1),
        g.edges[e].0 == entry,
        g.edges[e].1 == exit,
        entry != exit,
    ensures
        path == seq![e],
{
    assert(path.len() > 0);
    let rest = path.drop_last();
    assert(path[path.len() - 1] == e);
    if rest.len() > 0 {
        assert(rest.last() == path[rest.len() - 1]);
        assert(g.walk(entry, rest, entry));
    }
    assert(path =~= seq![e]);
}

/// A path through two ranges of edges in a row, of which the second is
/// entered at `mid` only, stays in the first range, or runs in the first
/// range to `mid` and from there in the second. The result is where the path
/// enters the second range, or -1.
pub proof fn lemma_concat_split(
    g: Automaton,
    entry: int,
    path: Seq<int>,
    to: int,
    lo: int,
    cut: int,
    hi: int,
    first: int,
    mid: int,
    middle: int,
    last: int,
) -> (i: int)
    requires
        g.walk(entry, path, to),
        within(path, lo, hi),
        enclosed(g, lo, cut, entry, first, middle),
        enclosed(g, cut, hi, mid, middle, last),
        entry < first <= mid < middle <= last,
        lo <= cut <= hi,
    ensures
        i == -1 ==> within(path, lo, cut) && (to == entry || first <= to < middle),
        i != -1 ==> 0 <= i < path.len() && within(path.take(i), lo, cut) && g.walk(
            entry,
            path.take(i),
            mid,
        ) && within(path.skip(i), cut, hi) && g.walk(mid, path.skip(i), to) && middle <= to < last,
    decreases path.len(),
{
    if path.len() == 0 {
        -1
    } else {
        let e = path.last();
        let rest = path.drop_last();
        let x = g.edges[e].0;
        assert(path[path.len() - 1] == e);
        assert(within(rest, lo, hi)) by {
            assert forall|k: int| 0 <= k < rest.len() implies lo <= #[trigger] rest[k] < hi by {
                assert(rest[k] == path[k]);
            }
        }
        let j = lemma_concat_split(g, entry, rest, x, lo, cut, hi, first, mid, middle, last);
        if e < cut {
            assert(j == -1);
            assert forall|k: int| 0 <= k < path.len() implies lo <= #[trigger] path[k] < cut by {
                if k < rest.len() {
                    assert(rest[k] == path[k]);
                }
            }
            -1
        } else if j == -1 {
            let i = rest.len() as int;
            assert(x == mid);
            assert(path.take(i) =~= rest);
            assert(path.skip(i) =~= seq![e]);
            assert(g.walk(mid, Seq::<int>::empty(), mid)) by {
                g.lemma_walk_from_node(entry, rest, x);
            }
            g.lemma_walk_push(mid, Seq::<int>::empty(), e);
            assert(Seq::<int>::empty().push(e) =~= seq![e]);
            i
        } else {
            assert(path.take(j) =~= rest.take(j));
            assert(path.skip(j) =~= rest.skip(j).push(e));
            g.lemma_walk_push(mid, rest.skip(j), e);
            j
        }
    }
}

/// How a path from `entry` through the fragment of an alternative ends.
pub enum Branch {
    /// The path is empty.
    Nowhere,
    /// The path runs in the first operand.
    Left,
    /// The path runs in the second operand.
    Right,
    /// The path runs through the first operand and along the edge that joins it.
    JoinedLeft,
    /// The path runs through the second operand and along the edge that joins it.
    JoinedRight,
}

/// A path from `entry` through two ranges of edges that both start there,
/// each followed by one edge from its end to a common state `join`, runs in
/// one of the two ranges, and then perhaps along that range's edge to `join`.
pub proof fn lemma_alt_split(
    g: Automaton,
    entry: int,
    path: Seq<int>,
    to: int,
    lo: int,
    cut: int,
    hi: int,
    join: int,
    middle: int,
    last: int,
    end_a: int,
    end_b: int,
) -> (b: Branch)
    requires
        g.walk(entry, path, to),
        within(path, lo, hi + 1),
        enclosed(g, lo, cut, entry, join + 1, middle),
        enclosed(g, cut + 1, hi, entry, middle, last),
        g.edges[cut].0 == end_a,
        g.edges[cut].1 == join,
        g.edges[hi].0 == end_b,
        g.edges[hi].1 == join,
        entry < join < middle <= last,
        join < end_a < middle <= end_b < last,
        0 <= lo <= cut < hi < g.edges.len(),
    ensures
        b is Nowhere ==> path.len() == 0,
        b is Left ==> path.len() > 0 && within(path, lo, cut) && join < to < middle,
        b is Right ==> path.len() > 0 && within(path, cut + 1, hi) && middle <= to < last,
        b is JoinedLeft ==> path.len() > 0 && path.last() == cut && within(
            path.drop_last(),
            lo,
            cut,
        ) && g.walk(entry, path.drop_last(), end_a) && to == join,
        b is JoinedRight ==> path.len() > 0 && path.last() == hi && within(
            path.drop_last(),
            cut + 1,
            hi,
        ) && g.walk(entry, path.drop_last(), end_b) && to == join,
    decreases path.len(),
{
    if path.len() == 0 {
        Branch::Nowhere
    } else {
        let e = path.last();
        let rest = path.drop_last();
        let x = g.edges[e].0;
        assert(path[path.len() - 1] == e);
        assert(within(rest, lo, hi + 1)) by {
            assert forall|k: int| 0 <= k < rest.len() implies lo <= #[trigger] rest[k] < hi
                + 1 by {
                assert(rest[k] == path[k]);
            }
        }
        assert(g.walk(entry, rest, x));
        let before = lemma_alt_split(
            g,
            entry,
            rest,
            x,
            lo,
            cut,
            hi,
            join,
            middle,
            last,
            end_a,
            end_b,
        );
        if e < cut {
            assert(before is Nowhere || before is Left);
            assert forall|k: int| 0 <= k < path.len() implies lo <= #[trigger] path[k] < cut by {
                if k < rest.len() {
                    assert(rest[k] == path[k]);
                }
            }
            Branch::Left
        } else if e == cut {
            assert(before is Left);
            Branch::JoinedLeft
        } else if e < hi {
            assert(before is Nowhere || before is Right);
            assert forall|k: int| 0 <= k < path.len() implies cut + 1 <= #[trigger] path[k]
                < hi by {
                if k < rest.len() {
                    assert(rest[k] == path[k]);
                }
            }
            Branch::Right
        } else {
            assert(before is Right);
            Branch::JoinedRight
        }
    }
}

/// A path from the entry through the fragment of a repetition starts with
/// the edge to the state to come back to. From there it makes a number of
/// rounds, each through the operand and along the edge back, which spell a
/// row of words of the operand, and ends inside the operand. The result is
/// where that last part starts and the number of rounds.
pub proof fn lemma_star_split(
    m: Automaton,
    entry: int,
    a: Regex<char>,
    g: Automaton,
    path: Seq<int>,
    to: int,
) -> (found: (int, nat))
    requires
        0 <= entry < m.states.len(),
        extends(g, fragment(m, entry, Regex::Star(Box::new(a))).0),
        g.walk(entry, path, to),
        within(
            path,
            m.edges.len() as int,
            fragment(m, entry, Regex::Star(Box::new(a))).0.edges.len() as int,
        ),
        path.len() > 0,
    ensures
        1 <= found.0 <= path.len(),
        path[0] == m.edges.len(),
        a.repeats(found.1, g.word(path.subrange(1, found.0))),
        within(
            path.skip(found.0),
            m.edges.len() as int + 1,
            fragment(m, entry, Regex::Star(Box::new(a))).0.edges.len() - 1,
        ),
        g.walk(m.states.len() as int, path.skip(found.0), to),
        m.states.len() <= to < fragment(m, entry, Regex::Star(Box::new(a))).0.states.len(),
    decreases Regex::Star(Box::new(a)), path.len(),
{
    let fresh = m.states.len() as int;
    let first = m.edges.len() as int;
    let m0 = m.with_node(State::Standard).with_edge(entry, fresh, BranchLabel::Empty);
    let (inner, end) = fragment(m0, fresh, a);
    let out = inner.with_edge(end, fresh, BranchLabel::Empty);
    let back = inner.edges.len() as int;
    let none = Seq::<int>::empty();
    lemma_fragment_extends(m0, fresh, a);
    lemma_fragment_shape(m0, fresh, a);
    assert(extends(out, inner));
    lemma_extends_chain(g, out, inner);
    lemma_enclosed_extends(g, inner, first + 1, back, fresh, fresh + 1, inner.states.len() as int);
    assert(g.edges[first] == (entry, fresh, BranchLabel::<char>::Empty)) by {
        assert(g.edges[first] == inner.edges[first]);
        assert(inner.edges[first] == m0.edges[first]);
    }
    assert(g.edges[back] == (end, fresh, BranchLabel::<char>::Empty)) by {
        assert(g.edges[back] == out.edges[back]);
    }
    let e = path.last();
    let rest = path.drop_last();
    let x = g.edges[e].0;
    assert(path[path.len() - 1] == e);
    assert(g.walk(entry, rest, x));
    if rest.len() == 0 {
        assert(e == first);
        assert(path.subrange(1, 1) =~= none);
        assert(path.skip(1) =~= none);
        assert(g.walk(fresh, none, fresh));
        (1, 0)
    } else {
        assert(within(rest, first, back + 1)) by {
            assert forall|k: int| 0 <= k < rest.len() implies first <= #[trigger] rest[k] < back
                + 1 by {
                assert(rest[k] == path[k]);
            }
        }
        let (i, n) = lemma_star_split(m, entry, a, g, rest, x);
        assert(path[0] == rest[0]);
        assert(e != first);
        if e < back {
            assert(path.subrange(1, i) =~= rest.subrange(1, i));
            assert(path.skip(i) =~= rest.skip(i).push(e));
            g.lemma_walk_push(fresh, rest.skip(i), e);
            (i, n)
        } else {
            let u = rest.subrange(1, i);
            let v = rest.skip(i);
            lemma_fragment_reads(m0, fresh, a, g, v);
            a.lemma_repeats_more(n, g.word(u), g.word(v));
            lemma_word_join(g, u, v);
            let all = path.subrange(1, path.len() as int);
            assert(all =~= (u + v).push(back));
            assert(all.drop_last() =~= u + v);
            assert(g.word(all) == g.word(u + v));
            assert(path.skip(path.len() as int) =~= none);
            assert(g.walk(fresh, none, fresh));
            (path.len() as int, n + 1)
        }
    }
}

/// A path from the entry of a fragment to its end, along edges of the
/// fragment, spells a word that the expression matches.
pub proof fn lemma_fragment_reads(
    m: Automaton,
    entry: int,
    expression: Regex<char>,
    g: Automaton,
    path: Seq<int>,
)
    requires
        0 <= entry < m.states.len(),
        extends(g, fragment(m, entry, expression).0),
        g.walk(entry, path, fragment(m, entry, expression).1),
        within(path, m.edges.len() as int, fragment(m, entry, expression).0.edges.len() as int),
    ensures
        expression.matches(g.word(path)),
    decreases expression, path.len() + 1,
{
    let fresh = m.states.len() as int;
    let first = m.edges.len() as int;
    let (out, exit) = fragment(m, entry, expression);
    let none = Seq::<int>::empty();
    lemma_fragment_extends(m, entry, expression);
    match expression {
        Regex::Literal(s) => {
            assert(g.edges[first] == out.edges[first]);
            lemma_single_edge(g, entry, path, exit, first);
            lemma_word_single(g, first);
        },
        Regex::Empty => {
            assert(g.edges[first] == out.edges[first]);
            lemma_single_edge(g, entry, path, exit, first);
            lemma_word_single(g, first);
        },
        Regex::Concatenation(a, b) => {
            let (left, mid) = fragment(m, entry, *a);
            lemma_fragment_extends(m, entry, *a);
            lemma_fragment_extends(left, mid, *b);
            lemma_fragment_shape(m, entry, *a);
            lemma_fragment_shape(left, mid, *b);
            lemma_extends_chain(g, out, left);
            let cut = left.edges.len() as int;
            let hi = out.edges.len() as int;
            let middle = left.states.len() as int;
            let last = out.states.len() as int;
            lemma_enclosed_extends(g, left, first, cut, entry, fresh, middle);
            lemma_enclosed_extends(g, out, cut, hi, mid, middle, last);
            let i = lemma_concat_split(g, entry, path, exit, first, cut, hi, fresh, mid, middle, last);
            lemma_fragment_reads(m, entry, *a, g, path.take(i));
            lemma_fragment_reads(left, mid, *b, g, path.skip(i));
            lemma_word_join(g, path.take(i), path.skip(i));
            assert(path.take(i) + path.skip(i) =~= path);
            let w = g.word(path);
            let k = g.word(path.take(i)).len() as int;
            assert(w.take(k) =~= g.word(path.take(i)));
            assert(w.skip(k) =~= g.word(path.skip(i)));
        },
        Regex::Alternative(a, b) => {
            let m0 = m.with_node(State::Standard);
            let (left, end_a) = fragment(m0, entry, *a);
            let m1 = left.with_edge(end_a, fresh, BranchLabel::Empty);
            let (right, end_b) = fragment(m1, entry, *b);
            lemma_fragment_extends(m0, entry, *a);
            lemma_fragment_extends(m1, entry, *b);
            lemma_fragment_shape(m0, entry, *a);
            lemma_fragment_shape(m1, entry, *b);
            assert(extends(m1, left));
            assert(extends(out, right));
            lemma_extends_chain(g, out, right);
            lemma_extends_chain(right, m1, left);
            lemma_extends_chain(g, right, left);
            let cut = left.edges.len() as int;
            let hi = right.edges.len() as int;
            let middle = left.states.len() as int;
            let last = right.states.len() as int;
            lemma_enclosed_extends(g, left, first, cut, entry, fresh + 1, middle);
            lemma_enclosed_extends(g, right, cut + 1, hi, entry, middle, last);
            assert(g.edges[cut] == (end_a, fresh, BranchLabel::<char>::Empty)) by {
                assert(g.edges[cut] == right.edges[cut]);
                assert(right.edges[cut] == m1.edges[cut]);
            }
            assert(g.edges[hi] == (end_b, fresh, BranchLabel::<char>::Empty)) by {
                assert(g.edges[hi] == out.edges[hi]);
            }
            let branch = lemma_alt_split(
                g,
                entry,
                path,
                exit,
                first,
                cut,
                hi,
                fresh,
                middle,
                last,
                end_a,
                end_b,
            );
            match branch {
                Branch::JoinedLeft => {
                    lemma_fragment_reads(m0, entry, *a, g, path.drop_last());
                },
                Branch::JoinedRight => {
                    lemma_fragment_reads(m1, entry, *b, g, path.drop_last());
                },
                _ => {},
            }
        },
        Regex::Star(a) => {
            let m0 = m.with_node(State::Standard).with_edge(entry, fresh, BranchLabel::Empty);
            let (inner, end) = fragment(m0, fresh, *a);
            lemma_fragment_extends(m0, fresh, *a);
            assert(extends(out, inner));
            lemma_extends_chain(g, out, inner);
            assert(g.edges[first] == (entry, fresh, BranchLabel::<char>::Empty)) by {
                assert(g.edges[first] == inner.edges[first]);
                assert(inner.edges[first] == m0.edges[first]);
            }
            let (i, n) = lemma_star_split(m, entry, *a, g, path, exit);
            let head = path.take(1);
            let u = path.subrange(1, i);
            let v = path.skip(i);
            lemma_fragment_reads(m0, fresh, *a, g, v);
            a.lemma_repeats_more(n, g.word(u), g.word(v));
            lemma_word_join(g, u, v);
            lemma_word_join(g, head, u + v);
            assert(head + (u + v) =~= path);
            assert(head =~= seq![first]);
            lemma_word_single(g, first);
            assert(Seq::<char>::empty() + (g.word(u) + g.word(v)) =~= g.word(u) + g.word(v));
            assert(positive(n + 1) && a.repeats(n + 1, g.word(path)));
        },
    }
}

} // verus!
