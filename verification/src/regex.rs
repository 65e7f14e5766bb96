use vstd::prelude::*;

verus! {

/// A regular expression over symbols of type `T`.
#[derive(Debug)]
pub enum Regex<T> {
    Literal(T),
    Alternative(Box<Regex<T>>, Box<Regex<T>>),
    Concatenation(Box<Regex<T>>, Box<Regex<T>>),
    Star(Box<Regex<T>>),
    Empty,
}

impl<T> Regex<T> {
    /// How tightly the outermost operator binds: alternation loosest, then
    /// concatenation, then repetition; a symbol and the empty expression are atoms.
    pub open spec fn level(self) -> int {
        match self {
            Regex::Literal(_) => 5,
            Regex::Empty => 5,
            Regex::Alternative(_, _) => 1,
            Regex::Concatenation(_, _) => 2,
            Regex::Star(_) => 3,
        }
    }

    /// The number of states that the expression adds to an automaton.
    pub open spec fn states(self) -> nat
        decreases self,
    {
        match self {
            Regex::Literal(_) => 1,
            Regex::Empty => 1,
            Regex::Alternative(a, b) => 1 + a.states() + b.states(),
            Regex::Concatenation(a, b) => a.states() + b.states(),
            Regex::Star(a) => 1 + a.states(),
        }
    }

    /// The number of transitions that the expression adds to an automaton.
    pub open spec fn transitions(self) -> nat
        decreases self,
    {
        match self {
            Regex::Literal(_) => 1,
            Regex::Empty => 1,
            Regex::Alternative(a, b) => 2 + a.transitions() + b.transitions(),
            Regex::Concatenation(a, b) => a.transitions() + b.transitions(),
            Regex::Star(a) => 2 + a.transitions(),
        }
    }

    /// The number of operators and atoms in the expression.
    pub open spec fn size(self) -> nat
        decreases self,
    {
        match self {
            Regex::Literal(_) => 1,
            Regex::Empty => 1,
            Regex::Alternative(a, b) => 1 + a.size() + b.size(),
            Regex::Concatenation(a, b) => 1 + a.size() + b.size(),
            Regex::Star(a) => 1 + a.size(),
        }
    }
}

/// `n` is one or more.
pub open spec fn positive(n: nat) -> bool {
    n >= 1
}

impl<T> Regex<T> {
    /// The symbol `t` occurs in the expression.
    pub open spec fn mentions(self, t: T) -> bool
        decreases self,
    {
        match self {
            Regex::Literal(s) => s == t,
            Regex::Empty => false,
            Regex::Alternative(a, b) => a.mentions(t) || b.mentions(t),
            Regex::Concatenation(a, b) => a.mentions(t) || b.mentions(t),
            Regex::Star(a) => a.mentions(t),
        }
    }

    /// The words of the expression, as its automaton reads them. A symbol
    /// matches itself, the empty expression the empty word, a concatenation
    /// a word of the first operand followed by one of the second, an
    /// alternative the words of either operand. A repetition matches one or
    /// more words of its operand in a row: the fragment built for it is left
    /// at the operand's end, so the empty word is matched only where the
    /// operand matches it.
    pub open spec fn matches(self, w: Seq<T>) -> bool
        decreases self, 0nat,
    {
        match self {
            Regex::Literal(s) => w == seq![s],
            Regex::Empty => w.len() == 0,
            Regex::Alternative(a, b) => a.matches(w) || b.matches(w),
            Regex::Concatenation(a, b) => exists|k: int|
                0 <= k <= w.len() && a.matches(#[trigger] w.take(k)) && b.matches(w.skip(k)),
            Regex::Star(a) => exists|n: nat| #[trigger] positive(n) && a.repeats(n, w),
        }
    }

    /// `w` is `n` words in a row, each matched by the expression.
    pub open spec fn repeats(self, n: nat, w: Seq<T>) -> bool
        decreases self, n + 1,
    {
        if n == 0 {
            w.len() == 0
        } else {
            exists|k: int|
                0 <= k <= w.len() && self.matches(#[trigger] w.take(k)) && self.repeats(
                    (n - 1) as nat,
                    w.skip(k),
                )
        }
    }

    /// A row of matched words goes on with one more.
    pub proof fn lemma_repeats_more(self, n: nat, u: Seq<T>, v: Seq<T>)
        requires
            self.repeats(n, u),
            self.matches(v),
        ensures
            self.repeats(n + 1, u + v),
        decreases n,
    {
        let w = u + v;
        if n == 0 {
            assert(w.take(v.len() as int) =~= v);
            assert(w.skip(v.len() as int) =~= Seq::<T>::empty());
            assert(self.repeats(0, w.skip(v.len() as int)));
        } else {
            let k = choose|k: int|
                0 <= k <= u.len() && self.matches(#[trigger] u.take(k)) && self.repeats(
                    (n - 1) as nat,
                    u.skip(k),
                );
            self.lemma_repeats_more((n - 1) as nat, u.skip(k), v);
            assert(w.take(k) =~= u.take(k));
            assert(w.skip(k) =~= u.skip(k) + v);
        }
    }
}

/// One more than the most states, or transitions, that are counted exactly.
pub const COUNT_LIMIT: u64 = 0x1_0000_0000;

impl<T> Regex<T> {
    /// The number of states that the expression adds, or `COUNT_LIMIT` where
    /// it adds that many or more.
    pub fn count_states(&self) -> (n: u64)
        ensures
            n == if self.states() < COUNT_LIMIT { self.states() } else { COUNT_LIMIT as nat },
        decreases *self,
    {
        let n: u64 = match self {
            Regex::Literal(_) => 1,
            Regex::Empty => 1,
            Regex::Alternative(a, b) => 1 + a.count_states() + b.count_states(),
            Regex::Concatenation(a, b) => a.count_states() + b.count_states(),
            Regex::Star(a) => 1 + a.count_states(),
        };
        if n < COUNT_LIMIT { n } else { COUNT_LIMIT }
    }

    /// The number of transitions that the expression adds, or `COUNT_LIMIT`
    /// where it adds that many or more.
    pub fn count_transitions(&self) -> (n: u64)
        ensures
            n == if self.transitions() < COUNT_LIMIT { self.transitions() } else { COUNT_LIMIT as nat },
        decreases *self,
    {
        let n: u64 = match self {
            Regex::Literal(_) => 1,
            Regex::Empty => 1,
            Regex::Alternative(a, b) => 2 + a.count_transitions() + b.count_transitions(),
            Regex::Concatenation(a, b) => a.count_transitions() + b.count_transitions(),
            Regex::Star(a) => 2 + a.count_transitions(),
        };
        if n < COUNT_LIMIT { n } else { COUNT_LIMIT }
    }
}

impl<T: Copy> Regex<T> {
    /// How tightly the outermost operator binds.
    pub fn precedence(&self) -> (p: i32)
        ensures
            p == self.level(),
    {
        match self {
            Regex::Literal(_) => 5,
            Regex::Empty => 5,
            Regex::Alternative(_, _) => 1,
            Regex::Concatenation(_, _) => 2,
            Regex::Star(_) => 3,
        }
    }

    /// A deep copy of the expression.
    pub fn duplicate(&self) -> (copy: Self)
        ensures
            copy == *self,
        decreases *self,
    {
        match self {
            Regex::Literal(s) => Regex::Literal(*s),
            Regex::Empty => Regex::Empty,
            Regex::Alternative(a, b) => Regex::Alternative(
                Box::new(a.duplicate()),
                Box::new(b.duplicate()),
            ),
            Regex::Concatenation(a, b) => Regex::Concatenation(
                Box::new(a.duplicate()),
                Box::new(b.duplicate()),
            ),
            Regex::Star(a) => Regex::Star(Box::new(a.duplicate())),
        }
    }

    /// The repetition of `self`.
    pub fn star(&self) -> (r: Self)
        ensures
            r == Regex::Star(Box::new(*self)),
    {
        Regex::Star(Box::new(self.duplicate()))
    }

    /// `self` followed by `other`.
    pub fn concatenate(&self, other: &Self) -> (r: Self)
        ensures
            r == Regex::Concatenation(Box::new(*self), Box::new(*other)),
    {
        Regex::Concatenation(Box::new(self.duplicate()), Box::new(other.duplicate()))
    }

    /// Either `self` or `other`.
    pub fn alternate(&self, other: &Self) -> (r: Self)
        ensures
            r == Regex::Alternative(Box::new(*self), Box::new(*other)),
    {
        Regex::Alternative(Box::new(self.duplicate()), Box::new(other.duplicate()))
    }
}

impl<T: Copy> Clone for Regex<T> {
    fn clone(&self) -> (copy: Self)
        ensures
            copy == *self,
    {
        self.duplicate()
    }
}

/// `String::push`: appends one character to the end of the string.
#[verifier::external_body]
pub(crate) fn push_char(out: &mut String, c: char)
    ensures
        final(out)@ == old(out)@.push(c),
{
    out.push(c)
}

impl Regex<char> {
    /// The expression in the usual notation: `|` between alternatives, operands
    /// of a concatenation side by side, `*` after a repeated operand, the
    /// letter epsilon for the empty expression.
    pub open spec fn text(self) -> Seq<char>
        decreases self, 0nat,
    {
        match self {
            Regex::Literal(c) => seq![c],
            Regex::Alternative(a, b) => a.operand(1) + seq!['|'] + b.operand(1),
            Regex::Concatenation(a, b) => a.operand(2) + b.operand(2),
            Regex::Star(a) => a.operand(3) + seq!['*'],
            Regex::Empty => seq!['\u{3b5}'],
        }
    }

    /// The text of `self` as an operand of an operator that binds at `level`:
    /// in parentheses where `self` binds more loosely.
    pub open spec fn operand(self, level: int) -> Seq<char>
        decreases self, 1nat,
    {
        if self.level() >= level {
            self.text()
        } else {
            seq!['('] + self.text() + seq![')']
        }
    }

    fn write_operand(&self, level: i32, out: &mut String)
        ensures
            final(out)@ == old(out)@ + self.operand(level as int),
        decreases *self, 1nat,
    {
        if self.precedence() >= level {
            self.write_text(out);
        } else {
            push_char(out, '(');
            self.write_text(out);
            push_char(out, ')');
        }
    }

    fn write_text(&self, out: &mut String)
        ensures
            final(out)@ == old(out)@ + self.text(),
        decreases *self, 0nat,
    {
        match self {
            Regex::Literal(c) => {
                push_char(out, *c);
            },
            Regex::Alternative(a, b) => {
                a.write_operand(1, out);
                push_char(out, '|');
                b.write_operand(1, out);
            },
            Regex::Concatenation(a, b) => {
                a.write_operand(2, out);
                b.write_operand(2, out);
            },
            Regex::Star(a) => {
                a.write_operand(3, out);
                push_char(out, '*');
            },
            Regex::Empty => {
                push_char(out, '\u{3b5}');
            },
        }
    }

    /// The expression as text.
    pub fn to_string(&self) -> (s: String)
        ensures
            s@ == self.text(),
    {
        let mut out = String::new();
        self.write_text(&mut out);
        out
    }
}

} // verus!
