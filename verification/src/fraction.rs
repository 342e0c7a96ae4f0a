use vstd::prelude::*;
use vstd::arithmetic::div_mod::{lemma_fundamental_div_mod, lemma_fundamental_div_mod_converse};

verus! {

/// A ratio as an exact fraction `num / den`. Where the virtual index of a
/// pass falls on the multiples of such a fraction, as it does in single
/// precision for a ratio that is a binary fraction and an input that is not
/// too long, the places and the counts of the pass are matters of whole
/// numbers.
pub struct Fraction {
    pub num: nat,
    pub den: nat,
}

impl Fraction {
    /// A ratio is positive.
    pub open spec fn wf(self) -> bool {
        self.num > 0 && self.den > 0
    }

    /// The input position of output sample `i`, rounded down: the index of
    /// its left neighbour.
    pub open spec fn index_at(self, i: nat) -> nat {
        (i * self.num) / self.den
    }

    /// Whether output sample `i` falls on an input sample.
    pub open spec fn is_whole_at(self, i: nat) -> bool {
        (i * self.num) % self.den == 0
    }

    /// How many output samples lie strictly before input position `span`.
    pub open spec fn steps_before(self, span: nat) -> nat {
        ((span * self.den + self.num - 1) / (self.num as int)) as nat
    }

    /// How many output samples lie at or before input position `span`.
    pub open spec fn steps_through(self, span: nat) -> nat {
        (span * self.den) / self.num + 1
    }

    /// The count of a pass that stops before `span`: the first position at
    /// or past `span` is the one after the last that was taken.
    pub proof fn lemma_steps_before(self, span: nat, count: nat)
        requires
            self.wf(),
            count * self.num >= span * self.den,
            count > 0 ==> (count - 1) * self.num < span * self.den,
        ensures
            self.steps_before(span) == count,
    {
        let (n, d) = (self.num as int, self.den as int);
        let x = span * d + n - 1;
        assert((count - 1) * n == count * n - n) by (nonlinear_arith);
        assert(count == 0 ==> count * n == 0) by (nonlinear_arith);
        assert(span * d >= 0) by (nonlinear_arith)
            requires
                span >= 0,
                d > 0,
        ;
        lemma_fundamental_div_mod_converse(x, n, count as int, x - count * n);
    }

    /// The count of a pass that stops before `span` rounds the quotient of
    /// span and ratio up: the last position taken lies before `span`, the
    /// next one does not.
    pub proof fn lemma_steps_before_bounds(self, span: nat)
        requires
            self.wf(),
        ensures
            self.steps_before(span) * self.num >= span * self.den,
            self.steps_before(span) > 0 ==> (self.steps_before(span) - 1) * self.num < span
                * self.den,
    {
        let (n, d) = (self.num as int, self.den as int);
        let x = span * d + n - 1;
        let c = x / n;
        assert(span * d >= 0) by (nonlinear_arith)
            requires
                span >= 0,
                d > 0,
        ;
        lemma_fundamental_div_mod(x, n);
        assert(n * c == c * n) by (nonlinear_arith);
        assert((c - 1) * n == c * n - n) by (nonlinear_arith);
        assert(c >= 0) by (nonlinear_arith)
            requires
                x >= 0,
                n > 0,
                c == x / n,
        ;
    }

    /// An output sample is made for a position exactly if the position's
    /// index lies before `span`.
    pub proof fn lemma_steps_before_counts(self, span: nat, i: nat)
        requires
            self.wf(),
        ensures
            i < self.steps_before(span) <==> self.index_at(i) < span,
    {
        let (n, d) = (self.num as int, self.den as int);
        let c = self.steps_before(span) as int;
        let k = self.index_at(i) as int;
        let rem = (i * n) % d;
        self.lemma_steps_before_bounds(span);
        lemma_fundamental_div_mod(i * n, d);
        assert(d * k == k * d) by (nonlinear_arith);
        if i < c {
            assert(i * n <= (c - 1) * n) by (nonlinear_arith)
                requires
                    i <= c - 1,
                    n > 0,
            ;
            assert(k < span) by (nonlinear_arith)
                requires
                    k * d <= i * n,
                    i * n < span * d,
                    d > 0,
            ;
        } else {
            assert(i * n >= c * n) by (nonlinear_arith)
                requires
                    i >= c,
                    n > 0,
            ;
            assert(k >= span) by (nonlinear_arith)
                requires
                    i * n == k * d + rem,
                    rem < d,
                    i * n >= span * d,
                    d > 0,
            ;
        }
    }

    /// An output sample lies at or before `span` exactly if its index lies
    /// before `span`, or on it with nothing over.
    pub proof fn lemma_steps_through_counts(self, span: nat, i: nat)
        requires
            self.wf(),
        ensures
            i < self.steps_through(span) <==> (self.index_at(i) < span || (self.index_at(i)
                == span && self.is_whole_at(i))),
            i < self.steps_through(span) ==> self.index_at(i) <= span,
    {
        let (n, d) = (self.num as int, self.den as int);
        let x = span * d;
        let c = self.steps_through(span) as int;
        let k = self.index_at(i) as int;
        let rem = (i * n) % d;
        assert(x >= 0) by (nonlinear_arith)
            requires
                x == span * d,
                span >= 0,
                d > 0,
        ;
        lemma_fundamental_div_mod(x, n);
        lemma_fundamental_div_mod(i * n, d);
        assert(n * (c - 1) == (c - 1) * n) by (nonlinear_arith);
        assert(c * n == (c - 1) * n + n) by (nonlinear_arith);
        assert(d * k == k * d) by (nonlinear_arith);
        if i < c {
            assert(i * n <= (c - 1) * n) by (nonlinear_arith)
                requires
                    i <= c - 1,
                    n > 0,
            ;
            assert(k < span || (k == span && rem == 0)) by (nonlinear_arith)
                requires
                    i * n == k * d + rem,
                    0 <= rem,
                    i * n <= span * d,
                    d > 0,
            ;
        } else {
            assert(i * n >= c * n) by (nonlinear_arith)
                requires
                    i >= c,
                    n > 0,
            ;
            assert(!(k < span || (k == span && rem == 0))) by (nonlinear_arith)
                requires
                    i * n == k * d + rem,
                    rem < d,
                    i * n > span * d,
                    d > 0,
            ;
        }
    }

    /// Where the ratio goes into `span` without remainder, the count of a
    /// pass that stops before `span` is their quotient.
    pub proof fn lemma_steps_before_exact(self, span: nat)
        requires
            self.wf(),
            (span * self.den) % self.num == 0,
        ensures
            self.steps_before(span) == (span * self.den) / self.num,
    {
        let (n, d) = (self.num as int, self.den as int);
        let x = span * d;
        let c = x / n;
        assert(x >= 0) by (nonlinear_arith)
            requires
                x == span * d,
                span >= 0,
                d > 0,
        ;
        lemma_fundamental_div_mod(x, n);
        assert(n * c == c * n) by (nonlinear_arith);
        assert((c - 1) * n == c * n - n) by (nonlinear_arith);
        assert(c >= 0) by (nonlinear_arith)
            requires
                x >= 0,
                n > 0,
                c == x / n,
        ;
        self.lemma_steps_before(span, c as nat);
    }

    /// Twice the ratio makes half as many samples, rounded up.
    pub proof fn lemma_doubling_halves(self, twice: Fraction, span: nat)
        requires
            self.wf(),
            twice.wf(),
            twice.num == 2 * self.num,
            twice.den == self.den,
        ensures
            twice.steps_before(span) == (self.steps_before(span) + 1) / 2,
    {
        let (n, d) = (self.num as int, self.den as int);
        let c = self.steps_before(span) as int;
        let h = (c + 1) / 2;
        self.lemma_steps_before_bounds(span);
        assert(h * (2 * n) >= c * n) by (nonlinear_arith)
            requires
                2 * h >= c,
                n > 0,
        ;
        if h > 0 {
            assert((h - 1) * (2 * n) <= (c - 1) * n) by (nonlinear_arith)
                requires
                    2 * (h - 1) <= c - 1,
                    n > 0,
            ;
        }
        twice.lemma_steps_before(span, h as nat);
    }

    /// With a ratio of one, every position falls on a sample.
    pub proof fn lemma_unit_ratio(self, i: nat)
        requires
            self.wf(),
            self.num == self.den,
        ensures
            self.index_at(i) == i,
            self.is_whole_at(i),
            self.steps_before(i) == i,
    {
        let n = self.num as int;
        lemma_fundamental_div_mod_converse(i * n, n, i as int, 0);
        assert((i - 1) * n < i * n) by (nonlinear_arith)
            requires
                n > 0,
        ;
        self.lemma_steps_before(i, i);
    }
}

} // verus!
