//! Probabilities that are zero or a negative power of two, compared exactly.

use vstd::prelude::*;
use vstd::arithmetic::power2::*;

verus! {

/// A probability that is either zero or a negative power of two.
#[derive(Clone, Copy, Debug)]
pub enum Probability {
    /// The impossible event.
    Zero,
    /// `PowerOfHalf(e)` stands for `2^-e`.
    PowerOfHalf(usize),
}

impl Probability {
    /// Numerator of the probability written as a fraction.
    pub open spec fn numerator(self) -> nat {
        match self {
            Probability::Zero => 0,
            Probability::PowerOfHalf(_) => 1,
        }
    }

    /// Denominator of the probability written as a fraction; always positive.
    pub open spec fn denominator(self) -> nat {
        match self {
            Probability::Zero => 1,
            Probability::PowerOfHalf(e) => pow2(e as nat),
        }
    }

    /// `self <= other` as rational numbers.
    pub open spec fn le(self, other: Probability) -> bool {
        self.numerator() * other.denominator() <= other.numerator() * self.denominator()
    }

    /// `self < other` as rational numbers.
    pub open spec fn lt(self, other: Probability) -> bool {
        self.numerator() * other.denominator() < other.numerator() * self.denominator()
    }

    /// Whether the probability is zero.
    pub fn is_zero(&self) -> (r: bool)
        ensures
            r == (self.numerator() == 0),
    {
        match self {
            Probability::Zero => true,
            Probability::PowerOfHalf(_) => false,
        }
    }

    /// Strict comparison of two probabilities by value.
    pub fn less_than(&self, other: &Probability) -> (r: bool)
        ensures
            r == self.lt(*other),
    {
        proof {
            lemma_order_by_exponent(*self, *other);
        }
        match (self, other) {
            (Probability::Zero, Probability::Zero) => false,
            (Probability::Zero, Probability::PowerOfHalf(_)) => true,
            (Probability::PowerOfHalf(_), Probability::Zero) => false,
            (Probability::PowerOfHalf(a), Probability::PowerOfHalf(b)) => *a > *b,
        }
    }
}

/// Every probability lies in `[0, 1]`, and a power of one half lies in `(0, 1]`.
pub proof fn lemma_probability_range(p: Probability)
    ensures
        0 < p.denominator(),
        p.numerator() <= p.denominator(),
        p is PowerOfHalf ==> 0 < p.numerator(),
{
    if let Probability::PowerOfHalf(e) = p {
        lemma_pow2_pos(e as nat);
    }
}

/// Powers of one half are ordered against their exponents, and zero lies
/// strictly below each of them.
pub proof fn lemma_order_by_exponent(p: Probability, q: Probability)
    ensures
        p is Zero ==> p.le(q),
        p is Zero && q is PowerOfHalf ==> p.lt(q),
        q is Zero ==> !p.lt(q),
        p is PowerOfHalf && q is Zero ==> !p.le(q),
        p is PowerOfHalf && q is PowerOfHalf ==> (p.le(q) <==> p->0 >= q->0) && (p.lt(q) <==> p->0
            > q->0),
{
    lemma_probability_range(p);
    lemma_probability_range(q);
    let (pn, pd) = (p.numerator(), p.denominator());
    let (qn, qd) = (q.numerator(), q.denominator());
    assert(pn == 0 ==> pn * qd == 0) by (nonlinear_arith);
    assert(qn == 0 ==> qn * pd == 0) by (nonlinear_arith);
    assert(pn == 1 ==> pn * qd == qd) by (nonlinear_arith);
    assert(qn == 1 ==> qn * pd == pd) by (nonlinear_arith);
    if let Probability::PowerOfHalf(a) = p {
        if let Probability::PowerOfHalf(b) = q {
            if a < b {
                lemma_pow2_strictly_increases(a as nat, b as nat);
            } else if b < a {
                lemma_pow2_strictly_increases(b as nat, a as nat);
            }
        }
    }
}

/// `max` is the largest entry of `p`, or zero where `p` is empty.
pub open spec fn is_max_of(p: Seq<Probability>, max: Probability) -> bool {
    &&& forall|i: int| 0 <= i < p.len() ==> (#[trigger] p[i]).le(max)
    &&& if p.len() == 0 {
        max == Probability::Zero
    } else {
        exists|i: int| 0 <= i < p.len() && #[trigger] p[i] == max
    }
}

/// The order of probabilities is transitive.
pub proof fn lemma_le_transitive(a: Probability, b: Probability, c: Probability)
    requires
        a.le(b),
        b.le(c),
    ensures
        a.le(c),
{
    lemma_order_by_exponent(a, b);
    lemma_order_by_exponent(b, c);
    lemma_order_by_exponent(a, c);
}

/// The largest entry of `p`, or zero where `p` is empty.
pub fn max_probability(p: &Vec<Probability>) -> (max: Probability)
    ensures
        is_max_of(p@, max),
{
    let mut max = Probability::Zero;
    let mut i: usize = 0;
    while i < p.len()
        invariant
            i <= p@.len(),
            is_max_of(p@.take(i as int), max),
        decreases p@.len() - i,
    {
        let ghost before = max;
        let ghost shorter = p@.take(i as int);
        let ghost longer = p@.take(i + 1);
        if i == 0 || max.less_than(&p[i]) {
            max = p[i];
        }
        proof {
            lemma_order_by_exponent(before, p@[i as int]);
            lemma_order_by_exponent(p@[i as int], before);
            lemma_order_by_exponent(max, max);
            assert(longer[i as int] == p@[i as int]);
            assert forall|j: int| 0 <= j < longer.len() implies (#[trigger] longer[j]).le(max) by {
                if j < i {
                    assert(shorter[j] == longer[j]);
                    assert(shorter[j].le(before));
                    lemma_le_transitive(longer[j], before, max);
                }
            }
            if max == before && i > 0 {
                let w = choose|w: int| 0 <= w < shorter.len() && #[trigger] shorter[w] == before;
                assert(longer[w] == max);
            }
        }
        i += 1;
    }
    assert(p@.take(i as int) =~= p@);
    max
}

} // verus!
