//! Clauses and formulas, and what it means for a clause to be violated.

use crate::probability::Probability;
use crate::text::{parse_formula, parse_rows, views};
use std::collections::BTreeSet;
use vstd::prelude::*;

verus! {

/// The variable that a literal speaks of: its magnitude, a 1-based index.
pub open spec fn lit_var(l: isize) -> nat {
    if l < 0 {
        (-(l as int)) as nat
    } else {
        l as nat
    }
}

/// Whether literal `l` evaluates to true under assignment `a`, where entry
/// `v - 1` of `a` is the value of variable `v`.
pub open spec fn lit_holds(l: isize, a: Seq<bool>) -> bool {
    if l < 0 {
        !a[lit_var(l) - 1]
    } else {
        a[lit_var(l) - 1]
    }
}

/// A clause is violated when every one of its literals is false.
pub open spec fn clause_violated(c: Seq<isize>, a: Seq<bool>) -> bool {
    forall|i: int| 0 <= i < c.len() ==> !lit_holds(#[trigger] c[i], a)
}

/// The variables of a clause, literal by literal.
pub open spec fn clause_vars(c: Seq<isize>) -> Seq<usize> {
    Seq::new(c.len(), |i: int| lit_var(c[i]) as usize)
}

/// Whether clause `c` holds a literal of variable `v`.
pub open spec fn mentions(c: Seq<isize>, v: nat) -> bool {
    exists|i: int| 0 <= i < c.len() && lit_var(#[trigger] c[i]) == v
}

/// Whether two clauses have a variable in common.
pub open spec fn shares_variable(c: Seq<isize>, d: Seq<isize>) -> bool {
    exists|i: int, j: int|
        #![trigger c[i], d[j]]
        0 <= i < c.len() && 0 <= j < d.len() && lit_var(c[i]) == lit_var(d[j])
}

/// The literals of `s` in order, without zeros, each kept where it first occurs.
pub open spec fn filter_literals(s: Seq<isize>) -> Seq<isize>
    decreases s.len(),
{
    if s.len() == 0 {
        Seq::empty()
    } else {
        let kept = filter_literals(s.drop_last());
        if s.last() == 0 || kept.contains(s.last()) {
            kept
        } else {
            kept.push(s.last())
        }
    }
}

/// A clause holds no zero and no literal twice.
pub open spec fn clause_well_formed(c: Seq<isize>) -> bool {
    &&& c.no_duplicates()
    &&& forall|i: int| 0 <= i < c.len() ==> #[trigger] c[i] != 0
}

/// The mathematical content of a formula.
pub struct Formula {
    /// The clauses; the index of a clause is its id.
    pub clauses: Seq<Seq<isize>>,
    /// The number of variables.
    pub variables: nat,
    /// The common clause size, or 0.
    pub arity: nat,
}

impl Formula {
    /// Every clause is well formed and speaks of variables `1..=variables`
    /// only, and the counts fit a machine word.
    pub open spec fn wf(self) -> bool {
        &&& self.clauses.len() <= usize::MAX
        &&& self.variables <= usize::MAX
        &&& self.arity <= usize::MAX
        &&& forall|i: int| 0 <= i < self.clauses.len() ==> clause_well_formed(#[trigger] self.clauses[i])
        &&& forall|i: int, j: int|
            0 <= i < self.clauses.len() && 0 <= j < self.clauses[i].len() ==> 1 <= lit_var(
                #[trigger] self.clauses[i][j],
            ) <= self.variables
    }

    /// Which clauses are violated under `a`.
    pub open spec fn violated_under(self, a: Seq<bool>) -> Seq<bool> {
        Seq::new(self.clauses.len(), |i: int| clause_violated(self.clauses[i], a))
    }
}

/// `m` is the largest variable that occurs in `cs`, or 0 where none occurs.
pub open spec fn is_max_var(cs: Seq<Seq<isize>>, m: nat) -> bool {
    &&& forall|i: int, j: int|
        0 <= i < cs.len() && 0 <= j < cs[i].len() ==> lit_var(#[trigger] cs[i][j]) <= m
    &&& m == 0 || exists|i: int, j: int|
        0 <= i < cs.len() && 0 <= j < cs[i].len() && lit_var(#[trigger] cs[i][j]) == m
}

/// The size that all clauses have; 0 where they differ or there is none.
pub open spec fn common_arity(cs: Seq<Seq<isize>>) -> nat {
    if cs.len() > 0 && forall|i: int| 0 <= i < cs.len() ==> (#[trigger] cs[i]).len() == cs[0].len() {
        cs[0].len()
    } else {
        0
    }
}

/// The literals of the clauses listed in `ids`, one clause after the other.
pub open spec fn joined_literals(cs: Seq<Seq<isize>>, ids: Seq<usize>) -> Seq<isize>
    decreases ids.len(),
{
    if ids.len() == 0 {
        Seq::empty()
    } else {
        joined_literals(cs, ids.drop_last()) + cs[ids.last() as int]
    }
}

/// Some variable occurs in `lits` with both polarities.
pub open spec fn contradictory(lits: Set<isize>) -> bool {
    exists|a: isize, b: isize|
        #![trigger lits.contains(a), lits.contains(b)]
        lits.contains(a) && lits.contains(b) && a + b == 0
}

/// The probability that all clauses listed in `ids` are violated at once under
/// a uniformly random assignment. Formulas of 1000 clauses or more are not
/// examined: for them the result is zero.
pub open spec fn joint_probability(f: Formula, ids: Seq<usize>) -> Probability {
    let lits = joined_literals(f.clauses, ids).to_set();
    if f.clauses.len() >= 1000 || contradictory(lits) {
        Probability::Zero
    } else {
        Probability::PowerOfHalf(lits.len() as usize)
    }
}

/// The variable of a literal.
pub fn variable_of(l: isize) -> (v: usize)
    ensures
        v == lit_var(l),
{
    if l >= 0 {
        l as usize
    } else if l == isize::MIN {
        (isize::MAX as usize) + 1
    } else {
        (-l) as usize
    }
}

/// Whether `l` is among the literals `v`.
fn contains_literal(v: &Vec<isize>, l: isize) -> (found: bool)
    ensures
        found == v@.contains(l),
{
    let mut i: usize = 0;
    while i < v.len()
        invariant
            i <= v@.len(),
            forall|j: int| 0 <= j < i ==> v@[j] != l,
        decreases v@.len() - i,
    {
        if v[i] == l {
            return true;
        }
        i += 1;
    }
    false
}

/// What is kept of a list of literals is a well-formed clause of literals of
/// the list.
proof fn lemma_filter_literals_well_formed(s: Seq<isize>)
    ensures
        clause_well_formed(filter_literals(s)),
        forall|l: isize| #[trigger] filter_literals(s).contains(l) ==> s.contains(l),
    decreases s.len(),
{
    if s.len() > 0 {
        lemma_filter_literals_well_formed(s.drop_last());
        let kept = filter_literals(s.drop_last());
        assert forall|l: isize| filter_literals(s).contains(l) implies s.contains(l) by {
            if kept.contains(l) {
                assert(s.drop_last().contains(l));
                let i = choose|i: int| 0 <= i < s.drop_last().len() && s.drop_last()[i] == l;
                assert(s[i] == l);
            } else {
                assert(s[s.len() - 1] == l);
            }
        }
    }
}

/// A disjunction of literals.
#[derive(Debug)]
pub struct Clause {
    literal: Vec<isize>,
}

impl Clone for Clause {
    fn clone(&self) -> (c: Clause)
        ensures
            c@ == self@,
    {
        let literal = self.literal.clone();
        assert(literal@ =~= self.literal@);
        Clause { literal }
    }
}

impl View for Clause {
    type V = Seq<isize>;

    closed spec fn view(&self) -> Seq<isize> {
        self.literal@
    }
}

impl Clause {
    /// The clause holds no zero and no literal twice.
    pub open spec fn wf(&self) -> bool {
        clause_well_formed(self@)
    }

    /// An empty clause with room for `k` literals.
    pub fn new(k: usize) -> (c: Clause)
        ensures
            c.wf(),
            c@ == Seq::<isize>::empty(),
    {
        Clause { literal: Vec::with_capacity(k) }
    }

    /// The clause of the literals of `v`, filtered as in [`Clause::from_vec`].
    fn from_slice(v: &Vec<isize>) -> (c: Clause)
        ensures
            c.wf(),
            c@ == filter_literals(v@),
    {
        let mut literal: Vec<isize> = Vec::new();
        let mut i: usize = 0;
        while i < v.len()
            invariant
                i <= v@.len(),
                literal@ == filter_literals(v@.take(i as int)),
            decreases v@.len() - i,
        {
            let l = v[i];
            proof {
                assert(v@.take(i + 1).drop_last() =~= v@.take(i as int));
                assert(v@.take(i + 1).last() == l);
            }
            if l != 0 && !contains_literal(&literal, l) {
                literal.push(l);
            }
            i += 1;
        }
        proof {
            assert(v@.take(i as int) =~= v@);
            lemma_filter_literals_well_formed(v@);
        }
        Clause { literal }
    }

    /// The clause of the literals of `v`: zeros are dropped, and so is every
    /// literal that occurred before.
    pub fn from_vec(v: Vec<isize>) -> (c: Clause)
        ensures
            c.wf(),
            c@ == filter_literals(v@),
    {
        Clause::from_slice(&v)
    }

    /// The clause of the literals of `array`, filtered as in [`Clause::from_vec`].
    pub fn from_array<const L: usize>(array: [isize; L]) -> (c: Clause)
        ensures
            c.wf(),
            c@ == filter_literals(array@),
    {
        let mut v: Vec<isize> = Vec::with_capacity(L);
        let mut i: usize = 0;
        while i < L
            invariant
                i <= L,
                array@.len() == L,
                v@ == array@.take(i as int),
            decreases L - i,
        {
            v.push(array[i]);
            assert(v@ =~= array@.take(i + 1));
            i += 1;
        }
        assert(v@ =~= array@);
        Clause::from_slice(&v)
    }

    /// Whether every literal of the clause is false under `var`.
    pub fn check_violated(&self, var: &Vec<bool>) -> (violated: bool)
        requires
            self.wf(),
            forall|i: int| 0 <= i < self@.len() ==> lit_var(#[trigger] self@[i]) <= var@.len(),
        ensures
            violated == clause_violated(self@, var@),
    {
        let mut i: usize = 0;
        while i < self.literal.len()
            invariant
                i <= self@.len(),
                self.wf(),
                forall|j: int| 0 <= j < self@.len() ==> lit_var(#[trigger] self@[j]) <= var@.len(),
                forall|j: int| 0 <= j < i ==> !lit_holds(#[trigger] self@[j], var@),
            decreases self@.len() - i,
        {
            let l = self.literal[i];
            assert(self@[i as int] != 0);
            let pos = variable_of(l) - 1;
            let holds = if l < 0 {
                !var[pos]
            } else {
                var[pos]
            };
            if holds {
                assert(lit_holds(self@[i as int], var@));
                return false;
            }
            i += 1;
        }
        true
    }

    /// The number of literals.
    pub fn size(&self) -> (n: usize)
        ensures
            n == self@.len(),
    {
        self.literal.len()
    }

    /// The literals, in order.
    pub fn literals(&self) -> (v: &Vec<isize>)
        ensures
            v@ == self@,
    {
        &self.literal
    }

    /// The variables of the literals, in order.
    pub fn collect_varible(&self) -> (vars: Vec<usize>)
        ensures
            vars@ == clause_vars(self@),
    {
        let mut vars: Vec<usize> = Vec::with_capacity(self.literal.len());
        let mut i: usize = 0;
        while i < self.literal.len()
            invariant
                i <= self@.len(),
                vars@ == clause_vars(self@).take(i as int),
            decreases self@.len() - i,
        {
            vars.push(variable_of(self.literal[i]));
            assert(vars@ =~= clause_vars(self@).take(i + 1));
            i += 1;
        }
        assert(vars@ =~= clause_vars(self@));
        vars
    }
}

/// A formula in conjunctive normal form.
#[derive(Debug)]
pub struct SAT {
    n: usize,
    m: usize,
    k: usize,
    clause: Vec<Clause>,
}

impl Clone for SAT {
    fn clone(&self) -> (sat: SAT)
        ensures
            sat@ == self@,
            self.wf() ==> sat.wf(),
    {
        let mut clause: Vec<Clause> = Vec::with_capacity(self.clause.len());
        let mut i: usize = 0;
        while i < self.clause.len()
            invariant
                i <= self.clause@.len(),
                clause@.len() == i,
                forall|j: int| 0 <= j < i ==> (#[trigger] clause@[j])@ == self.clause@[j]@,
            decreases self.clause@.len() - i,
        {
            clause.push(self.clause[i].clone());
            i += 1;
        }
        let sat = SAT { n: self.n, m: self.m, k: self.k, clause };
        assert(sat@.clauses =~= self@.clauses);
        sat
    }
}

impl View for SAT {
    type V = Formula;

    closed spec fn view(&self) -> Formula {
        Formula {
            clauses: Seq::new(self.clause@.len(), |i: int| self.clause@[i]@),
            variables: self.m as nat,
            arity: self.k as nat,
        }
    }
}

impl SAT {
    /// The stored counts agree with the clauses.
    pub closed spec fn counts_agree(&self) -> bool {
        self.n == self.clause@.len()
    }

    /// The formula is well formed.
    pub open spec fn wf(&self) -> bool {
        self.counts_agree() && self@.wf()
    }

    /// A formula of `n` empty clauses over `m` variables with declared clause
    /// size `k`.
    pub fn new(n: usize, m: usize, k: usize) -> (sat: SAT)
        ensures
            sat.wf(),
            sat@.clauses == Seq::new(n as nat, |i: int| Seq::<isize>::empty()),
            sat@.variables == m,
            sat@.arity == k,
    {
        let mut clause: Vec<Clause> = Vec::with_capacity(n);
        let mut i: usize = 0;
        while i < n
            invariant
                i <= n,
                clause@.len() == i,
                forall|j: int| 0 <= j < i ==> (#[trigger] clause@[j])@ == Seq::<isize>::empty(),
            decreases n - i,
        {
            clause.push(Clause::new(k));
            i += 1;
        }
        let sat = SAT { n, m, k, clause };
        assert(sat@.clauses =~= Seq::new(n as nat, |i: int| Seq::<isize>::empty()));
        sat
    }

    /// The formula whose clauses are the entries of `vec`, each filtered as in
    /// [`Clause::from_vec`]. Its variable count is the largest variable that
    /// occurs, its clause size the size that all clauses share, or 0.
    #[verifier::loop_isolation(false)]
    pub fn from_vec(vec: Vec<Vec<isize>>) -> (sat: SAT)
        ensures
            sat.wf(),
            sat@.clauses.len() == vec@.len(),
            forall|i: int| 0 <= i < vec@.len() ==> #[trigger] sat@.clauses[i] == filter_literals(vec@[i]@),
            is_max_var(sat@.clauses, sat@.variables),
            sat@.arity == common_arity(sat@.clauses),
    {
        let n = vec.len();
        let mut clause: Vec<Clause> = Vec::with_capacity(n);
        let mut m: usize = 0;
        let mut k: usize = 0;
        let mut uniform: bool = true;
        let mut i: usize = 0;
        while i < n
            invariant
                i <= n,
                n == vec@.len(),
                clause@.len() == i,
                forall|j: int| 0 <= j < i ==> (#[trigger] clause@[j])@ == filter_literals(vec@[j]@),
                forall|j: int| 0 <= j < i ==> (#[trigger] clause@[j]).wf(),
                forall|a: int, b: int|
                    0 <= a < i && 0 <= b < clause@[a]@.len() ==> lit_var(#[trigger] clause@[a]@[b]) <= m,
                m == 0 || exists|a: int, b: int|
                    0 <= a < i && 0 <= b < clause@[a]@.len() && lit_var(#[trigger] clause@[a]@[b]) == m,
                i > 0 ==> k == clause@[0]@.len(),
                i == 0 ==> k == 0 && uniform,
                uniform <==> forall|j: int| 0 <= j < i ==> (#[trigger] clause@[j])@.len() == k,
            decreases n - i,
        {
            let c = Clause::from_slice(&vec[i]);
            let ghost was_uniform = uniform;
            if i == 0 {
                k = c.size();
            } else if c.size() != k {
                uniform = false;
            }
            let ghost before = clause@;
            let ghost added = c@;
            let ghost m_before = m;
            let mut j: usize = 0;
            while j < c.literal.len()
                invariant
                    j <= c@.len(),
                    m_before <= m,
                    forall|b: int| 0 <= b < j ==> lit_var(#[trigger] c@[b]) <= m,
                    m == m_before || exists|b: int| 0 <= b < j && lit_var(#[trigger] c@[b]) == m,
                decreases c@.len() - j,
            {
                let v = variable_of(c.literal[j]);
                if v > m {
                    m = v;
                }
                j += 1;
            }
            clause.push(c);
            proof {
                assert(forall|a: int| 0 <= a < i ==> #[trigger] clause@[a] == before[a]);
                assert(clause@[i as int]@ == added);
                if !uniform {
                    if was_uniform {
                        assert(clause@[i as int]@.len() != k);
                    } else {
                        let j = choose|j: int| 0 <= j < i && (#[trigger] before[j])@.len() != k;
                        assert(clause@[j]@.len() != k);
                    }
                }
                if m != 0 {
                    if m == m_before {
                        let (a, b) = choose|a: int, b: int|
                            0 <= a < i && 0 <= b < before[a]@.len() && lit_var(#[trigger] before[a]@[b])
                                == m;
                        assert(lit_var(clause@[a]@[b]) == m);
                    } else {
                        let b = choose|b: int| 0 <= b < c@.len() && lit_var(#[trigger] c@[b]) == m;
                        assert(lit_var(clause@[i as int]@[b]) == m);
                    }
                }
            }
            i += 1;
        }
        let ghost first_size = k;
        if !uniform {
            k = 0;
        }
        let sat = SAT { n, m, k, clause };
        proof {
            let cs = sat@.clauses;
            assert(forall|a: int| 0 <= a < cs.len() ==> cs[a] == clause@[a]@);
            assert(is_max_var(cs, m as nat)) by {
                if m != 0 {
                    let (a, b) = choose|a: int, b: int|
                        0 <= a < n && 0 <= b < clause@[a]@.len() && lit_var(#[trigger] clause@[a]@[b]) == m;
                    assert(lit_var(cs[a][b]) == m);
                }
            }
            assert(sat@.wf()) by {
                assert forall|a: int, b: int| 0 <= a < cs.len() && 0 <= b < cs[a].len() implies 1
                    <= lit_var(#[trigger] cs[a][b]) <= sat@.variables by {
                    assert(clause@[a].wf());
                    assert(cs[a][b] != 0);
                    assert(lit_var(clause@[a]@[b]) <= m);
                }
                assert forall|a: int| 0 <= a < cs.len() implies clause_well_formed(#[trigger] cs[a]) by {
                    assert(clause@[a].wf());
                }
            }
            assert(k == common_arity(cs)) by {
                if n > 0 {
                    assert(cs[0] == clause@[0]@);
                    assert(first_size == cs[0].len());
                }
                if n > 0 && uniform {
                    assert forall|a: int| 0 <= a < cs.len() implies (#[trigger] cs[a]).len() == cs[0].len() by {
                        assert(clause@[a]@.len() == k);
                    }
                } else if n > 0 {
                    let a = choose|a: int| 0 <= a < n && (#[trigger] clause@[a])@.len() != first_size;
                    assert(cs[a].len() != cs[0].len());
                }
            }
        }
        sat
    }

    /// The formula that a text holds: the first line is passed over, and each
    /// other line that is not empty gives a clause, written as integers parted
    /// by single spaces; see [`SAT::from_vec`] for what becomes of them. The
    /// result is `None` where a line holds anything else.
    pub fn from_text(text: &[u8]) -> (r: Option<SAT>)
        ensures
            match parse_formula(text@) {
                None => r is None,
                Some(rows) => {
                    &&& r is Some
                    &&& r->0.wf()
                    &&& r->0@.clauses.len() == rows.len()
                    &&& forall|i: int| 0 <= i < rows.len() ==> #[trigger] r->0@.clauses[i] == filter_literals(rows[i])
                    &&& is_max_var(r->0@.clauses, r->0@.variables)
                    &&& r->0@.arity == common_arity(r->0@.clauses)
                },
            },
    {
        match parse_rows(text) {
            None => None,
            Some(rows) => {
                assert(forall|i: int| 0 <= i < rows@.len() ==> #[trigger] views(rows@)[i] == rows@[i]@);
                Some(SAT::from_vec(rows))
            },
        }
    }

    /// The formula whose clauses are the rows of `array`; see [`SAT::from_vec`].
    #[verifier::loop_isolation(false)]
    pub fn from_array<const K: usize, const N: usize>(array: [[isize; K]; N]) -> (sat: SAT)
        ensures
            sat.wf(),
            sat@.clauses.len() == N,
            forall|i: int| 0 <= i < N ==> #[trigger] sat@.clauses[i] == filter_literals(array@[i]@),
            is_max_var(sat@.clauses, sat@.variables),
            sat@.arity == common_arity(sat@.clauses),
    {
        let mut vec: Vec<Vec<isize>> = Vec::with_capacity(N);
        let mut i: usize = 0;
        while i < N
            invariant
                i <= N,
                array@.len() == N,
                vec@.len() == i,
                forall|j: int| 0 <= j < i ==> (#[trigger] vec@[j])@ == array@[j]@,
            decreases N - i,
        {
            let mut row: Vec<isize> = Vec::with_capacity(K);
            let mut j: usize = 0;
            while j < K
                invariant
                    j <= K,
                    i < N,
                    array@.len() == N,
                    array@[i as int]@.len() == K,
                    row@ == array@[i as int]@.take(j as int),
                decreases K - j,
            {
                row.push(array[i][j]);
                assert(row@ =~= array@[i as int]@.take(j + 1));
                j += 1;
            }
            assert(row@ =~= array@[i as int]@);
            vec.push(row);
            i += 1;
        }
        SAT::from_vec(vec)
    }

    /// For each clause, whether it is violated under `var`.
    pub fn check_violated(&self, var: &Vec<bool>) -> (violated: Vec<bool>)
        requires
            self.wf(),
            self@.variables <= var@.len(),
        ensures
            violated@ == self@.violated_under(var@),
    {
        let mut violated: Vec<bool> = Vec::with_capacity(self.clause.len());
        let mut i: usize = 0;
        while i < self.clause.len()
            invariant
                i <= self.clause@.len(),
                self.wf(),
                self@.variables <= var@.len(),
                violated@ == self@.violated_under(var@).take(i as int),
            decreases self.clause@.len() - i,
        {
            assert(self@.clauses[i as int] == self.clause@[i as int]@);
            assert(forall|j: int|
                0 <= j < self.clause@[i as int]@.len() ==> lit_var(#[trigger] self@.clauses[i as int][j])
                    <= var@.len());
            violated.push(self.clause[i].check_violated(var));
            assert(violated@ =~= self@.violated_under(var@).take(i + 1));
            i += 1;
        }
        assert(violated@ =~= self@.violated_under(var@));
        violated
    }

    /// The probability that the clauses listed in `clauses_id` are all
    /// violated at once: zero where some variable occurs among their literals
    /// with both polarities, else one half to the power of the number of
    /// distinct literals. Formulas of 1000 clauses or more are not examined.
    #[verifier::loop_isolation(false)]
    pub fn pr_land(&self, clauses_id: &Vec<usize>) -> (p: Probability)
        requires
            self.wf(),
            forall|i: int| 0 <= i < clauses_id@.len() ==> #[trigger] clauses_id@[i] < self@.clauses.len(),
        ensures
            p == joint_probability(self@, clauses_id@),
    {
        if self.size() >= 1000 {
            return Probability::Zero;
        }
        let mut set: BTreeSet<isize> = BTreeSet::new();
        let ghost cs = self@.clauses;
        let ghost all = joined_literals(cs, clauses_id@);
        let mut i: usize = 0;
        while i < clauses_id.len()
            invariant
                i <= clauses_id@.len(),
                self.wf(),
                cs == self@.clauses,
                all == joined_literals(cs, clauses_id@),
                forall|j: int| 0 <= j < clauses_id@.len() ==> #[trigger] clauses_id@[j] < cs.len(),
                set@ == joined_literals(cs, clauses_id@.take(i as int)).to_set(),
                !contradictory(set@),
            decreases clauses_id@.len() - i,
        {
            let c = self.get_clause(clauses_id[i]);
            let ghost before = joined_literals(cs, clauses_id@.take(i as int));
            proof {
                assert(clauses_id@.take(i + 1).drop_last() =~= clauses_id@.take(i as int));
                assert(joined_literals(cs, clauses_id@.take(i + 1)) == before + c@);
                lemma_joined_prefix(cs, clauses_id@, i + 1);
            }
            let mut j: usize = 0;
            while j < c.literal.len()
                invariant
                    j <= c@.len(),
                    c.wf(),
                    set@ == (before + c@.take(j as int)).to_set(),
                    !contradictory(set@),
                    forall|l: isize| (before + c@).contains(l) ==> all.contains(l),
                decreases c@.len() - j,
            {
                let l = c.literal[j];
                assert(c@[j as int] != 0);
                assert((before + c@)[before.len() + j] == l);
                assert(all.contains(l));
                let ghost old_set = set@;
                if l != isize::MIN {
                    let neg: isize = -l;
                    if set.contains(&neg) {
                        proof {
                            let lits = all.to_set();
                            let w = choose|w: int|
                                0 <= w < (before + c@.take(j as int)).len() && (before + c@.take(
                                    j as int,
                                ))[w] == neg;
                            assert((before + c@)[w] == neg);
                            assert(lits.contains(neg) && lits.contains(l) && neg + l == 0);
                        }
                        return Probability::Zero;
                    }
                }
                set.insert(l);
                proof {
                    assert(before + c@.take(j + 1) =~= (before + c@.take(j as int)).push(l));
                    assert(set@ =~= (before + c@.take(j + 1)).to_set()) by {
                        let s0 = before + c@.take(j as int);
                        let s1 = s0.push(l);
                        assert forall|x: isize| s1.to_set().contains(x) <==> old_set.insert(l).contains(
                            x,
                        ) by {
                            if s1.contains(x) {
                                let w = choose|w: int| 0 <= w < s1.len() && s1[w] == x;
                                if w < s0.len() {
                                    assert(s0[w] == x);
                                }
                            }
                            if s0.contains(x) {
                                let w = choose|w: int| 0 <= w < s0.len() && s0[w] == x;
                                assert(s1[w] == x);
                            }
                            if x == l {
                                assert(s1[s0.len() as int] == l);
                            }
                        }
                    }
                    if contradictory(set@) {
                        let (a, b) = choose|a: isize, b: isize|
                            #![trigger set@.contains(a), set@.contains(b)]
                            set@.contains(a) && set@.contains(b) && a + b == 0;
                        assert(old_set.contains(a) || a == l);
                        assert(old_set.contains(b) || b == l);
                        assert(old_set.contains(a) && old_set.contains(b) || a == l || b == l);
                        assert(false);
                    }
                }
                j += 1;
            }
            assert(c@.take(j as int) =~= c@);
            i += 1;
        }
        proof {
            assert(clauses_id@.take(i as int) =~= clauses_id@);
        }
        Probability::PowerOfHalf(set.len())
    }

    /// The clause with the given id.
    pub fn get_clause(&self, id: usize) -> (c: &Clause)
        requires
            self.wf(),
            id < self@.clauses.len(),
        ensures
            c@ == self@.clauses[id as int],
            c.wf(),
    {
        assert(clause_well_formed(self@.clauses[id as int]));
        &self.clause[id]
    }

    /// The number of clauses.
    pub fn size(&self) -> (n: usize)
        requires
            self.wf(),
        ensures
            n == self@.clauses.len(),
    {
        self.n
    }

    /// The number of variables.
    pub fn variable_count(&self) -> (m: usize)
        ensures
            m == self@.variables,
    {
        self.m
    }

    /// The common clause size, or 0.
    pub fn clause_size(&self) -> (k: usize)
        ensures
            k == self@.arity,
    {
        self.k
    }
}

/// The literals of the first `k` listed clauses all occur among those of the
/// whole list.
pub proof fn lemma_joined_prefix(cs: Seq<Seq<isize>>, ids: Seq<usize>, k: int)
    requires
        0 <= k <= ids.len(),
    ensures
        forall|l: isize| joined_literals(cs, ids.take(k)).contains(l) ==> joined_literals(cs, ids).contains(l),
    decreases ids.len() - k,
{
    if k == ids.len() {
        assert(ids.take(k) =~= ids);
    } else {
        lemma_joined_prefix(cs, ids, k + 1);
        assert(ids.take(k + 1).drop_last() =~= ids.take(k));
        let shorter = joined_literals(cs, ids.take(k));
        let longer = joined_literals(cs, ids.take(k + 1));
        assert forall|l: isize| shorter.contains(l) implies joined_literals(cs, ids).contains(l) by {
            let w = choose|w: int| 0 <= w < shorter.len() && shorter[w] == l;
            assert(longer[w] == l);
        }
    }
}

/// The variables that occur in the clauses.
pub open spec fn occurring_variables(cs: Seq<Seq<isize>>) -> Set<int> {
    Set::new(
        |v: int|
            exists|i: int, j: int| 0 <= i < cs.len() && 0 <= j < cs[i].len() && lit_var(#[trigger] cs[i][j]) == v,
    )
}

/// The largest variable that occurs is no smaller than the number of
/// different variables that occur: where the variable count of a formula is
/// the former, it is the larger of the two.
pub proof fn lemma_distinct_variables(cs: Seq<Seq<isize>>, m: nat)
    requires
        is_max_var(cs, m),
        forall|i: int, j: int| 0 <= i < cs.len() && 0 <= j < cs[i].len() ==> #[trigger] cs[i][j] != 0,
    ensures
        occurring_variables(cs).finite(),
        occurring_variables(cs).len() <= m,
{
    let range = vstd::set_lib::set_int_range(1, (m + 1) as int);
    vstd::set_lib::lemma_int_range(1, (m + 1) as int);
    assert forall|v: int| occurring_variables(cs).contains(v) implies range.contains(v) by {
        let (i, j) = choose|i: int, j: int|
            0 <= i < cs.len() && 0 <= j < cs[i].len() && lit_var(#[trigger] cs[i][j]) == v;
        assert(cs[i][j] != 0);
        assert(lit_var(cs[i][j]) <= m);
    }
    vstd::set_lib::lemma_len_subset(occurring_variables(cs), range);
}

/// Some literal of `c` is the negation of a literal of `d`.
pub open spec fn clash(c: Seq<isize>, d: Seq<isize>) -> bool {
    exists|i: int, j: int| #![trigger c[i], d[j]] 0 <= i < c.len() && 0 <= j < d.len() && c[i] + d[j] == 0
}

/// The probability that two clauses are violated at once is zero where one
/// holds a literal and the other its negation, and else one half to the
/// power of the number of distinct literals of the two. This is stated for
/// formulas of fewer than 1000 clauses, and for clauses that do not hold a
/// literal together with its negation themselves.
pub proof fn lemma_pairwise_joint_probability(f: Formula, u: usize, v: usize)
    requires
        f.wf(),
        u < f.clauses.len(),
        v < f.clauses.len(),
        f.clauses.len() < 1000,
        !clash(f.clauses[u as int], f.clauses[u as int]),
        !clash(f.clauses[v as int], f.clauses[v as int]),
    ensures
        joint_probability(f, seq![u, v]) == if clash(f.clauses[u as int], f.clauses[v as int]) {
            Probability::Zero
        } else {
            Probability::PowerOfHalf(
                f.clauses[u as int].to_set().union(f.clauses[v as int].to_set()).len() as usize,
            )
        },
{
    let c = f.clauses[u as int];
    let d = f.clauses[v as int];
    let ids = seq![u, v];
    assert(ids.drop_last() =~= seq![u]);
    assert(seq![u].drop_last() =~= Seq::<usize>::empty());
    assert(joined_literals(f.clauses, seq![u]) =~= c) by {
        assert(joined_literals(f.clauses, Seq::<usize>::empty()) =~= Seq::<isize>::empty());
        assert(seq![u].last() == u);
    }
    assert(ids.last() == v);
    let all = joined_literals(f.clauses, ids);
    assert(all =~= c + d);
    let lits = all.to_set();
    assert(lits =~= c.to_set().union(d.to_set())) by {
        assert forall|l: isize| lits.contains(l) <==> (c.contains(l) || d.contains(l)) by {
            if all.contains(l) {
                let w = choose|w: int| 0 <= w < all.len() && all[w] == l;
                if w < c.len() {
                    assert(c[w] == l);
                } else {
                    assert(d[w - c.len()] == l);
                }
            }
            if c.contains(l) {
                let w = choose|w: int| 0 <= w < c.len() && c[w] == l;
                assert(all[w] == l);
            }
            if d.contains(l) {
                let w = choose|w: int| 0 <= w < d.len() && d[w] == l;
                assert(all[c.len() + w] == l);
            }
        }
    }
    if clash(c, d) {
        let (i, j) = choose|i: int, j: int| #![trigger c[i], d[j]] 0 <= i < c.len() && 0 <= j < d.len() && c[i] + d[j] == 0;
        assert(c.contains(c[i]) && d.contains(d[j]));
        assert(lits.contains(c[i]) && lits.contains(d[j]));
    }
    if contradictory(lits) {
        let (a, b) = choose|a: isize, b: isize|
            #![trigger lits.contains(a), lits.contains(b)]
            lits.contains(a) && lits.contains(b) && a + b == 0;
        if c.contains(a) && c.contains(b) {
            let i = choose|i: int| 0 <= i < c.len() && c[i] == a;
            let j = choose|j: int| 0 <= j < c.len() && c[j] == b;
            assert(c[i] + c[j] == 0);
            assert(clash(c, c));
        } else if d.contains(a) && d.contains(b) {
            let i = choose|i: int| 0 <= i < d.len() && d[i] == a;
            let j = choose|j: int| 0 <= j < d.len() && d[j] == b;
            assert(d[i] + d[j] == 0);
            assert(clash(d, d));
        } else if c.contains(a) {
            let i = choose|i: int| 0 <= i < c.len() && c[i] == a;
            let j = choose|j: int| 0 <= j < d.len() && d[j] == b;
            assert(c[i] + d[j] == 0);
        } else {
            let i = choose|i: int| 0 <= i < c.len() && c[i] == b;
            let j = choose|j: int| 0 <= j < d.len() && d[j] == a;
            assert(c[i] + d[j] == 0);
        }
    }
}

} // verus!
