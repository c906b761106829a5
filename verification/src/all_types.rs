use vstd::prelude::*;
use vstd::std_specs::iter::IteratorSpec;

verus! {

/// A propositional variable, identified by its index.
#[derive(Debug, Default, PartialEq, Eq, PartialOrd, Ord, Hash, Clone, Copy, Structural)]
pub struct Var(pub u32);

impl Var {
    /// The index of the variable as a mathematical integer.
    pub open spec fn id(self) -> int {
        self.0 as int
    }

    /// The variable with index `x`.
    pub fn from_id(x: usize) -> (v: Var)
        requires
            x <= u32::MAX,
        ensures
            v.id() == x,
    {
        Var(x as u32)
    }
}

/// A literal: a variable with a polarity, held as `2 * variable + polarity`,
/// where polarity 1 means negated.
#[derive(Debug, Default, PartialEq, Eq, PartialOrd, Ord, Hash, Clone, Copy, Structural)]
pub struct Lit(u32);

impl Lit {
    /// The code of the literal: twice the variable's index, plus one if negated.
    pub closed spec fn code(self) -> int {
        self.0 as int
    }

    /// The index of the literal's variable.
    pub open spec fn var_id(self) -> int {
        self.code() / 2
    }

    /// Whether the literal is the negation of its variable.
    pub open spec fn negated(self) -> bool {
        self.code() % 2 == 1
    }

    /// The literal of opposite polarity on the same variable.
    pub open spec fn complement(self) -> Lit {
        Lit::of_code(if self.negated() { self.code() - 1 } else { self.code() + 1 })
    }

    /// The literal with the given code.
    pub closed spec fn of_code(c: int) -> Lit {
        Lit(c as u32)
    }

    /// The literal on variable `v`, negated if `neg`.
    pub open spec fn make(v: int, neg: bool) -> Lit {
        Lit::of_code(2 * v + if neg { 1int } else { 0int })
    }

    /// The code of a literal fits in 32 bits.
    pub broadcast proof fn lemma_code_range(self)
        ensures
            0 <= #[trigger] self.code() <= u32::MAX,
    {
    }

    /// The literal with a code that fits in 32 bits has that code.
    pub broadcast proof fn lemma_of_code(c: int)
        requires
            0 <= c <= u32::MAX,
        ensures
            (#[trigger] Lit::of_code(c)).code() == c,
    {
    }

    /// A literal is determined by its code.
    pub proof fn lemma_code_injective(a: Lit, b: Lit)
        requires
            a.code() == b.code(),
        ensures
            a == b,
    {
    }

    /// Complementing keeps the variable, flips the polarity, and undoes itself.
    pub broadcast proof fn lemma_complement(self)
        ensures
            (#[trigger] self.complement()).var_id() == self.var_id(),
            self.complement().negated() == !self.negated(),
            self.complement().complement() == self,
            self.complement() != self,
    {
    }

    /// A literal built from a variable and a polarity has that variable and polarity.
    pub broadcast proof fn lemma_make(v: int, neg: bool)
        requires
            0 <= v <= 0x7fff_ffff,
        ensures
            (#[trigger] Lit::make(v, neg)).var_id() == v,
            Lit::make(v, neg).negated() == neg,
    {
    }

    /// A literal is determined by its variable and its polarity.
    pub proof fn lemma_same(a: Lit, b: Lit)
        requires
            a.var_id() == b.var_id(),
            a.negated() == b.negated(),
        ensures
            a == b,
    {
    }

    /// The variable of a literal fits in 31 bits.
    pub broadcast proof fn lemma_var_range(self)
        ensures
            0 <= #[trigger] self.var_id() <= 0x7fff_ffff,
    {
    }

    /// The variable of the literal.
    #[inline]
    pub fn get_var(self) -> (v: Var)
        ensures
            v.id() == self.var_id(),
    {
        let c: u32 = self.0;
        assert(c >> 1 == c / 2) by (bit_vector);
        Var(c >> 1)
    }

    /// Whether the literal is its variable, not negated.
    #[inline]
    pub fn is_pos(&self) -> (b: bool)
        ensures
            b == !self.negated(),
    {
        let c: u32 = self.0;
        assert((c & 1 == 0) == (c % 2 == 0)) by (bit_vector);
        c & 1 == 0
    }

    /// Whether the literal is the negation of its variable.
    #[inline]
    pub fn is_neg(&self) -> (b: bool)
        ensures
            b == self.negated(),
    {
        let c: u32 = self.0;
        assert((c & 1 != 0) == (c % 2 == 1)) by (bit_vector);
        c & 1 != 0
    }

    /// The literal with the given code.
    #[inline]
    pub fn from_code(code: u32) -> (l: Lit)
        ensures
            l.code() == code,
            l == Lit::of_code(code as int),
    {
        Lit(code)
    }

    /// The code of the literal.
    #[inline]
    pub fn to_code(self) -> (code: u32)
        ensures
            code == self.code(),
    {
        self.0
    }

    /// The position of the literal in a table with two slots per variable.
    #[inline]
    pub fn index(self) -> (i: usize)
        ensures
            i == self.code(),
    {
        self.0 as usize
    }

    /// Reads a literal from a non-zero signed integer: `i` stands for variable
    /// `|i| - 1`, negated when `i` is negative.
    #[inline]
    pub fn from(x: i32) -> (l: Lit)
        requires
            x != 0,
        ensures
            l == Lit::make(if x > 0 { x - 1 } else { -x - 1 }, x < 0),
    {
        let d: u32 = if x > 0 {
            (x - 1) as u32
        } else {
            (-(x + 1)) as u32
        };
        assert(d <= 0x7fff_ffffu32 ==> d << 1 == 2 * d) by (bit_vector);
        if x > 0 {
            Lit(d << 1)
        } else {
            Lit((d << 1) + 1)
        }
    }
}

impl vstd::std_specs::ops::NotSpecImpl for Lit {
    open spec fn obeys_not_spec() -> bool {
        true
    }

    open spec fn not_req(self) -> bool {
        true
    }

    open spec fn not_spec(self) -> Lit {
        self.complement()
    }
}

impl std::ops::Not for Lit {
    type Output = Self;

    #[inline]
    fn not(self) -> (r: Self) {
        let c: u32 = self.0;
        assert(c ^ 1 == if c % 2 == 1 { (c - 1) as u32 } else { (c + 1) as u32 }) by (bit_vector);
        Lit(c ^ 1)
    }
}

/// A clause: a disjunction of literals.
pub type Clause = Vec<Lit>;

/// A truth value of a variable, literal, clause or formula under a partial assignment.
#[derive(PartialEq, Eq, Debug, Copy, Clone, Structural)]
pub enum BoolValue {
    True,
    False,
    Undefined,
}

impl BoolValue {
    /// The opposite truth value; `Undefined` stays `Undefined`.
    pub open spec fn negation(self) -> BoolValue {
        match self {
            BoolValue::True => BoolValue::False,
            BoolValue::False => BoolValue::True,
            BoolValue::Undefined => BoolValue::Undefined,
        }
    }

    /// The truth value with the given number: 0 is true, 1 is false, anything else undefined.
    pub open spec fn of_number(x: int) -> BoolValue {
        if x == 0 {
            BoolValue::True
        } else if x == 1 {
            BoolValue::False
        } else {
            BoolValue::Undefined
        }
    }

    /// The value that a literal of the given polarity gives its variable when it is made true.
    pub open spec fn of_polarity(neg: bool) -> BoolValue {
        if neg {
            BoolValue::False
        } else {
            BoolValue::True
        }
    }

    /// Executable form of [`BoolValue::of_polarity`].
    pub fn from_polarity(neg: bool) -> (b: BoolValue)
        ensures
            b == BoolValue::of_polarity(neg),
    {
        if neg {
            BoolValue::False
        } else {
            BoolValue::True
        }
    }
}

impl vstd::std_specs::convert::FromSpecImpl<i8> for BoolValue {
    open spec fn obeys_from_spec() -> bool {
        true
    }

    open spec fn from_spec(x: i8) -> BoolValue {
        BoolValue::of_number(x as int)
    }
}

impl From<i8> for BoolValue {
    #[inline]
    fn from(x: i8) -> (b: Self) {
        match x {
            0 => BoolValue::True,
            1 => BoolValue::False,
            _ => BoolValue::Undefined,
        }
    }
}

impl vstd::std_specs::ops::NotSpecImpl for BoolValue {
    open spec fn obeys_not_spec() -> bool {
        true
    }

    open spec fn not_req(self) -> bool {
        true
    }

    open spec fn not_spec(self) -> BoolValue {
        self.negation()
    }
}

impl std::ops::Not for BoolValue {
    type Output = Self;

    #[inline]
    fn not(self) -> (r: Self) {
        match self {
            Self::True => Self::False,
            Self::False => Self::True,
            Self::Undefined => Self::Undefined,
        }
    }
}

/// A formula in conjunctive normal form over the variables `0 .. var_num`.
#[derive(Debug, Clone)]
pub struct Cnf {
    pub var_num: usize,
    pub cl_num: usize,
    pub clauses: Vec<Vec<Lit>>,
}

/// The clauses of a formula as sequences of literals.
pub open spec fn clauses_view(clauses: Seq<Vec<Lit>>) -> Seq<Seq<Lit>> {
    Seq::new(clauses.len(), |i: int| clauses[i]@)
}

/// Every literal of the clause is on a variable below `n`.
pub open spec fn clause_in_range(c: Seq<Lit>, n: int) -> bool {
    forall|j: int| 0 <= j < c.len() ==> (#[trigger] c[j]).var_id() < n
}

/// Every literal of the formula is on a variable below `n`.
pub open spec fn formula_in_range(f: Seq<Seq<Lit>>, n: int) -> bool {
    forall|i: int| 0 <= i < f.len() ==> clause_in_range(#[trigger] f[i], n)
}

/// The largest number of variables a formula may declare.
pub const MAX_VARS: usize = 0x7fff_ffff;

/// The largest number of clauses a formula may hold.
pub const MAX_CLAUSES: usize = 0x7fff_ffff;

impl Cnf {
    /// The clauses of the formula.
    pub open spec fn formula(&self) -> Seq<Seq<Lit>> {
        clauses_view(self.clauses@)
    }

    /// The formula declares at most `MAX_VARS` variables, holds at most
    /// `MAX_CLAUSES` clauses, and names no variable that it does not declare.
    pub open spec fn wf(&self) -> bool {
        &&& self.var_num <= MAX_VARS
        &&& self.clauses@.len() <= MAX_CLAUSES
        &&& formula_in_range(self.formula(), self.var_num as int)
    }

    /// Tests whether the formula is well formed.
    pub fn is_well_formed(&self) -> (b: bool)
        ensures
            b == self.wf(),
    {
        if self.var_num > MAX_VARS || self.clauses.len() > MAX_CLAUSES {
            return false;
        }
        let mut i: usize = 0;
        while i < self.clauses.len()
            invariant
                i <= self.clauses.len(),
                forall|k: int| 0 <= k < i ==> clause_in_range(#[trigger] self.formula()[k], self.var_num as int),
            decreases self.clauses.len() - i,
        {
            let clause = &self.clauses[i];
            let mut j: usize = 0;
            while j < clause.len()
                invariant
                    j <= clause.len(),
                    i < self.clauses.len(),
                    clause == &self.clauses[i as int],
                    forall|k: int| 0 <= k < j ==> (#[trigger] clause@[k]).var_id() < self.var_num,
                decreases clause.len() - j,
            {
                if clause[j].get_var().0 as usize >= self.var_num {
                    assert(self.formula()[i as int][j as int].var_id() >= self.var_num);
                    return false;
                }
                j += 1;
            }
            assert(self.formula()[i as int] == clause@);
            i += 1;
        }
        true
    }
}

/// A clause borrowed from a formula, together with the variable of its first
/// positive literal, if it has one.
#[derive(Debug, Clone, PartialEq, Eq)]
pub struct CClause<'a> {
    clause: &'a Vec<Lit>,
    pub pos: Option<Var>,
}

impl<'a> CClause<'a> {
    /// The literals of the clause.
    pub closed spec fn lits(&self) -> Seq<Lit> {
        self.clause@
    }

    /// The variable recorded with the clause.
    pub closed spec fn positive(&self) -> Option<Var> {
        self.pos
    }

    /// The clause `clause` with the variable `pos` recorded with it.
    pub fn new<'b: 'a>(clause: &'b Vec<Lit>, pos: Option<Var>) -> (c: Self)
        ensures
            c.lits() == clause@,
            c.positive() == pos,
    {
        CClause { clause, pos }
    }

    /// The variable recorded with the clause.
    pub fn get_pos(&self) -> (p: Option<Var>)
        ensures
            p == self.positive(),
    {
        self.pos
    }

    /// The number of literals of the clause.
    pub fn len(&self) -> (n: usize)
        ensures
            n == self.lits().len(),
    {
        self.clause.len()
    }

    /// The literal at position `j`.
    pub fn get(&self, j: usize) -> (l: Lit)
        requires
            j < self.lits().len(),
        ensures
            l == self.lits()[j as int],
    {
        self.clause[j]
    }

    /// The literals of the clause, in order.
    pub fn iter(&self) -> (it: std::slice::Iter<'_, Lit>)
        ensures
            it.remaining() == self.lits().as_ref(),
    {
        self.clause.iter()
    }
}

/// The clauses of a formula, each borrowed.
#[derive(Debug, Default, Clone)]
pub struct CAllClauses<'a> {
    pub clauses: Vec<CClause<'a>>,
}

impl<'a> CAllClauses<'a> {
    /// The given clauses as the clauses of a formula.
    pub fn new(clauses: Vec<CClause<'a>>) -> (a: Self)
        ensures
            a.clauses == clauses,
    {
        CAllClauses { clauses }
    }
}

/// A store of clauses, each known by the position at which it was added.
#[derive(Debug, Default, Clone)]
pub struct AllClauses {
    pub clauses: Vec<Clause>,
}

impl AllClauses {
    /// The clauses of the store, in the order in which they were added.
    pub open spec fn formula(&self) -> Seq<Seq<Lit>> {
        clauses_view(self.clauses@)
    }

    /// Adds a clause after the clauses there are.
    pub fn push(&mut self, clause: Clause)
        ensures
            final(self).clauses@ == old(self).clauses@.push(clause),
            final(self).formula() == old(self).formula().push(clause@),
    {
        self.clauses.push(clause);
        assert(self.formula() =~= old(self).formula().push(clause@));
    }

    /// The number of clauses in the store.
    pub fn len(&self) -> (n: usize)
        ensures
            n == self.clauses@.len(),
            n == self.formula().len(),
    {
        self.clauses.len()
    }

    /// Whether the store holds no clause.
    #[allow(dead_code)]
    pub fn is_empty(&self) -> (b: bool)
        ensures
            b == (self.formula().len() == 0),
    {
        self.clauses.is_empty()
    }
}

/// For each literal, the positions in the clause store of the clauses that
/// watch it.
#[derive(Debug)]
pub struct Watcher {
    lit_to_clauses: Vec<Vec<usize>>,
}

impl Watcher {
    /// The number of literals the watcher has a list for.
    pub closed spec fn num_lits(&self) -> nat {
        self.lit_to_clauses.len() as nat
    }

    /// The clauses that watch the literal with code `code`, oldest first.
    pub closed spec fn watching(&self, code: int) -> Seq<usize> {
        self.lit_to_clauses[code]@
    }

    /// A watcher for `var_num` variables in which no clause watches any literal.
    pub fn new(var_num: usize) -> (w: Self)
        requires
            var_num <= MAX_VARS,
        ensures
            w.num_lits() == 2 * var_num,
            forall|c: int| 0 <= c < 2 * var_num ==> (#[trigger] w.watching(c)).len() == 0,
    {
        let mut lit_to_clauses: Vec<Vec<usize>> = Vec::new();
        let mut i: usize = 0;
        while i < var_num * 2
            invariant
                var_num <= MAX_VARS,
                i <= var_num * 2,
                lit_to_clauses.len() == i,
                forall|c: int| 0 <= c < i ==> (#[trigger] lit_to_clauses[c]).len() == 0,
            decreases var_num * 2 - i,
        {
            lit_to_clauses.push(Vec::new());
            i += 1;
        }
        Watcher { lit_to_clauses }
    }

    /// Records that the clause at position `clause` watches `lit`.
    pub fn add(&mut self, lit: Lit, clause: usize)
        requires
            lit.code() < old(self).num_lits(),
        ensures
            final(self).num_lits() == old(self).num_lits(),
            final(self).watching(lit.code()) == old(self).watching(lit.code()).push(clause),
            forall|c: int|
                0 <= c < old(self).num_lits() && c != lit.code() ==> final(self).watching(c) == old(
                    self,
                ).watching(c),
    {
        self.lit_to_clauses[lit.index()].push(clause);
    }
}

} // verus!
