//! The circuit intermediate representation: witnesses, constraint
//! expressions, opcodes, circuits, and the partial witness assignment.
//!
//! An [`Expression`] is read as the polynomial
//! `sum of c*w1*w2 + sum of c*w + q_c`; its meaning under an assignment of
//! field residues to witnesses is given by [`eval_expr`], an exact integer
//! whose residue modulo the field prime decides whether the constraint
//! `expression = 0` is satisfied.

use vstd::prelude::*;
use crate::field::FieldElement;

verus! {

broadcast use vstd::std_specs::btree::group_btree_axioms, vstd::laws_cmp::group_laws_cmp;

/// An opaque 32-bit identifier naming one assignment slot.
#[derive(Clone, Copy, PartialEq, Eq, Structural, Debug)]
pub struct Witness(pub u32);

/// A degree-at-most-two polynomial over witnesses with field coefficients.
#[derive(Clone, PartialEq, Eq, Debug)]
pub struct Expression {
    /// Quadratic monomials `c * w1 * w2`.
    pub mul_terms: Vec<(FieldElement, Witness, Witness)>,
    /// Linear monomials `c * w`.
    pub linear_combinations: Vec<(FieldElement, Witness)>,
    /// The constant term.
    pub q_c: FieldElement,
}

/// The value of one quadratic monomial under an assignment of residues.
pub open spec fn mul_term_value(t: (FieldElement, Witness, Witness), a: Map<u32, nat>) -> int {
    (t.0.value() * a[t.1.0] * a[t.2.0]) as int
}

/// The value of one linear monomial under an assignment of residues.
pub open spec fn lin_term_value(t: (FieldElement, Witness), a: Map<u32, nat>) -> int {
    (t.0.value() * a[t.1.0]) as int
}

/// The sum of the quadratic monomials, as an exact integer.
pub open spec fn eval_mul_terms(ts: Seq<(FieldElement, Witness, Witness)>, a: Map<u32, nat>) -> int
    decreases ts.len(),
{
    if ts.len() == 0 {
        0
    } else {
        mul_term_value(ts[0], a) + eval_mul_terms(ts.drop_first(), a)
    }
}

/// The sum of the linear monomials, as an exact integer.
pub open spec fn eval_lin_terms(ts: Seq<(FieldElement, Witness)>, a: Map<u32, nat>) -> int
    decreases ts.len(),
{
    if ts.len() == 0 {
        0
    } else {
        lin_term_value(ts[0], a) + eval_lin_terms(ts.drop_first(), a)
    }
}

/// The whole polynomial as an exact integer; the constraint holds under `a`
/// iff this value is divisible by the field prime.
pub open spec fn eval_expr(e: Expression, a: Map<u32, nat>) -> int {
    eval_mul_terms(e.mul_terms@, a) + eval_lin_terms(e.linear_combinations@, a)
        + e.q_c.value()
}

/// Strict lexicographic order on the witness pair of a quadratic monomial.
pub open spec fn mul_pair_lt(a1: u32, a2: u32, b1: u32, b2: u32) -> bool {
    a1 < b1 || (a1 == b1 && a2 < b2)
}

/// Linear monomials strictly sorted by witness identifier (hence unique).
pub open spec fn lin_sorted(s: Seq<(FieldElement, Witness)>) -> bool {
    forall|i: int, j: int| 0 <= i < j < s.len() ==> (#[trigger] s[i]).1.0 < (#[trigger] s[j]).1.0
}

/// No linear monomial carries the zero coefficient.
pub open spec fn lin_nonzero(s: Seq<(FieldElement, Witness)>) -> bool {
    forall|i: int| 0 <= i < s.len() ==> (#[trigger] s[i]).0.value() != 0
}

/// Quadratic monomials strictly sorted by their witness pair.
pub open spec fn mul_sorted(s: Seq<(FieldElement, Witness, Witness)>) -> bool {
    forall|i: int, j: int|
        0 <= i < j < s.len() ==> mul_pair_lt(
            (#[trigger] s[i]).1.0,
            s[i].2.0,
            (#[trigger] s[j]).1.0,
            s[j].2.0,
        )
}

/// Each quadratic monomial has its witness pair in order and a nonzero
/// coefficient.
pub open spec fn mul_normalized(s: Seq<(FieldElement, Witness, Witness)>) -> bool {
    forall|i: int|
        0 <= i < s.len() ==> (#[trigger] s[i]).1.0 <= s[i].2.0 && s[i].0.value() != 0
}

/// The canonical form of an expression: both term lists sorted with merged,
/// nonzero monomials. Two expressions are semantically equal exactly when
/// their canonical forms are structurally equal.
pub open spec fn is_canonical(e: Expression) -> bool {
    &&& mul_sorted(e.mul_terms@)
    &&& mul_normalized(e.mul_terms@)
    &&& lin_sorted(e.linear_combinations@)
    &&& lin_nonzero(e.linear_combinations@)
}

impl Expression {
    /// The expression with no terms and constant zero.
    pub fn zero() -> (r: Expression)
        ensures
            r.mul_terms@.len() == 0,
            r.linear_combinations@.len() == 0,
            r.q_c.value() == 0,
    {
        Expression { mul_terms: Vec::new(), linear_combinations: Vec::new(), q_c: FieldElement(0) }
    }

    /// The constant expression one.
    pub fn one() -> (r: Expression)
        ensures
            r.mul_terms@.len() == 0,
            r.linear_combinations@.len() == 0,
            r.q_c.value() == 1,
    {
        Expression { mul_terms: Vec::new(), linear_combinations: Vec::new(), q_c: FieldElement(1) }
    }

    /// The constant expression holding `c`.
    pub fn from_field(c: FieldElement) -> (r: Expression)
        ensures
            r.mul_terms@.len() == 0,
            r.linear_combinations@.len() == 0,
            r.q_c == c,
    {
        Expression { mul_terms: Vec::new(), linear_combinations: Vec::new(), q_c: c }
    }

    /// The expression `1 * w`.
    pub fn from_witness(w: Witness) -> (r: Expression)
        ensures
            r.mul_terms@.len() == 0,
            r.linear_combinations@ == seq![(FieldElement(1), w)],
            r.q_c.value() == 0,
    {
        let mut lin: Vec<(FieldElement, Witness)> = Vec::new();
        lin.push((FieldElement(1), w));
        assert(lin@ =~= seq![(FieldElement(1), w)]);
        Expression { mul_terms: Vec::new(), linear_combinations: lin, q_c: FieldElement(0) }
    }

    /// Whether the expression is the single monomial `1 * w` for `w`.
    pub open spec fn is_lone_witness(self, w: Witness) -> bool {
        &&& self.mul_terms@.len() == 0
        &&& self.linear_combinations@.len() == 1
        &&& self.linear_combinations@[0].0.value() == 1
        &&& self.linear_combinations@[0].1 == w
        &&& self.q_c.value() == 0
    }

    /// The destination witness, when the expression is exactly `1 * w`.
    pub fn to_witness(&self) -> (r: Option<Witness>)
        ensures
            match r {
                Some(w) => self.is_lone_witness(w),
                None => forall|w: Witness| !self.is_lone_witness(w),
            },
    {
        if self.mul_terms.len() == 0 && self.linear_combinations.len() == 1
            && self.linear_combinations[0].0.0 == 1 && self.q_c.0 == 0 {
            Some(self.linear_combinations[0].1)
        } else {
            None
        }
    }
}

/// The special functions a backend may support natively; a circuit calls
/// one through a [`BlackBoxFuncCall`] opcode.
#[derive(Clone, Copy, PartialEq, Eq, Structural, Debug)]
pub enum BlackBoxFunc {
    AES,
    AND,
    XOR,
    RANGE,
    SHA256,
    Blake2s,
    Keccak256,
    ComputeMerkleRoot,
    SchnorrVerify,
    Pedersen,
    HashToField128Security,
    EcdsaSecp256k1,
    FixedBaseScalarMul,
}

/// One input of a special-function call: a witness together with the bit
/// width it is known to fit in.
#[derive(Clone, Copy, PartialEq, Eq, Structural, Debug)]
pub struct FunctionInput {
    pub witness: Witness,
    pub num_bits: u32,
}

/// A call to a special function, with its input and output witnesses.
#[derive(Clone, PartialEq, Eq, Debug)]
pub struct BlackBoxFuncCall {
    pub name: BlackBoxFunc,
    pub inputs: Vec<FunctionInput>,
    pub outputs: Vec<Witness>,
}

/// One memory operation of a block's trace. The selector decides between a
/// read (selector zero) and a write (any other value); the index picks the
/// cell, and the value is written to the cell or names the witness read
/// into.
#[derive(Clone, PartialEq, Eq, Debug)]
pub struct MemOp {
    pub operation: Expression,
    pub index: Expression,
    pub value: Expression,
}

/// One instruction of a circuit; a closed union handled exhaustively by
/// every compiler pass and solver.
#[derive(Clone, PartialEq, Eq, Debug)]
pub enum Opcode {
    /// The constraint `expression = 0`.
    Arithmetic(Expression),
    /// A call to a special function.
    BlackBoxFuncCall(BlackBoxFuncCall),
    /// Declares a memory block and seeds its first cells from witnesses.
    MemoryInit { block_id: u32, init: Vec<Witness> },
    /// One operation of a memory block's trace.
    MemoryOp { block_id: u32, op: MemOp },
}

impl Opcode {
    /// Whether this opcode is an arithmetic constraint.
    pub open spec fn is_arithmetic(self) -> bool {
        self is Arithmetic
    }

    /// Whether this opcode is a range constraint: a RANGE call binding one
    /// witness to a bit width.
    pub open spec fn spec_range_target(self) -> Option<(u32, u32)> {
        match self {
            Opcode::BlackBoxFuncCall(call) => {
                if call.name is RANGE && call.inputs@.len() == 1 {
                    Some((call.inputs@[0].witness.0, call.inputs@[0].num_bits))
                } else {
                    None
                }
            },
            _ => None,
        }
    }

    /// The witness and bit width of a range constraint, if this is one.
    pub fn range_target(&self) -> (r: Option<(u32, u32)>)
        ensures
            r == self.spec_range_target(),
    {
        match self {
            Opcode::BlackBoxFuncCall(call) => {
                if matches!(call.name, BlackBoxFunc::RANGE) && call.inputs.len() == 1 {
                    Some((call.inputs[0].witness.0, call.inputs[0].num_bits))
                } else {
                    None
                }
            },
            _ => None,
        }
    }
}

/// An ordered opcode sequence with its witness bookkeeping: the highest
/// witness index in use, and the sets of public-parameter and return-value
/// witnesses.
#[derive(Clone, PartialEq, Eq, Debug)]
pub struct Circuit {
    pub current_witness_index: u32,
    pub opcodes: Vec<Opcode>,
    pub public_parameters: Vec<Witness>,
    pub return_values: Vec<Witness>,
}

impl Default for Circuit {
    /// The empty circuit.
    fn default() -> (r: Circuit)
        ensures
            r.current_witness_index == 0,
            r.opcodes@.len() == 0,
            r.public_parameters@.len() == 0,
            r.return_values@.len() == 0,
    {
        Circuit {
            current_witness_index: 0,
            opcodes: Vec::new(),
            public_parameters: Vec::new(),
            return_values: Vec::new(),
        }
    }
}

/// The partial assignment from witnesses to field elements, grown while
/// solving. It is kept in an ordered container so iteration and
/// serialization order is deterministic; a witness, once bound, is never
/// rebound to a different value by the solving engine.
#[derive(Clone, Debug)]
pub struct WitnessMap {
    map: std::collections::BTreeMap<u32, FieldElement>,
}

impl View for WitnessMap {
    type V = Map<u32, FieldElement>;

    closed spec fn view(&self) -> Map<u32, FieldElement> {
        self.map@
    }
}

impl WitnessMap {
    /// The empty assignment.
    pub fn new() -> (r: WitnessMap)
        ensures
            r@ == Map::<u32, FieldElement>::empty(),
    {
        WitnessMap { map: std::collections::BTreeMap::new() }
    }

    /// The value bound to `w`, if any.
    pub fn get(&self, w: Witness) -> (r: Option<FieldElement>)
        ensures
            match r {
                Some(v) => self@.contains_key(w.0) && self@[w.0] == v,
                None => !self@.contains_key(w.0),
            },
    {
        match self.map.get(&w.0) {
            Some(v) => Some(*v),
            None => None,
        }
    }

    /// Whether `w` is bound.
    pub fn contains(&self, w: Witness) -> (r: bool)
        ensures
            r == self@.contains_key(w.0),
    {
        self.map.contains_key(&w.0)
    }

    /// Binds `w` to `v`, replacing any earlier binding. The solving engine
    /// keeps the write-once discipline one level up, in
    /// [`crate::pwg::insert_value`], which refuses a conflicting rebind;
    /// this raw entry point stays crate-internal so that discipline cannot
    /// be bypassed.
    pub(crate) fn insert(&mut self, w: Witness, v: FieldElement)
        ensures
            final(self)@ == old(self)@.insert(w.0, v),
    {
        self.map.insert(w.0, v);
    }
}

/// The assignment of residues a witness map stands for, one `nat` per
/// bound witness.
pub open spec fn residues(m: Map<u32, FieldElement>) -> Map<u32, nat> {
    m.map_values(|f: FieldElement| f.value())
}

/// Inserting a linear monomial anywhere in a term list adds exactly its
/// value to the list's sum.
pub proof fn lemma_eval_lin_insert(
    s: Seq<(FieldElement, Witness)>,
    i: int,
    t: (FieldElement, Witness),
    a: Map<u32, nat>,
)
    requires
        0 <= i <= s.len(),
    ensures
        eval_lin_terms(s.insert(i, t), a) == eval_lin_terms(s, a) + lin_term_value(t, a),
    decreases i,
{
    let s2 = s.insert(i, t);
    if i == 0 {
        assert(s2[0] == t);
        assert(s2.drop_first() =~= s);
    } else {
        assert(s2[0] == s[0]);
        assert(s2.drop_first() =~= s.drop_first().insert(i - 1, t));
        lemma_eval_lin_insert(s.drop_first(), i - 1, t, a);
    }
}

/// Replacing a linear monomial exchanges its value in the list's sum.
pub proof fn lemma_eval_lin_update(
    s: Seq<(FieldElement, Witness)>,
    i: int,
    t: (FieldElement, Witness),
    a: Map<u32, nat>,
)
    requires
        0 <= i < s.len(),
    ensures
        eval_lin_terms(s.update(i, t), a) == eval_lin_terms(s, a) - lin_term_value(s[i], a)
            + lin_term_value(t, a),
    decreases i,
{
    let s2 = s.update(i, t);
    if i == 0 {
        assert(s2[0] == t);
        assert(s2.drop_first() =~= s.drop_first());
    } else {
        assert(s2[0] == s[0]);
        assert(s2.drop_first() =~= s.drop_first().update(i - 1, t));
        lemma_eval_lin_update(s.drop_first(), i - 1, t, a);
    }
}

/// Removing a linear monomial subtracts exactly its value from the sum.
pub proof fn lemma_eval_lin_remove(s: Seq<(FieldElement, Witness)>, i: int, a: Map<u32, nat>)
    requires
        0 <= i < s.len(),
    ensures
        eval_lin_terms(s.remove(i), a) == eval_lin_terms(s, a) - lin_term_value(s[i], a),
    decreases i,
{
    let s2 = s.remove(i);
    if i == 0 {
        assert(s2 =~= s.drop_first());
    } else {
        assert(s2[0] == s[0]);
        assert(s2.drop_first() =~= s.drop_first().remove(i - 1));
        lemma_eval_lin_remove(s.drop_first(), i - 1, a);
    }
}

/// Inserting a quadratic monomial anywhere in a term list adds exactly its
/// value to the list's sum.
pub proof fn lemma_eval_mul_insert(
    s: Seq<(FieldElement, Witness, Witness)>,
    i: int,
    t: (FieldElement, Witness, Witness),
    a: Map<u32, nat>,
)
    requires
        0 <= i <= s.len(),
    ensures
        eval_mul_terms(s.insert(i, t), a) == eval_mul_terms(s, a) + mul_term_value(t, a),
    decreases i,
{
    let s2 = s.insert(i, t);
    if i == 0 {
        assert(s2[0] == t);
        assert(s2.drop_first() =~= s);
    } else {
        assert(s2[0] == s[0]);
        assert(s2.drop_first() =~= s.drop_first().insert(i - 1, t));
        lemma_eval_mul_insert(s.drop_first(), i - 1, t, a);
    }
}

/// Replacing a quadratic monomial exchanges its value in the list's sum.
pub proof fn lemma_eval_mul_update(
    s: Seq<(FieldElement, Witness, Witness)>,
    i: int,
    t: (FieldElement, Witness, Witness),
    a: Map<u32, nat>,
)
    requires
        0 <= i < s.len(),
    ensures
        eval_mul_terms(s.update(i, t), a) == eval_mul_terms(s, a) - mul_term_value(s[i], a)
            + mul_term_value(t, a),
    decreases i,
{
    let s2 = s.update(i, t);
    if i == 0 {
        assert(s2[0] == t);
        assert(s2.drop_first() =~= s.drop_first());
    } else {
        assert(s2[0] == s[0]);
        assert(s2.drop_first() =~= s.drop_first().update(i - 1, t));
        lemma_eval_mul_update(s.drop_first(), i - 1, t, a);
    }
}

/// Removing a quadratic monomial subtracts exactly its value from the sum.
pub proof fn lemma_eval_mul_remove(
    s: Seq<(FieldElement, Witness, Witness)>,
    i: int,
    a: Map<u32, nat>,
)
    requires
        0 <= i < s.len(),
    ensures
        eval_mul_terms(s.remove(i), a) == eval_mul_terms(s, a) - mul_term_value(s[i], a),
    decreases i,
{
    let s2 = s.remove(i);
    if i == 0 {
        assert(s2 =~= s.drop_first());
    } else {
        assert(s2[0] == s[0]);
        assert(s2.drop_first() =~= s.drop_first().remove(i - 1));
        lemma_eval_mul_remove(s.drop_first(), i - 1, a);
    }
}

/// Adding the same summand to congruent integers keeps them congruent
/// modulo the field prime.
pub proof fn lemma_mod_add_congruent(x: int, y: int, z: int)
    requires
        x % (crate::field::modulus() as int) == y % (crate::field::modulus() as int),
    ensures
        (x + z) % (crate::field::modulus() as int) == (y + z) % (crate::field::modulus() as int),
{
    let m = crate::field::modulus() as int;
    vstd::arithmetic::div_mod::lemma_add_mod_noop(x, z, m);
    vstd::arithmetic::div_mod::lemma_add_mod_noop(y, z, m);
}

/// Shifting an integer by a multiple of the field prime does not change
/// its residue.
pub proof fn lemma_mod_shift_multiple(y: int, k: int, w: int)
    ensures
        (y + crate::field::modulus() as int * k * w) % (crate::field::modulus() as int) == y % (
        crate::field::modulus() as int),
{
    let m = crate::field::modulus() as int;
    vstd::arithmetic::mul::lemma_mul_is_associative(m, k, w);
    vstd::arithmetic::div_mod::lemma_mod_multiples_vanish(k * w, y, m);
}

} // verus!
