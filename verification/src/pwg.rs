//! The witness-solving engine: partial witness generation.
//!
//! Solvers bind unknown witnesses by replaying opcodes against a growing
//! [`WitnessMap`]. Every solve attempt reports a three-way
//! [`OpcodeResolution`] — solved, partial progress, or stalled — and never
//! throws for the routine "not solvable yet" case; fatal malformed-circuit
//! conditions come back as [`OpcodeResolutionError`] values.

use vstd::prelude::*;
use crate::field::{modulus, FieldElement};
use crate::ir::{
    eval_expr, eval_lin_terms, eval_mul_terms, lemma_eval_lin_insert, lemma_eval_mul_insert,
    lin_term_value, mul_term_value, residues, Expression, Witness, WitnessMap,
};

pub mod arithmetic;
pub mod block;

verus! {

/// Why an opcode cannot be solved yet: a routine signal for the scheduler
/// to retry after other opcodes make progress.
#[derive(Clone, PartialEq, Eq, Debug)]
pub enum OpcodeNotSolvable {
    /// A required witness carries no value yet.
    MissingAssignment(u32),
    /// The expression still holds more than one unknown witness.
    ExpressionHasTooManyUnknowns(Expression),
    /// The named unknown's coefficient could not be inverted; for a prime
    /// modulus this does not arise, but inverses are runtime-checked.
    UninvertibleCoefficient(u32),
}

/// The three-way outcome of one solve attempt.
#[derive(Clone, PartialEq, Eq, Debug)]
pub enum OpcodeResolution {
    /// The opcode is fully applied.
    Solved,
    /// Progress was made, but work remains; retry later.
    InProgress,
    /// No progress could be made given the current assignment.
    Stalled(OpcodeNotSolvable),
}

/// A fatal solving failure, or the transient not-solvable signal wrapped
/// as an error while evaluating a sub-expression.
#[derive(Clone, PartialEq, Eq, Debug)]
pub enum OpcodeResolutionError {
    /// Transient: inputs are not bound yet.
    OpcodeNotSolvable(OpcodeNotSolvable),
    /// Fatal: a witness would be bound to two different values.
    UnsatisfiedConstrain,
    /// Fatal: a read from a memory cell never initialized or written.
    UninitializedMemoryRead(u32),
    /// Fatal: a memory block's initializer witness carries no value; the
    /// circuit producer guarantees initializer witnesses are pre-bound.
    UnboundBlockInitializer(u32),
    /// Fatal: a memory read whose destination is not a single witness.
    InvalidMemoryReadTarget,
    /// Fatal, scheduler level: a full sweep made no progress; the indices
    /// of the opcodes that remained pending are reported for diagnosis.
    UnsatisfiableCircuit(Vec<usize>),
}

/// Every witness the expression mentions is bound in the map.
pub open spec fn expr_all_bound(e: Expression, m: Map<u32, FieldElement>) -> bool {
    &&& forall|i: int|
        0 <= i < e.mul_terms@.len() ==> m.contains_key((#[trigger] e.mul_terms@[i]).1.0)
            && m.contains_key(e.mul_terms@[i].2.0)
    &&& forall|i: int|
        0 <= i < e.linear_combinations@.len() ==> m.contains_key(
            (#[trigger] e.linear_combinations@[i]).1.0,
        )
}

/// The expression mentions witness `w`.
pub open spec fn expr_references(e: Expression, w: u32) -> bool {
    ||| exists|i: int|
        0 <= i < e.mul_terms@.len() && ((#[trigger] e.mul_terms@[i]).1.0 == w
            || e.mul_terms@[i].2.0 == w)
    ||| exists|i: int|
        0 <= i < e.linear_combinations@.len() && (#[trigger] e.linear_combinations@[i]).1.0 == w
}

/// The residue a fully bound expression evaluates to.
pub open spec fn eval_value(e: Expression, m: Map<u32, FieldElement>) -> nat {
    (eval_expr(e, residues(m)) % (modulus() as int)) as nat
}

/// The assignment `m2` extends `m1`: every binding of `m1` is in `m2`,
/// unchanged. This is the write-once discipline of the solving engine seen
/// end to end: an assignment only ever grows.
pub open spec fn map_extends(m2: Map<u32, FieldElement>, m1: Map<u32, FieldElement>) -> bool {
    forall|k: u32| #[trigger] m1.contains_key(k) ==> m2.contains_key(k) && m2[k] == m1[k]
}

/// Extension of assignments is transitive.
pub proof fn lemma_extends_trans(
    m1: Map<u32, FieldElement>,
    m2: Map<u32, FieldElement>,
    m3: Map<u32, FieldElement>,
)
    requires
        map_extends(m2, m1),
        map_extends(m3, m2),
    ensures
        map_extends(m3, m1),
{
    assert forall|k: u32| m1.contains_key(k) implies #[trigger] m3.contains_key(k) && m3[k]
        == m1[k] by {
        assert(m2.contains_key(k) && m2[k] == m1[k]);
    }
}

/// An arithmetic opcode holds under the assignment: fully bound and its
/// polynomial's residue is zero. Opcodes of the other kinds impose no such
/// condition here.
pub open spec fn gate_satisfied(op: crate::ir::Opcode, m: Map<u32, FieldElement>) -> bool {
    match op {
        crate::ir::Opcode::Arithmetic(e) => expr_all_bound(e, m) && eval_value(e, m) == 0,
        _ => true,
    }
}

/// The quadratic monomials of a fully bound list evaluate the same under
/// any extension of the assignment.
pub proof fn lemma_eval_mul_extends(
    ts: Seq<(FieldElement, Witness, Witness)>,
    m1: Map<u32, FieldElement>,
    m2: Map<u32, FieldElement>,
)
    requires
        map_extends(m2, m1),
        forall|j: int|
            0 <= j < ts.len() ==> m1.contains_key((#[trigger] ts[j]).1.0) && m1.contains_key(
                ts[j].2.0,
            ),
    ensures
        eval_mul_terms(ts, residues(m2)) == eval_mul_terms(ts, residues(m1)),
    decreases ts.len(),
{
    if ts.len() > 0 {
        let t = ts[0];
        assert(m2.contains_key(t.1.0) && m2[t.1.0] == m1[t.1.0]);
        assert(m2.contains_key(t.2.0) && m2[t.2.0] == m1[t.2.0]);
        assert(residues(m2)[t.1.0] == residues(m1)[t.1.0]);
        assert(residues(m2)[t.2.0] == residues(m1)[t.2.0]);
        lemma_eval_mul_extends(ts.drop_first(), m1, m2);
    }
}

/// The linear monomials of a fully bound list evaluate the same under any
/// extension of the assignment.
pub proof fn lemma_eval_lin_extends(
    ts: Seq<(FieldElement, Witness)>,
    m1: Map<u32, FieldElement>,
    m2: Map<u32, FieldElement>,
)
    requires
        map_extends(m2, m1),
        forall|j: int| 0 <= j < ts.len() ==> m1.contains_key((#[trigger] ts[j]).1.0),
    ensures
        eval_lin_terms(ts, residues(m2)) == eval_lin_terms(ts, residues(m1)),
    decreases ts.len(),
{
    if ts.len() > 0 {
        let t = ts[0];
        assert(m2.contains_key(t.1.0) && m2[t.1.0] == m1[t.1.0]);
        assert(residues(m2)[t.1.0] == residues(m1)[t.1.0]);
        lemma_eval_lin_extends(ts.drop_first(), m1, m2);
    }
}

/// A constraint satisfied under an assignment stays satisfied under every
/// extension of it: later bindings never invalidate a solved opcode.
pub proof fn lemma_satisfied_extends(
    op: crate::ir::Opcode,
    m1: Map<u32, FieldElement>,
    m2: Map<u32, FieldElement>,
)
    requires
        map_extends(m2, m1),
        gate_satisfied(op, m1),
    ensures
        gate_satisfied(op, m2),
{
    match op {
        crate::ir::Opcode::Arithmetic(e) => {
            lemma_eval_mul_extends(e.mul_terms@, m1, m2);
            lemma_eval_lin_extends(e.linear_combinations@, m1, m2);
        },
        _ => {},
    }
}

/// The value bound to `witness`, or the transient missing-assignment
/// signal when it has none.
pub fn witness_to_value(initial_witness: &WitnessMap, witness: Witness) -> (r: Result<
    FieldElement,
    OpcodeResolutionError,
>)
    ensures
        match r {
            Result::Ok(v) => initial_witness@.contains_key(witness.0) && initial_witness@[witness.0]
                == v,
            Result::Err(e) => !initial_witness@.contains_key(witness.0) && e
                == OpcodeResolutionError::OpcodeNotSolvable(
                OpcodeNotSolvable::MissingAssignment(witness.0),
            ),
        },
{
    match initial_witness.get(witness) {
        Option::Some(v) => Result::Ok(v),
        Option::None => Result::Err(
            OpcodeResolutionError::OpcodeNotSolvable(
                OpcodeNotSolvable::MissingAssignment(witness.0),
            ),
        ),
    }
}

/// Binds `witness` to `value_to_insert`. A witness is write-once: binding
/// it again to the same value is a no-op, and binding it to a different
/// value is the fatal unsatisfied-constraint failure, with the map left
/// unchanged.
pub fn insert_value(
    witness: &Witness,
    value_to_insert: FieldElement,
    initial_witness: &mut WitnessMap,
) -> (r: Result<(), OpcodeResolutionError>)
    ensures
        match r {
            Result::Ok(()) => final(initial_witness)@ == old(initial_witness)@.insert(
                witness.0,
                value_to_insert,
            ) && (old(initial_witness)@.contains_key(witness.0) ==> old(
                initial_witness,
            )@[witness.0] == value_to_insert),
            Result::Err(e) => {
                &&& e == OpcodeResolutionError::UnsatisfiedConstrain
                &&& final(initial_witness)@ == old(initial_witness)@
                &&& old(initial_witness)@.contains_key(witness.0)
                &&& old(initial_witness)@[witness.0] != value_to_insert
            },
        },
{
    match initial_witness.get(*witness) {
        Option::Some(existing) => {
            if existing.to_u64() == value_to_insert.to_u64() {
                proof {
                    assert(existing == value_to_insert);
                    assert(old(initial_witness)@.insert(witness.0, value_to_insert) =~= old(
                        initial_witness,
                    )@);
                }
                initial_witness.insert(*witness, value_to_insert);
                Result::Ok(())
            } else {
                Result::Err(OpcodeResolutionError::UnsatisfiedConstrain)
            }
        },
        Option::None => {
            initial_witness.insert(*witness, value_to_insert);
            Result::Ok(())
        },
    }
}

/// Evaluates `expression` against the current assignment. Succeeds with
/// the expression's residue exactly when every mentioned witness is bound;
/// otherwise reports the transient missing-assignment signal naming an
/// unbound witness of the expression.
pub fn get_value(expression: &Expression, initial_witness: &WitnessMap) -> (r: Result<
    FieldElement,
    OpcodeResolutionError,
>)
    ensures
        match r {
            Result::Ok(v) => expr_all_bound(*expression, initial_witness@) && v.value()
                == eval_value(*expression, initial_witness@),
            Result::Err(e) => {
                &&& !expr_all_bound(*expression, initial_witness@)
                &&& e matches OpcodeResolutionError::OpcodeNotSolvable(
                    OpcodeNotSolvable::MissingAssignment(w0),
                )
                &&& e matches OpcodeResolutionError::OpcodeNotSolvable(
                    OpcodeNotSolvable::MissingAssignment(w0),
                ) ==> expr_references(*expression, w0) && !initial_witness@.contains_key(w0)
            },
        },
{
    let ghost m = modulus() as int;
    let ghost res = residues(initial_witness@);
    let muls = &expression.mul_terms;
    let lins = &expression.linear_combinations;
    let mut acc = FieldElement(0);
    let mut i: usize = 0;
    while i < muls.len()
        invariant
            i <= muls@.len(),
            muls == &expression.mul_terms,
            lins == &expression.linear_combinations,
            res == residues(initial_witness@),
            forall|j: int|
                0 <= j < i ==> initial_witness@.contains_key((#[trigger] muls@[j]).1.0)
                    && initial_witness@.contains_key(muls@[j].2.0),
            acc.value() as int == eval_mul_terms(muls@.take(i as int), res) % (modulus() as int),
        decreases muls@.len() - i,
    {
        let (c, w1, w2) = muls[i];
        let v1 = match initial_witness.get(w1) {
            Option::Some(v) => v,
            Option::None => {
                proof {
                    assert(expr_references(*expression, w1.0)) by {
                        assert((muls@[i as int]).1.0 == w1.0);
                    }
                }
                return Result::Err(
                    OpcodeResolutionError::OpcodeNotSolvable(
                        OpcodeNotSolvable::MissingAssignment(w1.0),
                    ),
                );
            },
        };
        let v2 = match initial_witness.get(w2) {
            Option::Some(v) => v,
            Option::None => {
                proof {
                    assert(expr_references(*expression, w2.0)) by {
                        assert((muls@[i as int]).2.0 == w2.0);
                    }
                }
                return Result::Err(
                    OpcodeResolutionError::OpcodeNotSolvable(
                        OpcodeNotSolvable::MissingAssignment(w2.0),
                    ),
                );
            },
        };
        let ghost acc_pre = acc;
        let term = c.mul(v1).mul(v2);
        acc = acc.add(term);
        proof {
            let mm = modulus() as int;
            let tseq = muls@.take(i as int);
            let t = muls@[i as int];
            assert(muls@.take(i as int + 1) =~= tseq.push(t));
            assert(tseq.push(t) =~= tseq.insert(i as int, t));
            lemma_eval_mul_insert(tseq, i as int, t, res);
            // The exec product is the term's value reduced.
            let ci = c.value() as int;
            let x1 = v1.value() as int;
            let x2 = v2.value() as int;
            assert(res.contains_key(w1.0) && res[w1.0] == v1.value());
            assert(res.contains_key(w2.0) && res[w2.0] == v2.value());
            assert(mul_term_value(t, res) == ci * x1 * x2);
            vstd::arithmetic::div_mod::lemma_mul_mod_noop_general(ci * x1, x2, mm);
            assert(term.value() as int == (ci * x1 * x2) % mm);
            // Folding a reduced term into a reduced sum tracks the exact sum.
            vstd::arithmetic::div_mod::lemma_add_mod_noop(
                eval_mul_terms(tseq, res),
                ci * x1 * x2,
                mm,
            );
            vstd::arithmetic::div_mod::lemma_mod_bound(eval_mul_terms(tseq, res), mm);
            vstd::arithmetic::div_mod::lemma_mod_bound(ci * x1 * x2, mm);
            assert(acc.value() as int == eval_mul_terms(muls@.take(i as int + 1), res) % mm);
        }
        i = i + 1;
    }
    proof {
        assert(muls@.take(muls@.len() as int) =~= muls@);
    }
    let mut k: usize = 0;
    while k < lins.len()
        invariant
            k <= lins@.len(),
            muls == &expression.mul_terms,
            lins == &expression.linear_combinations,
            res == residues(initial_witness@),
            forall|j: int|
                0 <= j < muls@.len() ==> initial_witness@.contains_key(
                    (#[trigger] muls@[j]).1.0,
                ) && initial_witness@.contains_key(muls@[j].2.0),
            forall|j: int|
                0 <= j < k ==> initial_witness@.contains_key((#[trigger] lins@[j]).1.0),
            acc.value() as int == (eval_mul_terms(muls@, res) + eval_lin_terms(
                lins@.take(k as int),
                res,
            )) % (modulus() as int),
        decreases lins@.len() - k,
    {
        let (c, w) = lins[k];
        let v = match initial_witness.get(w) {
            Option::Some(v) => v,
            Option::None => {
                proof {
                    assert(expr_references(*expression, w.0)) by {
                        assert((lins@[k as int]).1.0 == w.0);
                    }
                }
                return Result::Err(
                    OpcodeResolutionError::OpcodeNotSolvable(
                        OpcodeNotSolvable::MissingAssignment(w.0),
                    ),
                );
            },
        };
        let term = c.mul(v);
        acc = acc.add(term);
        proof {
            let mm = modulus() as int;
            let tseq = lins@.take(k as int);
            let t = lins@[k as int];
            assert(lins@.take(k as int + 1) =~= tseq.push(t));
            assert(tseq.push(t) =~= tseq.insert(k as int, t));
            lemma_eval_lin_insert(tseq, k as int, t, res);
            let ci = c.value() as int;
            let x = v.value() as int;
            assert(res.contains_key(w.0) && res[w.0] == v.value());
            assert(lin_term_value(t, res) == ci * x);
            assert(term.value() as int == (ci * x) % mm);
            let s0 = eval_mul_terms(muls@, res) + eval_lin_terms(tseq, res);
            vstd::arithmetic::div_mod::lemma_add_mod_noop(s0, ci * x, mm);
            vstd::arithmetic::div_mod::lemma_mod_bound(s0, mm);
            vstd::arithmetic::div_mod::lemma_mod_bound(ci * x, mm);
            assert(acc.value() as int == (eval_mul_terms(muls@, res) + eval_lin_terms(
                lins@.take(k as int + 1),
                res,
            )) % mm);
        }
        k = k + 1;
    }
    proof {
        assert(lins@.take(lins@.len() as int) =~= lins@);
    }
    let result = acc.add(expression.q_c);
    proof {
        let mm = modulus() as int;
        let s0 = eval_mul_terms(muls@, res) + eval_lin_terms(lins@, res);
        let q = expression.q_c.value() as int;
        vstd::arithmetic::div_mod::lemma_add_mod_noop(s0, q, mm);
        vstd::arithmetic::div_mod::lemma_add_mod_noop(s0 % mm, q, mm);
        vstd::arithmetic::div_mod::lemma_mod_twice(s0, mm);
    }
    Result::Ok(result)
}

} // verus!

// ----------------------------------------------------------------------
// The fixpoint scheduler.
// ----------------------------------------------------------------------

verus! {

/// Repeatedly sweeps the still-pending opcodes, invoking the arithmetic
/// solver and the per-block memory solvers, until every opcode is solved
/// or a full sweep makes no progress — which is reported as the fatal
/// unsatisfiable-circuit failure naming the pending opcodes, never retried
/// indefinitely. On success every arithmetic constraint of the circuit is
/// fully bound and satisfied under the final assignment, and the
/// assignment only ever grows: a witness once bound keeps its value.
/// Special-function opcodes have external solvers and are not accepted
/// here.
///
/// Memory blocks are declared by their initializer opcode — which must
/// find every seed witness already bound — and each block's trace is
/// replayed strictly in order across sweeps by its own [`block::BlockSolver`].
pub fn solve(initial_witness: &mut WitnessMap, opcodes: &Vec<crate::ir::Opcode>) -> (r: Result<
    (),
    OpcodeResolutionError,
>)
    requires
        // The sweep fuel 2 * len + 2 must fit a usize; one productive sweep
        // always retires at least one unit of work, and the total work is at
        // most one pending entry plus one trace operation per opcode, so
        // this bound is never the reason a solvable circuit is refused.
        opcodes@.len() <= 0x0010_0000,
        forall|i: int|
            0 <= i < opcodes@.len() ==> !((#[trigger] opcodes@[i]) is BlackBoxFuncCall),
        forall|i: int|
            0 <= i < opcodes@.len() ==> ((#[trigger] opcodes@[i]) matches
                crate::ir::Opcode::MemoryInit { block_id, init } ==> init@.len()
                <= 0x1_0000_0000),
    ensures
        map_extends(final(initial_witness)@, old(initial_witness)@),
        r is Ok ==> forall|i: int|
            0 <= i < opcodes@.len() ==> gate_satisfied(
                #[trigger] opcodes@[i],
                final(initial_witness)@,
            ),
        r matches Err(OpcodeResolutionError::UnsatisfiableCircuit(stalled)) ==> stalled@.len() > 0
            && forall|t: int|
            0 <= t < stalled@.len() ==> (#[trigger] stalled@[t]) < opcodes@.len(),
{
    // Gather the work: pending arithmetic gates, and one solver and trace
    // per declared memory block.
    let mut pending_arith: Vec<usize> = Vec::new();
    let mut block_ids: Vec<u32> = Vec::new();
    let mut block_idxs: Vec<usize> = Vec::new();
    let mut block_solvers: Vec<block::BlockSolver> = Vec::new();
    let mut block_traces: Vec<Vec<crate::ir::MemOp>> = Vec::new();
    let mut block_done: Vec<bool> = Vec::new();
    let mut i: usize = 0;
    while i < opcodes.len()
        invariant
            initial_witness@ == old(initial_witness)@,
            i <= opcodes@.len(),
            opcodes@.len() <= 0x0010_0000,
            forall|j: int|
                0 <= j < opcodes@.len() ==> !((#[trigger] opcodes@[j]) is BlackBoxFuncCall),
            forall|j: int|
                0 <= j < opcodes@.len() ==> ((#[trigger] opcodes@[j]) matches
                    crate::ir::Opcode::MemoryInit { block_id, init } ==> init@.len()
                    <= 0x1_0000_0000),
            block_ids@.len() == block_solvers@.len(),
            block_ids@.len() == block_traces@.len(),
            block_ids@.len() == block_done@.len(),
            block_ids@.len() == block_idxs@.len(),
            forall|b: int|
                0 <= b < block_idxs@.len() ==> (#[trigger] block_idxs@[b]) < opcodes@.len(),
            forall|b: int|
                0 <= b < block_solvers@.len() ==> 0 <= (#[trigger] block_solvers@[b]).cursor()
                    <= block_traces@[b]@.len(),
            forall|j: int|
                0 <= j < pending_arith@.len() ==> (#[trigger] pending_arith@[j]) < opcodes@.len()
                    && opcodes@[pending_arith@[j] as int] is Arithmetic,
            forall|j: int|
                0 <= j < i ==> ((#[trigger] opcodes@[j]) is Arithmetic
                    ==> pending_arith@.contains(j as usize)),
        decreases opcodes@.len() - i,
    {
        let ghost pending_pre = pending_arith@;
        match &opcodes[i] {
            crate::ir::Opcode::Arithmetic(_) => {
                pending_arith.push(i);
            },
            crate::ir::Opcode::BlackBoxFuncCall(_) => {
                proof {
                    assert(false);
                }
            },
            crate::ir::Opcode::MemoryInit { block_id, init } => {
                // Declare (or re-seed) the block; the initializer witnesses
                // must already be known.
                let mut found: Option<usize> = Option::None;
                let mut b: usize = 0;
                while b < block_ids.len()
                    invariant
                        found is Some ==> found->Some_0 < block_ids@.len(),
                    decreases block_ids@.len() - b,
                {
                    if block_ids[b] == *block_id {
                        found = Option::Some(b);
                    }
                    b = b + 1;
                }
                match found {
                    Option::Some(bi) => {
                        if bi < block_solvers.len() {
                            let solver = &mut block_solvers[bi];
                            match solver.init(init.as_slice(), initial_witness) {
                                Result::Ok(()) => {},
                                Result::Err(e) => {
                                    return Result::Err(e);
                                },
                            }
                        }
                    },
                    Option::None => {
                        let mut solver = block::BlockSolver::default();
                        match solver.init(init.as_slice(), initial_witness) {
                            Result::Ok(()) => {},
                            Result::Err(e) => {
                                return Result::Err(e);
                            },
                        }
                        block_ids.push(*block_id);
                        block_idxs.push(i);
                        block_solvers.push(solver);
                        block_traces.push(Vec::new());
                        block_done.push(false);
                    },
                }
            },
            crate::ir::Opcode::MemoryOp { block_id, op } => {
                let mut found: Option<usize> = Option::None;
                let mut b: usize = 0;
                while b < block_ids.len()
                    invariant
                        found is Some ==> found->Some_0 < block_ids@.len(),
                        block_ids@.len() == block_traces@.len(),
                    decreases block_ids@.len() - b,
                {
                    if block_ids[b] == *block_id {
                        found = Option::Some(b);
                    }
                    b = b + 1;
                }
                let entry = match found {
                    Option::Some(bi) => bi,
                    Option::None => {
                        // A trace without an initializer: reads will fail
                        // fatally against the empty contents.
                        block_ids.push(*block_id);
                        block_idxs.push(i);
                        block_solvers.push(block::BlockSolver::default());
                        block_traces.push(Vec::new());
                        block_done.push(false);
                        block_ids.len() - 1
                    },
                };
                if entry < block_traces.len() {
                    let trace = &mut block_traces[entry];
                    trace.push(crate::ir::MemOp {
                        operation: op.operation.clone(),
                        index: op.index.clone(),
                        value: op.value.clone(),
                    });
                }
            },
        }
        proof {
            assert forall|j: int|
                0 <= j < i + 1 implies ((#[trigger] opcodes@[j]) is Arithmetic
                ==> pending_arith@.contains(j as usize)) by {
                if opcodes@[j] is Arithmetic {
                    if j < i {
                        let t = choose|t: int|
                            0 <= t < pending_pre.len() && pending_pre[t] == j as usize;
                        assert(pending_arith@[t] == j as usize);
                    } else {
                        assert(pending_arith@.last() == i);
                    }
                }
            }
        }
        i = i + 1;
    }
    proof {
        assert(map_extends(initial_witness@, old(initial_witness)@));
    }

    // Sweep until fixpoint or stall.
    let mut fuel: usize = 2 * opcodes.len() + 2;
    loop
        invariant
            opcodes@.len() <= 0x0010_0000,
            block_ids@.len() == block_solvers@.len(),
            block_ids@.len() == block_traces@.len(),
            block_ids@.len() == block_done@.len(),
            block_ids@.len() == block_idxs@.len(),
            forall|b: int|
                0 <= b < block_idxs@.len() ==> (#[trigger] block_idxs@[b]) < opcodes@.len(),
            forall|b: int|
                0 <= b < block_solvers@.len() ==> 0 <= (#[trigger] block_solvers@[b]).cursor()
                    <= block_traces@[b]@.len(),
            forall|j: int|
                0 <= j < pending_arith@.len() ==> (#[trigger] pending_arith@[j]) < opcodes@.len()
                    && opcodes@[pending_arith@[j] as int] is Arithmetic,
            map_extends(initial_witness@, old(initial_witness)@),
            forall|j: int|
                0 <= j < opcodes@.len() ==> ((#[trigger] opcodes@[j]) is Arithmetic
                    ==> pending_arith@.contains(j as usize) || gate_satisfied(
                    opcodes@[j],
                    initial_witness@,
                )),
        decreases fuel,
    {
        let ghost sweep_start = initial_witness@;
        // Are we done?
        let mut all_blocks_done = true;
        let mut b: usize = 0;
        while b < block_done.len()
            invariant
                initial_witness@ == sweep_start,
                block_ids@.len() == block_done@.len(),
            decreases block_done@.len() - b,
        {
            if !block_done[b] {
                all_blocks_done = false;
            }
            b = b + 1;
        }
        if pending_arith.len() == 0 && all_blocks_done {
            proof {
                assert forall|j: int|
                    0 <= j < opcodes@.len() implies gate_satisfied(
                    #[trigger] opcodes@[j],
                    initial_witness@,
                ) by {
                    match opcodes@[j] {
                        crate::ir::Opcode::Arithmetic(e) => {
                            assert(!pending_arith@.contains(j as usize));
                        },
                        _ => {},
                    }
                }
            }
            return Result::Ok(());
        }

        let mut progress = false;

        // Arithmetic sweep.
        let mut still: Vec<usize> = Vec::new();
        let mut j: usize = 0;
        while j < pending_arith.len()
            invariant
                j <= pending_arith@.len(),
                forall|t: int|
                    0 <= t < pending_arith@.len() ==> (#[trigger] pending_arith@[t])
                        < opcodes@.len() && opcodes@[pending_arith@[t] as int] is Arithmetic,
                forall|t: int|
                    0 <= t < still@.len() ==> (#[trigger] still@[t]) < opcodes@.len()
                        && opcodes@[still@[t] as int] is Arithmetic,
                !progress ==> still@.len() == j,
                map_extends(sweep_start, old(initial_witness)@),
                map_extends(initial_witness@, sweep_start),
                map_extends(initial_witness@, old(initial_witness)@),
                forall|t: int|
                    0 <= t < j ==> (still@.contains(#[trigger] pending_arith@[t])
                        || gate_satisfied(
                        opcodes@[pending_arith@[t] as int],
                        initial_witness@,
                    )),
            decreases pending_arith@.len() - j,
        {
            let idx = pending_arith[j];
            let ghost pre_map = initial_witness@;
            let ghost still_pre = still@;
            match &opcodes[idx] {
                crate::ir::Opcode::Arithmetic(gate) => {
                    match arithmetic::ArithmeticSolver::solve(initial_witness, gate) {
                        Result::Ok(OpcodeResolution::Solved) => {
                            progress = true;
                        },
                        Result::Ok(_) => {
                            still.push(idx);
                        },
                        Result::Err(e) => {
                            proof {
                                lemma_extends_trans(
                                    old(initial_witness)@,
                                    pre_map,
                                    initial_witness@,
                                );
                            }
                            return Result::Err(e);
                        },
                    }
                },
                _ => {
                    proof {
                        assert(false);
                    }
                },
            }
            proof {
                lemma_extends_trans(sweep_start, pre_map, initial_witness@);
                lemma_extends_trans(old(initial_witness)@, pre_map, initial_witness@);
                assert forall|t: int|
                    0 <= t < j + 1 implies (still@.contains(#[trigger] pending_arith@[t])
                    || gate_satisfied(opcodes@[pending_arith@[t] as int], initial_witness@)) by {
                    if t < j {
                        if still_pre.contains(pending_arith@[t]) {
                            let u = choose|u: int|
                                0 <= u < still_pre.len() && still_pre[u] == pending_arith@[t];
                            assert(still@[u] == pending_arith@[t]);
                        } else {
                            lemma_satisfied_extends(
                                opcodes@[pending_arith@[t] as int],
                                pre_map,
                                initial_witness@,
                            );
                        }
                    } else {
                        if still@.len() > still_pre.len() {
                            assert(still@.last() == pending_arith@[t]);
                        }
                    }
                }
            }
            j = j + 1;
        }
        proof {
            assert forall|jj: int|
                0 <= jj < opcodes@.len() implies ((#[trigger] opcodes@[jj]) is Arithmetic
                ==> still@.contains(jj as usize) || gate_satisfied(
                opcodes@[jj],
                initial_witness@,
            )) by {
                if opcodes@[jj] is Arithmetic {
                    if pending_arith@.contains(jj as usize) {
                        let t = choose|t: int|
                            0 <= t < pending_arith@.len() && pending_arith@[t] == jj as usize;
                        assert(pending_arith@[t] == jj as usize);
                        assert(pending_arith@[t] as int == jj);
                        assert(still@.contains(pending_arith@[t]) || gate_satisfied(
                            opcodes@[pending_arith@[t] as int],
                            initial_witness@,
                        ));
                    } else {
                        assert(gate_satisfied(opcodes@[jj], sweep_start));
                        lemma_satisfied_extends(opcodes@[jj], sweep_start, initial_witness@);
                    }
                }
            }
        }
        pending_arith = still;

        // Memory sweep: each block's trace replays strictly in order.
        let ghost mid_map = initial_witness@;
        let mut k: usize = 0;
        while k < block_solvers.len()
            invariant
                block_ids@.len() == block_solvers@.len(),
                block_ids@.len() == block_traces@.len(),
                block_ids@.len() == block_done@.len(),
                block_ids@.len() == block_idxs@.len(),
                forall|t: int|
                    0 <= t < block_solvers@.len() ==> 0 <= (#[trigger] block_solvers@[t]).cursor()
                        <= block_traces@[t]@.len(),
                forall|t: int|
                    0 <= t < pending_arith@.len() ==> (#[trigger] pending_arith@[t])
                        < opcodes@.len() && opcodes@[pending_arith@[t] as int] is Arithmetic,
                map_extends(mid_map, old(initial_witness)@),
                map_extends(initial_witness@, mid_map),
                map_extends(initial_witness@, old(initial_witness)@),
                forall|jj: int|
                    0 <= jj < opcodes@.len() ==> ((#[trigger] opcodes@[jj]) is Arithmetic
                        ==> pending_arith@.contains(jj as usize) || gate_satisfied(
                        opcodes@[jj],
                        initial_witness@,
                    )),
            decreases block_solvers@.len() - k,
        {
            if !block_done[k] {
                let trace = &block_traces[k];
                let solver = &mut block_solvers[k];
                let ghost pre_contents = solver.contents();
                let ghost pre_map = initial_witness@;
                let ghost pre_cursor = solver.cursor();
                let outcome = solver.solve(initial_witness, trace);
                proof {
                    block::lemma_replay_wmap_monotone(pre_contents, pre_map, trace@, pre_cursor);
                    lemma_extends_trans(mid_map, pre_map, initial_witness@);
                    lemma_extends_trans(old(initial_witness)@, pre_map, initial_witness@);
                    assert forall|jj: int|
                        0 <= jj < opcodes@.len() implies ((#[trigger] opcodes@[jj]) is Arithmetic
                        ==> pending_arith@.contains(jj as usize) || gate_satisfied(
                        opcodes@[jj],
                        initial_witness@,
                    )) by {
                        if opcodes@[jj] is Arithmetic && !pending_arith@.contains(jj as usize) {
                            lemma_satisfied_extends(opcodes@[jj], pre_map, initial_witness@);
                        }
                    }
                }
                match outcome {
                    Result::Ok(OpcodeResolution::Solved) => {
                        block_done[k] = true;
                        progress = true;
                    },
                    Result::Ok(OpcodeResolution::InProgress) => {
                        progress = true;
                    },
                    Result::Ok(OpcodeResolution::Stalled(_)) => {},
                    Result::Err(e) => {
                        return Result::Err(e);
                    },
                }
            }
            k = k + 1;
        }

        if !progress || fuel == 0 {
            // Terminal: a full sweep with zero net progress.
            let ghost end_map = initial_witness@;
            let mut stalled: Vec<usize> = Vec::new();
            let mut t: usize = 0;
            while t < pending_arith.len()
                invariant
                    initial_witness@ == end_map,
                    stalled@.len() == t,
                    forall|u: int|
                        0 <= u < pending_arith@.len() ==> (#[trigger] pending_arith@[u])
                            < opcodes@.len(),
                    forall|u: int|
                        0 <= u < stalled@.len() ==> (#[trigger] stalled@[u]) < opcodes@.len(),
                decreases pending_arith@.len() - t,
            {
                stalled.push(pending_arith[t]);
                t = t + 1;
            }
            let mut u: usize = 0;
            while u < block_done.len()
                invariant
                    initial_witness@ == end_map,
                    stalled@.len() >= pending_arith@.len(),
                    block_ids@.len() == block_done@.len(),
                    block_ids@.len() == block_idxs@.len(),
                    forall|b: int|
                        0 <= b < block_idxs@.len() ==> (#[trigger] block_idxs@[b])
                            < opcodes@.len(),
                    forall|w: int|
                        0 <= w < stalled@.len() ==> (#[trigger] stalled@[w]) < opcodes@.len(),
                decreases block_done@.len() - u,
            {
                if !block_done[u] {
                    stalled.push(block_idxs[u]);
                }
                u = u + 1;
            }
            if stalled.len() > 0 {
                return Result::Err(OpcodeResolutionError::UnsatisfiableCircuit(stalled));
            } else {
                proof {
                    assert forall|jj: int|
                        0 <= jj < opcodes@.len() implies gate_satisfied(
                        #[trigger] opcodes@[jj],
                        initial_witness@,
                    ) by {
                        match opcodes@[jj] {
                            crate::ir::Opcode::Arithmetic(e) => {
                                if pending_arith@.contains(jj as usize) {
                                    let t2 = choose|t2: int|
                                        0 <= t2 < pending_arith@.len() && pending_arith@[t2]
                                            == jj as usize;
                                    assert(stalled@.len() > 0);
                                }
                            },
                            _ => {},
                        }
                    }
                }
                return Result::Ok(());
            }
        }
        fuel = fuel - 1;
    }
}

} // verus!
