//! Solver for arithmetic opcodes: checks fully determined constraints and
//! binds the single unknown witness of a constraint that is linear in it.

use vstd::prelude::*;
use crate::field::{modulus, FieldElement};
use crate::ir::{
    eval_expr, eval_lin_terms, eval_mul_terms, lin_term_value, mul_term_value, residues,
    Expression, Witness, WitnessMap,
};
use super::{
    expr_all_bound, eval_value, get_value, insert_value, map_extends, OpcodeNotSolvable,
    OpcodeResolution, OpcodeResolutionError,
};

verus! {

/// Exactly one witness of the expression, `w0`, is unbound, and it occurs
/// only linearly: every other witness carries a value, and no quadratic
/// monomial multiplies `w0` by itself.
pub open spec fn linear_in_unknown(e: Expression, m: Map<u32, FieldElement>, w0: u32) -> bool {
    &&& !m.contains_key(w0)
    &&& forall|j: int|
        0 <= j < e.mul_terms@.len() ==> {
            let t = #[trigger] e.mul_terms@[j];
            &&& (t.1.0 == w0 || m.contains_key(t.1.0))
            &&& (t.2.0 == w0 || m.contains_key(t.2.0))
            &&& !(t.1.0 == w0 && t.2.0 == w0)
        }
    &&& forall|j: int|
        0 <= j < e.linear_combinations@.len() ==> ((#[trigger] e.linear_combinations@[j]).1.0
            == w0 || m.contains_key(e.linear_combinations@[j].1.0))
}

/// The part of the quadratic monomials not involving `w0`, as an exact
/// integer under the residues `a` of the bound witnesses.
pub open spec fn mul_const_sum(
    ts: Seq<(FieldElement, Witness, Witness)>,
    a: Map<u32, nat>,
    w0: u32,
) -> int
    decreases ts.len(),
{
    if ts.len() == 0 {
        0
    } else {
        let t = ts[0];
        let rest = mul_const_sum(ts.drop_first(), a, w0);
        if t.1.0 == w0 || t.2.0 == w0 {
            rest
        } else {
            mul_term_value(t, a) + rest
        }
    }
}

/// The total coefficient `w0` picks up from the quadratic monomials.
pub open spec fn mul_coeff_sum(
    ts: Seq<(FieldElement, Witness, Witness)>,
    a: Map<u32, nat>,
    w0: u32,
) -> int
    decreases ts.len(),
{
    if ts.len() == 0 {
        0
    } else {
        let t = ts[0];
        let rest = mul_coeff_sum(ts.drop_first(), a, w0);
        if t.1.0 == w0 && t.2.0 != w0 {
            (t.0.value() * a[t.2.0]) as int + rest
        } else if t.2.0 == w0 && t.1.0 != w0 {
            (t.0.value() * a[t.1.0]) as int + rest
        } else {
            rest
        }
    }
}

/// The part of the linear monomials not involving `w0`.
pub open spec fn lin_const_sum(ts: Seq<(FieldElement, Witness)>, a: Map<u32, nat>, w0: u32) -> int
    decreases ts.len(),
{
    if ts.len() == 0 {
        0
    } else {
        let t = ts[0];
        let rest = lin_const_sum(ts.drop_first(), a, w0);
        if t.1.0 == w0 {
            rest
        } else {
            lin_term_value(t, a) + rest
        }
    }
}

/// The total coefficient `w0` picks up from the linear monomials.
pub open spec fn lin_coeff_sum(ts: Seq<(FieldElement, Witness)>, a: Map<u32, nat>, w0: u32) -> int
    decreases ts.len(),
{
    if ts.len() == 0 {
        0
    } else {
        let t = ts[0];
        let rest = lin_coeff_sum(ts.drop_first(), a, w0);
        if t.1.0 == w0 {
            t.0.value() + rest
        } else {
            rest
        }
    }
}

/// A gate linear in the unknown `w0` splits: its quadratic monomials under
/// the assignment extended by `w0 = xv` sum to the constant part plus the
/// `w0`-coefficient times `xv`.
proof fn lemma_eval_mul_split(
    ts: Seq<(FieldElement, Witness, Witness)>,
    a: Map<u32, nat>,
    w0: u32,
    xv: nat,
)
    requires
        forall|j: int|
            0 <= j < ts.len() ==> {
                let t = #[trigger] ts[j];
                !(t.1.0 == w0 && t.2.0 == w0)
            },
    ensures
        eval_mul_terms(ts, a.insert(w0, xv)) == mul_const_sum(ts, a, w0) + mul_coeff_sum(
            ts,
            a,
            w0,
        ) * xv,
    decreases ts.len(),
{
    let a2 = a.insert(w0, xv);
    if ts.len() == 0 {
        assert(mul_coeff_sum(ts, a, w0) * xv == 0) by (nonlinear_arith)
            requires
                mul_coeff_sum(ts, a, w0) == 0,
        ;
    } else {
        let t = ts[0];
        lemma_eval_mul_split(ts.drop_first(), a, w0, xv);
        let c = t.0.value() as int;
        let rest_c = mul_const_sum(ts.drop_first(), a, w0);
        let rest_k = mul_coeff_sum(ts.drop_first(), a, w0);
        if t.1.0 == w0 && t.2.0 != w0 {
            let y = a[t.2.0] as int;
            assert(mul_term_value(t, a2) == c * (xv as int) * y);
            assert(c * (xv as int) * y + (rest_c + rest_k * xv) == rest_c + (c * y + rest_k)
                * xv) by (nonlinear_arith);
        } else if t.2.0 == w0 && t.1.0 != w0 {
            let x = a[t.1.0] as int;
            assert(mul_term_value(t, a2) == c * x * (xv as int));
            assert(c * x * (xv as int) + (rest_c + rest_k * xv) == rest_c + (c * x + rest_k)
                * xv) by (nonlinear_arith);
        } else {
            assert(mul_term_value(t, a2) == mul_term_value(t, a));
            assert(mul_term_value(t, a) + (rest_c + rest_k * xv) == (mul_term_value(t, a)
                + rest_c) + rest_k * xv);
        }
    }
}

/// The linear counterpart of the split.
proof fn lemma_eval_lin_split(ts: Seq<(FieldElement, Witness)>, a: Map<u32, nat>, w0: u32, xv: nat)
    ensures
        eval_lin_terms(ts, a.insert(w0, xv)) == lin_const_sum(ts, a, w0) + lin_coeff_sum(
            ts,
            a,
            w0,
        ) * xv,
    decreases ts.len(),
{
    let a2 = a.insert(w0, xv);
    if ts.len() == 0 {
        assert(lin_coeff_sum(ts, a, w0) * xv == 0) by (nonlinear_arith)
            requires
                lin_coeff_sum(ts, a, w0) == 0,
        ;
    } else {
        let t = ts[0];
        lemma_eval_lin_split(ts.drop_first(), a, w0, xv);
        let c = t.0.value() as int;
        let rest_c = lin_const_sum(ts.drop_first(), a, w0);
        let rest_k = lin_coeff_sum(ts.drop_first(), a, w0);
        if t.1.0 == w0 {
            assert(lin_term_value(t, a2) == c * (xv as int));
            assert(c * (xv as int) + (rest_c + rest_k * xv) == rest_c + (c + rest_k) * xv)
                by (nonlinear_arith);
        } else {
            assert(lin_term_value(t, a2) == lin_term_value(t, a));
        }
    }
}

/// Folding a residue-reduced summand into a reduced accumulator tracks the
/// exact sum modulo the prime.
proof fn lemma_mod_add_reduced(x: int, y: int)
    ensures
        (x % (modulus() as int) + y) % (modulus() as int) == (x + y) % (modulus() as int),
{
    let m = modulus() as int;
    vstd::arithmetic::div_mod::lemma_add_mod_noop(x % m, y, m);
    vstd::arithmetic::div_mod::lemma_mod_twice(x, m);
    vstd::arithmetic::div_mod::lemma_add_mod_noop(x, y, m);
}

/// How a constraint stands relative to the current assignment.
enum GateScan {
    /// Every witness is bound.
    AllBound,
    /// Exactly one witness is unbound and it appears only linearly.
    OneUnknown(Witness),
    /// Two or more unknowns, or an unknown multiplied by itself.
    NotLinear,
}

/// Looks the constraint over: fully determined, linear in one unknown
/// witness, or neither.
fn scan_gate(gate: &Expression, initial_witness: &WitnessMap) -> (r: GateScan)
    ensures
        match r {
            GateScan::AllBound => expr_all_bound(*gate, initial_witness@),
            GateScan::OneUnknown(w0) => linear_in_unknown(*gate, initial_witness@, w0.0)
                && !expr_all_bound(*gate, initial_witness@),
            GateScan::NotLinear => !expr_all_bound(*gate, initial_witness@),
        },
{
    let muls = &gate.mul_terms;
    let lins = &gate.linear_combinations;
    let mut unknown: Option<Witness> = Option::None;
    let mut i: usize = 0;
    while i < muls.len()
        invariant
            i <= muls@.len(),
            muls == &gate.mul_terms,
            lins == &gate.linear_combinations,
            match unknown {
                Option::None => forall|j: int|
                    0 <= j < i ==> initial_witness@.contains_key((#[trigger] muls@[j]).1.0)
                        && initial_witness@.contains_key(muls@[j].2.0),
                Option::Some(u) => !initial_witness@.contains_key(u.0) && !expr_all_bound(
                    *gate,
                    initial_witness@,
                ) && forall|j: int|
                    0 <= j < i ==> {
                        let t = #[trigger] muls@[j];
                        &&& (t.1.0 == u.0 || initial_witness@.contains_key(t.1.0))
                        &&& (t.2.0 == u.0 || initial_witness@.contains_key(t.2.0))
                        &&& !(t.1.0 == u.0 && t.2.0 == u.0)
                    },
            },
        decreases muls@.len() - i,
    {
        let (_, w1, w2) = muls[i];
        let b1 = initial_witness.contains(w1);
        let b2 = initial_witness.contains(w2);
        if !b1 || !b2 {
            proof {
                if !b1 {
                    assert(!expr_all_bound(*gate, initial_witness@)) by {
                        assert((muls@[i as int]).1.0 == w1.0);
                    }
                } else {
                    assert(!expr_all_bound(*gate, initial_witness@)) by {
                        assert((muls@[i as int]).2.0 == w2.0);
                    }
                }
            }
        }
        if !b1 && !b2 {
            // Two unknown factors in one monomial: quadratic in unknowns.
            return GateScan::NotLinear;
        }
        if !b1 {
            match unknown {
                Option::None => {
                    unknown = Option::Some(w1);
                },
                Option::Some(u) => {
                    if u.0 != w1.0 {
                        return GateScan::NotLinear;
                    }
                },
            }
        }
        if !b2 {
            match unknown {
                Option::None => {
                    unknown = Option::Some(w2);
                },
                Option::Some(u) => {
                    if u.0 != w2.0 {
                        return GateScan::NotLinear;
                    }
                },
            }
        }
        i = i + 1;
    }
    let mut k: usize = 0;
    while k < lins.len()
        invariant
            k <= lins@.len(),
            muls == &gate.mul_terms,
            lins == &gate.linear_combinations,
            match unknown {
                Option::None => (forall|j: int|
                    0 <= j < muls@.len() ==> initial_witness@.contains_key(
                        (#[trigger] muls@[j]).1.0,
                    ) && initial_witness@.contains_key(muls@[j].2.0)) && forall|j: int|
                    0 <= j < k ==> initial_witness@.contains_key((#[trigger] lins@[j]).1.0),
                Option::Some(u) => !initial_witness@.contains_key(u.0) && !expr_all_bound(
                    *gate,
                    initial_witness@,
                ) && (forall|j: int|
                    0 <= j < muls@.len() ==> {
                        let t = #[trigger] muls@[j];
                        &&& (t.1.0 == u.0 || initial_witness@.contains_key(t.1.0))
                        &&& (t.2.0 == u.0 || initial_witness@.contains_key(t.2.0))
                        &&& !(t.1.0 == u.0 && t.2.0 == u.0)
                    }) && forall|j: int|
                    0 <= j < k ==> ((#[trigger] lins@[j]).1.0 == u.0
                        || initial_witness@.contains_key(lins@[j].1.0)),
            },
        decreases lins@.len() - k,
    {
        let (_, w) = lins[k];
        if !initial_witness.contains(w) {
            proof {
                assert(!expr_all_bound(*gate, initial_witness@)) by {
                    assert((lins@[k as int]).1.0 == w.0);
                }
            }
            match unknown {
                Option::None => {
                    unknown = Option::Some(w);
                },
                Option::Some(u) => {
                    if u.0 != w.0 {
                        return GateScan::NotLinear;
                    }
                },
            }
        }
        k = k + 1;
    }
    match unknown {
        Option::None => GateScan::AllBound,
        Option::Some(u) => GateScan::OneUnknown(u),
    }
}

/// Solves one arithmetic constraint at a time.
pub struct ArithmeticSolver;

impl ArithmeticSolver {
    /// One solve attempt on the constraint `gate = 0`.
    ///
    /// A `Solved` answer carries a guarantee: every witness the constraint
    /// mentions is bound and its residue is zero under the final
    /// assignment. A fully determined constraint is answered outright —
    /// `Solved` when its residue is
    /// zero, the fatal unsatisfied-constraint failure when not, the
    /// assignment untouched either way. A gate that is linear in its single
    /// unknown witness binds that witness to the unique satisfying value.
    /// Anything else stalls with the assignment untouched, and stalling
    /// can only happen while some mentioned witness carries no value; the
    /// assignment only ever grows.
    pub fn solve(initial_witness: &mut WitnessMap, gate: &Expression) -> (r: Result<
        OpcodeResolution,
        OpcodeResolutionError,
    >)
        ensures
            map_extends(final(initial_witness)@, old(initial_witness)@),
            match r {
                Result::Ok(OpcodeResolution::Solved) => expr_all_bound(
                    *gate,
                    final(initial_witness)@,
                ) && eval_value(*gate, final(initial_witness)@) == 0,
                Result::Ok(OpcodeResolution::InProgress) => false,
                Result::Ok(OpcodeResolution::Stalled(_)) => final(initial_witness)@ == old(
                    initial_witness,
                )@ && !expr_all_bound(*gate, old(initial_witness)@),
                Result::Err(e) => {
                    &&& e == OpcodeResolutionError::UnsatisfiedConstrain
                    &&& final(initial_witness)@ == old(initial_witness)@
                },
            },
            expr_all_bound(*gate, old(initial_witness)@) && eval_value(
                *gate,
                old(initial_witness)@,
            ) == 0 ==> r == Result::<OpcodeResolution, OpcodeResolutionError>::Ok(
                OpcodeResolution::Solved,
            ),
            expr_all_bound(*gate, old(initial_witness)@) && eval_value(
                *gate,
                old(initial_witness)@,
            ) != 0 ==> r is Err,
    {
        let ghost m = modulus() as int;
        let ghost orig = initial_witness@;
        let ghost res = residues(orig);

        // Fully determined constraints are checked outright.
        match get_value(gate, initial_witness) {
            Result::Ok(v) => {
                if v.is_zero() {
                    return Result::Ok(OpcodeResolution::Solved);
                } else {
                    return Result::Err(OpcodeResolutionError::UnsatisfiedConstrain);
                }
            },
            Result::Err(_) => {},
        }

        let w0 = match scan_gate(gate, initial_witness) {
            GateScan::AllBound => {
                // Contradicts the failed full evaluation above.
                proof {
                    assert(false);
                }
                return Result::Err(OpcodeResolutionError::UnsatisfiedConstrain);
            },
            GateScan::NotLinear => {
                return Result::Ok(
                    OpcodeResolution::Stalled(
                        OpcodeNotSolvable::ExpressionHasTooManyUnknowns(gate.clone()),
                    ),
                );
            },
            GateScan::OneUnknown(w) => w,
        };

        // Accumulate the constraint as `coeff * w0 + acc = 0`.
        let muls = &gate.mul_terms;
        let lins = &gate.linear_combinations;
        let mut acc = FieldElement(0).add(gate.q_c);
        let mut coeff = FieldElement(0);
        let mut i: usize = 0;
        while i < muls.len()
            invariant
                i <= muls@.len(),
                muls == &gate.mul_terms,
                lins == &gate.linear_combinations,
                initial_witness@ == orig,
                res == residues(orig),
                linear_in_unknown(*gate, orig, w0.0),
                acc.value() as int == (gate.q_c.value() + mul_const_sum(
                    muls@.take(i as int),
                    res,
                    w0.0,
                )) % (modulus() as int),
                coeff.value() as int == mul_coeff_sum(muls@.take(i as int), res, w0.0) % (
                modulus() as int),
            decreases muls@.len() - i,
        {
            let (c, w1, w2) = muls[i];
            let ghost tseq = muls@.take(i as int);
            let ghost t = muls@[i as int];
            proof {
                assert(muls@.take(i as int + 1) =~= tseq.push(t));
                assert(tseq.push(t).drop_last() =~= tseq);
            }
            if w1.0 == w0.0 {
                // The other factor is bound; its value joins the coefficient.
                let x2 = match initial_witness.get(w2) {
                    Option::Some(v) => v,
                    Option::None => {
                        proof {
                            assert(false);
                        }
                        FieldElement(0)
                    },
                };
                coeff = coeff.add(c.mul(x2));
                proof {
                    let m = modulus() as int;
                    let ci = c.value() as int;
                    let x = x2.value() as int;
                    assert(res.contains_key(w2.0) && res[w2.0] == x2.value());
                    lemma_mul_const_push(tseq, t, res, w0.0);
                    assert(mul_coeff_sum(muls@.take(i as int + 1), res, w0.0) == mul_coeff_sum(
                        tseq,
                        res,
                        w0.0,
                    ) + ci * x);
                    lemma_mod_add_reduced(mul_coeff_sum(tseq, res, w0.0), ci * x);
                    vstd::arithmetic::div_mod::lemma_add_mod_noop(
                        mul_coeff_sum(tseq, res, w0.0),
                        ci * x,
                        m,
                    );
                    vstd::arithmetic::div_mod::lemma_mod_twice(
                        mul_coeff_sum(tseq, res, w0.0),
                        m,
                    );
                    vstd::arithmetic::div_mod::lemma_mod_bound(ci * x, m);
                }
            } else if w2.0 == w0.0 {
                let x1 = match initial_witness.get(w1) {
                    Option::Some(v) => v,
                    Option::None => {
                        proof {
                            assert(false);
                        }
                        FieldElement(0)
                    },
                };
                coeff = coeff.add(c.mul(x1));
                proof {
                    let m = modulus() as int;
                    let ci = c.value() as int;
                    let x = x1.value() as int;
                    assert(res.contains_key(w1.0) && res[w1.0] == x1.value());
                    lemma_mul_const_push(tseq, t, res, w0.0);
                    vstd::arithmetic::div_mod::lemma_add_mod_noop(
                        mul_coeff_sum(tseq, res, w0.0),
                        ci * x,
                        m,
                    );
                    vstd::arithmetic::div_mod::lemma_mod_twice(
                        mul_coeff_sum(tseq, res, w0.0),
                        m,
                    );
                    vstd::arithmetic::div_mod::lemma_mod_bound(ci * x, m);
                }
            } else {
                let x1 = match initial_witness.get(w1) {
                    Option::Some(v) => v,
                    Option::None => {
                        proof {
                            assert(false);
                        }
                        FieldElement(0)
                    },
                };
                let x2 = match initial_witness.get(w2) {
                    Option::Some(v) => v,
                    Option::None => {
                        proof {
                            assert(false);
                        }
                        FieldElement(0)
                    },
                };
                acc = acc.add(c.mul(x1).mul(x2));
                proof {
                    let m = modulus() as int;
                    let ci = c.value() as int;
                    let xa = x1.value() as int;
                    let xb = x2.value() as int;
                    assert(res.contains_key(w1.0) && res[w1.0] == x1.value());
                    assert(res.contains_key(w2.0) && res[w2.0] == x2.value());
                    lemma_mul_const_push(tseq, t, res, w0.0);
                    assert(mul_term_value(t, res) == ci * xa * xb);
                    vstd::arithmetic::div_mod::lemma_mul_mod_noop_general(ci * xa, xb, m);
                    let s0 = gate.q_c.value() + mul_const_sum(tseq, res, w0.0);
                    vstd::arithmetic::div_mod::lemma_add_mod_noop(s0, ci * xa * xb, m);
                    vstd::arithmetic::div_mod::lemma_mod_twice(s0, m);
                    vstd::arithmetic::div_mod::lemma_mod_bound(ci * xa * xb, m);
                }
            }
            i = i + 1;
        }
        proof {
            assert(muls@.take(muls@.len() as int) =~= muls@);
        }
        let mut k: usize = 0;
        while k < lins.len()
            invariant
                k <= lins@.len(),
                muls == &gate.mul_terms,
                lins == &gate.linear_combinations,
                initial_witness@ == orig,
                res == residues(orig),
                linear_in_unknown(*gate, orig, w0.0),
                acc.value() as int == (gate.q_c.value() + mul_const_sum(muls@, res, w0.0)
                    + lin_const_sum(lins@.take(k as int), res, w0.0)) % (modulus() as int),
                coeff.value() as int == (mul_coeff_sum(muls@, res, w0.0) + lin_coeff_sum(
                    lins@.take(k as int),
                    res,
                    w0.0,
                )) % (modulus() as int),
            decreases lins@.len() - k,
        {
            let (c, w) = lins[k];
            let ghost tseq = lins@.take(k as int);
            let ghost t = lins@[k as int];
            proof {
                assert(lins@.take(k as int + 1) =~= tseq.push(t));
                assert(tseq.push(t).drop_last() =~= tseq);
            }
            if w.0 == w0.0 {
                coeff = coeff.add(c);
                proof {
                    let m = modulus() as int;
                    lemma_lin_const_push(tseq, t, res, w0.0);
                    let base = mul_coeff_sum(muls@, res, w0.0) + lin_coeff_sum(tseq, res, w0.0);
                    vstd::arithmetic::div_mod::lemma_add_mod_noop(base, c.value() as int, m);
                    vstd::arithmetic::div_mod::lemma_mod_twice(base, m);
                    lemma_mod_add_reduced(c.value() as int, base % m);
                    vstd::arithmetic::div_mod::lemma_add_mod_noop(
                        base % m,
                        c.value() as int,
                        m,
                    );
                    vstd::arithmetic::div_mod::lemma_mod_twice(base, m);
                }
            } else {
                let x = match initial_witness.get(w) {
                    Option::Some(v) => v,
                    Option::None => {
                        proof {
                            assert(false);
                        }
                        FieldElement(0)
                    },
                };
                acc = acc.add(c.mul(x));
                proof {
                    let m = modulus() as int;
                    let ci = c.value() as int;
                    let xa = x.value() as int;
                    assert(res.contains_key(w.0) && res[w.0] == x.value());
                    lemma_lin_const_push(tseq, t, res, w0.0);
                    assert(lin_term_value(t, res) == ci * xa);
                    let s0 = gate.q_c.value() + mul_const_sum(muls@, res, w0.0) + lin_const_sum(
                        tseq,
                        res,
                        w0.0,
                    );
                    vstd::arithmetic::div_mod::lemma_add_mod_noop(s0, ci * xa, m);
                    vstd::arithmetic::div_mod::lemma_mod_twice(s0, m);
                    vstd::arithmetic::div_mod::lemma_mod_bound(ci * xa, m);
                }
            }
            k = k + 1;
        }
        proof {
            assert(lins@.take(lins@.len() as int) =~= lins@);
        }

        if coeff.is_zero() {
            // The unknown's total coefficient vanished: nothing to bind.
            return Result::Ok(
                OpcodeResolution::Stalled(OpcodeNotSolvable::MissingAssignment(w0.0)),
            );
        }
        let inv = match coeff.inverse() {
            Option::Some(inv) => inv,
            Option::None => {
                // Every nonzero residue of a prime field has an inverse, but
                // the inverse is only runtime-checked, so this stall keeps
                // the contract honest.
                return Result::Ok(
                    OpcodeResolution::Stalled(
                        OpcodeNotSolvable::UninvertibleCoefficient(w0.0),
                    ),
                );
            },
        };
        let assignment = acc.neg().mul(inv);
        let ghost vv = assignment.value();
        proof {
            lemma_binding_satisfies(*gate, orig, w0.0, acc, coeff, inv, assignment);
        }
        match insert_value(&w0, assignment, initial_witness) {
            Result::Ok(()) => {
                proof {
                    assert(residues(orig.insert(w0.0, assignment)) =~= res.insert(w0.0, vv));
                }
                Result::Ok(OpcodeResolution::Solved)
            },
            Result::Err(_) => {
                // Unreachable: the unknown is unbound, so the write-once
                // insert cannot conflict.
                proof {
                    assert(false);
                }
                Result::Err(OpcodeResolutionError::UnsatisfiedConstrain)
            },
        }
    }
}

/// Appending a monomial extends the constant part exactly when it does not
/// involve `w0`.
proof fn lemma_mul_const_push(
    ts: Seq<(FieldElement, Witness, Witness)>,
    t: (FieldElement, Witness, Witness),
    a: Map<u32, nat>,
    w0: u32,
)
    ensures
        mul_const_sum(ts.push(t), a, w0) == mul_const_sum(ts, a, w0) + if t.1.0 == w0 || t.2.0
            == w0 {
            0
        } else {
            mul_term_value(t, a)
        },
        mul_coeff_sum(ts.push(t), a, w0) == mul_coeff_sum(ts, a, w0) + if t.1.0 == w0 && t.2.0
            != w0 {
            (t.0.value() * a[t.2.0]) as int
        } else if t.2.0 == w0 && t.1.0 != w0 {
            (t.0.value() * a[t.1.0]) as int
        } else {
            0
        },
    decreases ts.len(),
{
    let s2 = ts.push(t);
    if ts.len() == 0 {
        assert(s2[0] == t);
        assert(s2.drop_first() =~= Seq::<(FieldElement, Witness, Witness)>::empty());
        assert(ts =~= Seq::<(FieldElement, Witness, Witness)>::empty());
        assert(mul_const_sum(Seq::<(FieldElement, Witness, Witness)>::empty(), a, w0) == 0);
        assert(mul_coeff_sum(Seq::<(FieldElement, Witness, Witness)>::empty(), a, w0) == 0);
    } else {
        assert(s2[0] == ts[0]);
        assert(s2.drop_first() =~= ts.drop_first().push(t));
        lemma_mul_const_push(ts.drop_first(), t, a, w0);
    }
}


/// Appending a linear monomial extends the constant and coefficient parts.
proof fn lemma_lin_const_push(
    ts: Seq<(FieldElement, Witness)>,
    t: (FieldElement, Witness),
    a: Map<u32, nat>,
    w0: u32,
)
    ensures
        lin_const_sum(ts.push(t), a, w0) == lin_const_sum(ts, a, w0) + if t.1.0 == w0 {
            0
        } else {
            lin_term_value(t, a)
        },
        lin_coeff_sum(ts.push(t), a, w0) == lin_coeff_sum(ts, a, w0) + if t.1.0 == w0 {
            t.0.value() as int
        } else {
            0
        },
    decreases ts.len(),
{
    let s2 = ts.push(t);
    if ts.len() == 0 {
        assert(s2[0] == t);
        assert(s2.drop_first() =~= Seq::<(FieldElement, Witness)>::empty());
        assert(ts =~= Seq::<(FieldElement, Witness)>::empty());
        assert(lin_const_sum(Seq::<(FieldElement, Witness)>::empty(), a, w0) == 0);
        assert(lin_coeff_sum(Seq::<(FieldElement, Witness)>::empty(), a, w0) == 0);
    } else {
        assert(s2[0] == ts[0]);
        assert(s2.drop_first() =~= ts.drop_first().push(t));
        lemma_lin_const_push(ts.drop_first(), t, a, w0);
    }
}


/// Binding the unknown witness to `neg(acc) * coeff^-1` satisfies the
/// gate: afterwards no witness is missing a value and the polynomial's
/// residue is zero.
proof fn lemma_binding_satisfies(
    gate: Expression,
    orig: Map<u32, FieldElement>,
    w0: u32,
    acc: FieldElement,
    coeff: FieldElement,
    inv: FieldElement,
    assignment: FieldElement,
)
    requires
        linear_in_unknown(gate, orig, w0),
        acc.value() as int == (gate.q_c.value() + mul_const_sum(
            gate.mul_terms@,
            residues(orig),
            w0,
        ) + lin_const_sum(gate.linear_combinations@, residues(orig), w0)) % (modulus() as int),
        coeff.value() as int == (mul_coeff_sum(gate.mul_terms@, residues(orig), w0)
            + lin_coeff_sum(gate.linear_combinations@, residues(orig), w0)) % (modulus() as int),
        (coeff.value() * inv.value()) % modulus() == 1,
        assignment.value() == ((crate::field::f_neg(acc.value()) * inv.value()) % modulus()),
    ensures
        expr_all_bound(gate, orig.insert(w0, assignment)),
        eval_value(gate, orig.insert(w0, assignment)) == 0,
{
    let m = modulus() as int;
    let res = residues(orig);
    let vv = assignment.value();
    let m2 = orig.insert(w0, assignment);
    assert(residues(m2) =~= res.insert(w0, vv));

    // After the binding, every mentioned witness carries a value.
    assert forall|j: int| 0 <= j < gate.mul_terms@.len() implies m2.contains_key(
        (#[trigger] gate.mul_terms@[j]).1.0,
    ) && m2.contains_key(gate.mul_terms@[j].2.0) by {}
    assert forall|j: int| 0 <= j < gate.linear_combinations@.len() implies m2.contains_key(
        (#[trigger] gate.linear_combinations@[j]).1.0,
    ) by {}

    // The polynomial's value is its constant part plus its coefficient
    // part times the unknown.
    lemma_eval_mul_split(gate.mul_terms@, res, w0, vv);
    lemma_eval_lin_split(gate.linear_combinations@, res, w0, vv);
    let cc = gate.q_c.value() + mul_const_sum(gate.mul_terms@, res, w0) + lin_const_sum(
        gate.linear_combinations@,
        res,
        w0,
    );
    let kk = mul_coeff_sum(gate.mul_terms@, res, w0) + lin_coeff_sum(
        gate.linear_combinations@,
        res,
        w0,
    );
    assert((mul_coeff_sum(gate.mul_terms@, res, w0) + lin_coeff_sum(
        gate.linear_combinations@,
        res,
        w0,
    )) * vv == mul_coeff_sum(gate.mul_terms@, res, w0) * vv + lin_coeff_sum(
        gate.linear_combinations@,
        res,
        w0,
    ) * vv) by (nonlinear_arith);
    assert(eval_expr(gate, residues(m2)) == cc + kk * vv);

    // The residue of `cc + kk * vv` equals that of `acc + coeff * vv`.
    let ci = coeff.value() as int;
    let ii = inv.value() as int;
    let na = crate::field::f_neg(acc.value()) as int;
    assert(0 <= na < m) by {
        vstd::arithmetic::div_mod::lemma_mod_bound(
            m - (acc.value() as int) % m,
            m,
        );
    }

    // `coeff * vv` is the negation of `acc`: multiplying out the inverse.
    assert((kk * (vv as int)) % m == na) by {
        vstd::arithmetic::div_mod::lemma_mul_mod_noop_general(kk, vv as int, m);
        assert((kk % m) * (vv as int) == ci * (vv as int)) by (nonlinear_arith)
            requires
                kk % m == ci,
        ;
        // ci * vv ≡ ci * (na * ii) ≡ (ci * ii) * na ≡ na
        vstd::arithmetic::div_mod::lemma_mul_mod_noop_general(na * ii, ci, m);
        assert(ci * (vv as int) == (vv as int) * ci) by (nonlinear_arith);
        assert((na * ii) * ci == (ci * ii) * na) by (nonlinear_arith);
        vstd::arithmetic::div_mod::lemma_mul_mod_noop_general(ci * ii, na, m);
        assert(((ci * ii) % m) * na == na) by (nonlinear_arith)
            requires
                (ci * ii) % m == 1,
        ;
        vstd::arithmetic::div_mod::lemma_small_mod(na as nat, modulus());
    }

    // `acc + f_neg(acc)` vanishes modulo the prime.
    assert((acc.value() + na) % m == 0) by {
        let av = acc.value() as int;
        vstd::arithmetic::div_mod::lemma_mod_bound(av, m);
        vstd::arithmetic::div_mod::lemma_mod_self_0(m);
        vstd::arithmetic::div_mod::lemma_add_mod_noop(av, na, m);
        if av % m == 0 {
            assert(na == (m - 0) % m);
            assert(na == 0);
            vstd::arithmetic::div_mod::lemma_small_mod(0nat, modulus());
        } else {
            vstd::arithmetic::div_mod::lemma_small_mod((m - av % m) as nat, modulus());
            assert(na == m - av % m);
            assert((av % m + na % m) % m == 0);
        }
    }

    // Chain: eval = cc + kk*vv ≡ acc + na ≡ 0 (mod m).
    assert((cc + kk * (vv as int)) % m == 0) by {
        vstd::arithmetic::div_mod::lemma_add_mod_noop(cc, kk * (vv as int), m);
        vstd::arithmetic::div_mod::lemma_add_mod_noop(acc.value() as int, na, m);
        vstd::arithmetic::div_mod::lemma_mod_twice(cc, m);
        vstd::arithmetic::div_mod::lemma_mod_bound(acc.value() as int, m);
        vstd::arithmetic::div_mod::lemma_small_mod(acc.value(), modulus());
        vstd::arithmetic::div_mod::lemma_small_mod(na as nat, modulus());
    }
    assert(eval_value(gate, m2) == 0);
}

} // verus!
