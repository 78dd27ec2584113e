//! Whole-expression and whole-circuit optimizing passes.
//!
//! [`GeneralOptimizer`] rewrites one constraint expression into canonical
//! form; it changes no satisfying assignment and returns already-canonical
//! expressions unchanged, so applying it twice equals applying it once.

use vstd::prelude::*;
use crate::field::{modulus, FieldElement};
use crate::ir::{
    eval_expr, eval_lin_terms, eval_mul_terms, is_canonical, lemma_eval_lin_insert,
    lemma_eval_lin_remove, lemma_eval_lin_update, lemma_eval_mul_insert, lemma_eval_mul_remove,
    lemma_eval_mul_update, lemma_mod_add_congruent, lemma_mod_shift_multiple, lin_nonzero,
    lin_sorted, lin_term_value, mul_normalized, mul_pair_lt, mul_sorted, mul_term_value,
    Circuit, Expression, Opcode, Witness,
};

verus! {

broadcast use vstd::std_specs::btree::group_btree_axioms, vstd::laws_cmp::group_laws_cmp;

/// The first index whose linear monomial is not strictly below `key`.
fn lin_position(acc: &Vec<(FieldElement, Witness)>, key: u32) -> (i: usize)
    requires
        lin_sorted(acc@),
    ensures
        i <= acc@.len(),
        forall|j: int| 0 <= j < i ==> (#[trigger] acc@[j]).1.0 < key,
        i < acc@.len() ==> acc@[i as int].1.0 >= key,
{
    let mut i: usize = 0;
    while i < acc.len() && acc[i].1.0 < key
        invariant
            i <= acc@.len(),
            lin_sorted(acc@),
            forall|j: int| 0 <= j < i ==> (#[trigger] acc@[j]).1.0 < key,
        decreases acc@.len() - i,
    {
        i = i + 1;
    }
    i
}

/// The first index whose quadratic monomial's witness pair is not strictly
/// below `(k1, k2)` in the lexicographic order.
fn mul_position(acc: &Vec<(FieldElement, Witness, Witness)>, k1: u32, k2: u32) -> (i: usize)
    requires
        mul_sorted(acc@),
    ensures
        i <= acc@.len(),
        forall|j: int|
            0 <= j < i ==> mul_pair_lt((#[trigger] acc@[j]).1.0, acc@[j].2.0, k1, k2),
        i < acc@.len() ==> !mul_pair_lt(acc@[i as int].1.0, acc@[i as int].2.0, k1, k2),
{
    let mut i: usize = 0;
    while i < acc.len() && (acc[i].1.0 < k1 || (acc[i].1.0 == k1 && acc[i].2.0 < k2))
        invariant
            i <= acc@.len(),
            mul_sorted(acc@),
            forall|j: int|
                0 <= j < i ==> mul_pair_lt((#[trigger] acc@[j]).1.0, acc@[j].2.0, k1, k2),
        decreases acc@.len() - i,
    {
        i = i + 1;
    }
    i
}

/// Folds the linear monomial `t` into a sorted, duplicate-free, zero-free
/// accumulator: zero coefficients are dropped, an equal witness is merged
/// by adding coefficients (and removed if the sum is zero), and anything
/// else is inserted at its place in the order.
fn insert_lin(acc: &mut Vec<(FieldElement, Witness)>, t: (FieldElement, Witness))
    requires
        lin_sorted(old(acc)@),
        lin_nonzero(old(acc)@),
    ensures
        lin_sorted(final(acc)@),
        lin_nonzero(final(acc)@),
        final(acc)@.len() <= old(acc)@.len() + 1,
        forall|a: Map<u32, nat>|
            #![trigger eval_lin_terms(final(acc)@, a)]
            eval_lin_terms(final(acc)@, a) % (modulus() as int) == (eval_lin_terms(old(acc)@, a)
                + lin_term_value(t, a)) % (modulus() as int),
        (t.0.value() != 0 && (old(acc)@.len() == 0 || old(acc)@.last().1.0 < t.1.0)) ==> final(acc)@ == old(acc)@.push(t),
{
    let ghost m = modulus() as int;
    if t.0.is_zero() {
        assert forall|a: Map<u32, nat>|
            #![trigger eval_lin_terms(acc@, a)]
            eval_lin_terms(acc@, a) % m == (eval_lin_terms(acc@, a) + lin_term_value(t, a))
                % m by {
            assert(lin_term_value(t, a) == 0);
        }
        return ;
    }
    let i = lin_position(acc, t.1.0);
    let ghost prev = acc@;
    if i < acc.len() && acc[i].1.0 == t.1.0 {
        let merged = acc[i].0.add(t.0);
        let ghost c1 = prev[i as int].0.value() as int;
        let ghost c2 = t.0.value() as int;
        let ghost q = (c1 + c2) / m;
        proof {
            vstd::arithmetic::div_mod::lemma_fundamental_div_mod(c1 + c2, m);
        }
        if merged.is_zero() {
            acc.remove(i);
            assert forall|a: Map<u32, nat>|
                #![trigger eval_lin_terms(acc@, a)]
                eval_lin_terms(acc@, a) % m == (eval_lin_terms(prev, a) + lin_term_value(t, a))
                    % m by {
                lemma_eval_lin_remove(prev, i as int, a);
                let e0 = eval_lin_terms(prev, a);
                let e1 = eval_lin_terms(acc@, a);
                let aw = a[t.1.0] as int;
                assert(e1 == e0 + c2 * aw + m * (-q) * aw) by (nonlinear_arith)
                    requires
                        e1 == e0 - c1 * aw,
                        c1 + c2 == m * q,
                ;
                lemma_mod_shift_multiple(e0 + c2 * aw, -q, aw);
            }
            assert(lin_sorted(acc@) && lin_nonzero(acc@)) by {
                assert(forall|j: int|
                    0 <= j < acc@.len() ==> #[trigger] acc@[j] == if j < i {
                        prev[j]
                    } else {
                        prev[j + 1]
                    });
            }
        } else {
            acc[i] = (merged, t.1);
            assert forall|a: Map<u32, nat>|
                #![trigger eval_lin_terms(acc@, a)]
                eval_lin_terms(acc@, a) % m == (eval_lin_terms(prev, a) + lin_term_value(t, a))
                    % m by {
                lemma_eval_lin_update(prev, i as int, (merged, t.1), a);
                let e0 = eval_lin_terms(prev, a);
                let e1 = eval_lin_terms(acc@, a);
                let aw = a[t.1.0] as int;
                let v = merged.value() as int;
                assert(e1 == e0 + c2 * aw + m * (-q) * aw) by (nonlinear_arith)
                    requires
                        e1 == e0 - c1 * aw + v * aw,
                        v == c1 + c2 - m * q,
                ;
                lemma_mod_shift_multiple(e0 + c2 * aw, -q, aw);
            }
            assert(lin_sorted(acc@) && lin_nonzero(acc@)) by {
                assert(forall|j: int|
                    0 <= j < acc@.len() ==> #[trigger] acc@[j] == if j == i {
                        (merged, t.1)
                    } else {
                        prev[j]
                    });
            }
        }
    } else {
        acc.insert(i, t);
        assert forall|a: Map<u32, nat>|
            #![trigger eval_lin_terms(acc@, a)]
            eval_lin_terms(acc@, a) % m == (eval_lin_terms(prev, a) + lin_term_value(t, a))
                % m by {
            lemma_eval_lin_insert(prev, i as int, t, a);
        }
        assert(lin_sorted(acc@) && lin_nonzero(acc@)) by {
            assert(forall|j: int|
                0 <= j < acc@.len() ==> #[trigger] acc@[j] == if j < i {
                    prev[j]
                } else if j == i {
                    t
                } else {
                    prev[j - 1]
                });
        }
        proof {
            if i == prev.len() {
                assert(acc@ =~= prev.push(t));
            }
        }
    }
}

/// Folds a quadratic monomial into a sorted, duplicate-free, zero-free
/// accumulator, merging monomials that share the same witness pair.
fn insert_mul(acc: &mut Vec<(FieldElement, Witness, Witness)>, t: (FieldElement, Witness, Witness))
    requires
        mul_sorted(old(acc)@),
        mul_normalized(old(acc)@),
        t.1.0 <= t.2.0,
    ensures
        mul_sorted(final(acc)@),
        mul_normalized(final(acc)@),
        final(acc)@.len() <= old(acc)@.len() + 1,
        forall|a: Map<u32, nat>|
            #![trigger eval_mul_terms(final(acc)@, a)]
            eval_mul_terms(final(acc)@, a) % (modulus() as int) == (eval_mul_terms(old(acc)@, a)
                + mul_term_value(t, a)) % (modulus() as int),
        (t.0.value() != 0 && (old(acc)@.len() == 0 || mul_pair_lt(
            old(acc)@.last().1.0,
            old(acc)@.last().2.0,
            t.1.0,
            t.2.0,
        ))) ==> final(acc)@ == old(acc)@.push(t),
{
    let ghost m = modulus() as int;
    if t.0.is_zero() {
        assert forall|a: Map<u32, nat>|
            #![trigger eval_mul_terms(acc@, a)]
            eval_mul_terms(acc@, a) % m == (eval_mul_terms(acc@, a) + mul_term_value(t, a))
                % m by {
            assert(mul_term_value(t, a) == 0) by (nonlinear_arith)
                requires
                    mul_term_value(t, a) == (t.0.value() * a[t.1.0] * a[t.2.0]) as int,
                    t.0.value() == 0,
            ;
        }
        return ;
    }
    let i = mul_position(acc, t.1.0, t.2.0);
    let ghost prev = acc@;
    if i < acc.len() && acc[i].1.0 == t.1.0 && acc[i].2.0 == t.2.0 {
        let merged = acc[i].0.add(t.0);
        let ghost c1 = prev[i as int].0.value() as int;
        let ghost c2 = t.0.value() as int;
        let ghost q = (c1 + c2) / m;
        proof {
            vstd::arithmetic::div_mod::lemma_fundamental_div_mod(c1 + c2, m);
        }
        if merged.is_zero() {
            acc.remove(i);
            assert forall|a: Map<u32, nat>|
                #![trigger eval_mul_terms(acc@, a)]
                eval_mul_terms(acc@, a) % m == (eval_mul_terms(prev, a) + mul_term_value(t, a))
                    % m by {
                lemma_eval_mul_remove(prev, i as int, a);
                let e0 = eval_mul_terms(prev, a);
                let e1 = eval_mul_terms(acc@, a);
                let aw = (a[t.1.0] * a[t.2.0]) as int;
                assert(prev[i as int].1.0 == t.1.0 && prev[i as int].2.0 == t.2.0);
                assert(mul_term_value(prev[i as int], a) == c1 * aw && mul_term_value(t, a) == c2
                    * aw) by (nonlinear_arith)
                    requires
                        mul_term_value(prev[i as int], a) == (prev[i as int].0.value() * a[t.1.0]
                            * a[t.2.0]) as int,
                        mul_term_value(t, a) == (t.0.value() * a[t.1.0] * a[t.2.0]) as int,
                        c1 == prev[i as int].0.value() as int,
                        c2 == t.0.value() as int,
                        aw == (a[t.1.0] * a[t.2.0]) as int,
                ;
                assert(e1 == e0 + c2 * aw + m * (-q) * aw) by (nonlinear_arith)
                    requires
                        e1 == e0 - c1 * aw,
                        c1 + c2 == m * q,
                ;
                lemma_mod_shift_multiple(e0 + c2 * aw, -q, aw);
            }
            assert(mul_sorted(acc@) && mul_normalized(acc@)) by {
                assert(forall|j: int|
                    0 <= j < acc@.len() ==> #[trigger] acc@[j] == if j < i {
                        prev[j]
                    } else {
                        prev[j + 1]
                    });
            }
        } else {
            acc[i] = (merged, t.1, t.2);
            assert forall|a: Map<u32, nat>|
                #![trigger eval_mul_terms(acc@, a)]
                eval_mul_terms(acc@, a) % m == (eval_mul_terms(prev, a) + mul_term_value(t, a))
                    % m by {
                lemma_eval_mul_update(prev, i as int, (merged, t.1, t.2), a);
                let e0 = eval_mul_terms(prev, a);
                let e1 = eval_mul_terms(acc@, a);
                let aw = (a[t.1.0] * a[t.2.0]) as int;
                let v = merged.value() as int;
                assert(prev[i as int].1.0 == t.1.0 && prev[i as int].2.0 == t.2.0);
                assert(mul_term_value(prev[i as int], a) == c1 * aw && mul_term_value(t, a) == c2
                    * aw && mul_term_value((merged, t.1, t.2), a) == v * aw) by (nonlinear_arith)
                    requires
                        mul_term_value(prev[i as int], a) == (prev[i as int].0.value() * a[t.1.0]
                            * a[t.2.0]) as int,
                        mul_term_value(t, a) == (t.0.value() * a[t.1.0] * a[t.2.0]) as int,
                        mul_term_value((merged, t.1, t.2), a) == (merged.value() * a[t.1.0]
                            * a[t.2.0]) as int,
                        c1 == prev[i as int].0.value() as int,
                        c2 == t.0.value() as int,
                        v == merged.value() as int,
                        aw == (a[t.1.0] * a[t.2.0]) as int,
                ;
                assert(e1 == e0 + c2 * aw + m * (-q) * aw) by (nonlinear_arith)
                    requires
                        e1 == e0 - c1 * aw + v * aw,
                        v == c1 + c2 - m * q,
                ;
                lemma_mod_shift_multiple(e0 + c2 * aw, -q, aw);
            }
            assert(mul_sorted(acc@) && mul_normalized(acc@)) by {
                assert(forall|j: int|
                    0 <= j < acc@.len() ==> #[trigger] acc@[j] == if j == i {
                        (merged, t.1, t.2)
                    } else {
                        prev[j]
                    });
            }
        }
    } else {
        acc.insert(i, t);
        assert forall|a: Map<u32, nat>|
            #![trigger eval_mul_terms(acc@, a)]
            eval_mul_terms(acc@, a) % m == (eval_mul_terms(prev, a) + mul_term_value(t, a))
                % m by {
            lemma_eval_mul_insert(prev, i as int, t, a);
        }
        assert(mul_sorted(acc@) && mul_normalized(acc@)) by {
            assert(forall|j: int|
                0 <= j < acc@.len() ==> #[trigger] acc@[j] == if j < i {
                    prev[j]
                } else if j == i {
                    t
                } else {
                    prev[j - 1]
                });
        }
        proof {
            if i == prev.len() {
                assert(acc@ =~= prev.push(t));
            }
        }
    }
}

/// Pure algebraic simplification of one constraint expression.
pub struct GeneralOptimizer;

impl GeneralOptimizer {
    /// Rewrites `expression` into canonical form: duplicate monomials are
    /// merged by summing coefficients, zero-coefficient monomials dropped,
    /// and both term lists sorted by witness identity.
    ///
    /// The rewrite preserves semantics — under every assignment of field
    /// residues the input and output polynomials agree modulo the field
    /// prime, so exactly the same assignments satisfy them — and it is
    /// idempotent: the result is canonical, and a canonical input is
    /// returned unchanged, so a second application returns the first
    /// result as it is.
    pub fn optimize(expression: Expression) -> (r: Expression)
        ensures
            is_canonical(r),
            r.q_c == expression.q_c,
            r.mul_terms@.len() <= expression.mul_terms@.len(),
            r.linear_combinations@.len() <= expression.linear_combinations@.len(),
            forall|a: Map<u32, nat>|
                #![trigger eval_expr(r, a)]
                eval_expr(r, a) % (modulus() as int) == eval_expr(expression, a) % (
                modulus() as int),
            is_canonical(expression) ==> (r.mul_terms@ == expression.mul_terms@
                && r.linear_combinations@ == expression.linear_combinations@),
    {
        let ghost m = modulus() as int;
        let ghost mul_in = expression.mul_terms@;
        let ghost lin_in = expression.linear_combinations@;

        let mut mul_out: Vec<(FieldElement, Witness, Witness)> = Vec::new();
        let mut k: usize = 0;
        while k < expression.mul_terms.len()
            invariant
                k <= mul_in.len(),
                expression.mul_terms@ == mul_in,
                mul_sorted(mul_out@),
                mul_normalized(mul_out@),
                mul_out@.len() <= k,
                forall|a: Map<u32, nat>|
                    #![trigger eval_mul_terms(mul_out@, a)]
                    eval_mul_terms(mul_out@, a) % (modulus() as int) == eval_mul_terms(
                        mul_in.take(k as int),
                        a,
                    ) % (modulus() as int),
                is_canonical(expression) ==> mul_out@ == mul_in.take(k as int),
            decreases mul_in.len() - k,
        {
            let (c, w1, w2) = expression.mul_terms[k];
            let tt = if w1.0 <= w2.0 {
                (c, w1, w2)
            } else {
                (c, w2, w1)
            };
            let ghost prev = mul_out@;
            insert_mul(&mut mul_out, tt);
            proof {
                let orig = mul_in[k as int];
                assert(mul_in.take(k as int + 1) =~= mul_in.take(k as int).push(orig));
                assert forall|a: Map<u32, nat>|
                    #![trigger eval_mul_terms(mul_out@, a)]
                    eval_mul_terms(mul_out@, a) % (modulus() as int) == eval_mul_terms(
                        mul_in.take(k as int + 1),
                        a,
                    ) % (modulus() as int) by {
                    let m = modulus() as int;
                    let x0 = eval_mul_terms(prev, a);
                    let x1 = eval_mul_terms(mul_out@, a);
                    let tk = eval_mul_terms(mul_in.take(k as int), a);
                    let tk1 = eval_mul_terms(mul_in.take(k as int + 1), a);
                    assert(x1 % m == (x0 + mul_term_value(tt, a)) % m);
                    assert(mul_term_value(tt, a) == mul_term_value(orig, a)) by (nonlinear_arith)
                        requires
                            mul_term_value(tt, a) == (tt.0.value() * a[tt.1.0] * a[tt.2.0]) as int,
                            mul_term_value(orig, a) == (orig.0.value() * a[orig.1.0]
                                * a[orig.2.0]) as int,
                            tt.0 == orig.0,
                            (tt.1 == orig.1 && tt.2 == orig.2) || (tt.1 == orig.2 && tt.2
                                == orig.1),
                    ;
                    lemma_eval_mul_insert(mul_in.take(k as int), k as int, orig, a);
                    assert(mul_in.take(k as int).insert(k as int, orig) =~= mul_in.take(
                        k as int,
                    ).push(orig));
                    assert(tk1 == tk + mul_term_value(orig, a));
                    assert(x0 % m == tk % m);
                    lemma_mod_add_congruent(x0, tk, mul_term_value(orig, a));
                    assert(x1 % m == tk1 % m);
                }
                if is_canonical(expression) {
                    assert(tt == orig);
                    assert(mul_out@ == mul_in.take(k as int + 1));
                }
            }
            k = k + 1;
        }
        proof {
            assert(mul_in.take(mul_in.len() as int) =~= mul_in);
        }

        let mut lin_out: Vec<(FieldElement, Witness)> = Vec::new();
        let mut k2: usize = 0;
        while k2 < expression.linear_combinations.len()
            invariant
                k2 <= lin_in.len(),
                expression.linear_combinations@ == lin_in,
                lin_sorted(lin_out@),
                lin_nonzero(lin_out@),
                lin_out@.len() <= k2,
                forall|a: Map<u32, nat>|
                    #![trigger eval_lin_terms(lin_out@, a)]
                    eval_lin_terms(lin_out@, a) % (modulus() as int) == eval_lin_terms(
                        lin_in.take(k2 as int),
                        a,
                    ) % (modulus() as int),
                is_canonical(expression) ==> lin_out@ == lin_in.take(k2 as int),
            decreases lin_in.len() - k2,
        {
            let t = expression.linear_combinations[k2];
            let ghost prev = lin_out@;
            insert_lin(&mut lin_out, t);
            proof {
                assert(lin_in.take(k2 as int + 1) =~= lin_in.take(k2 as int).push(t));
                assert forall|a: Map<u32, nat>|
                    #![trigger eval_lin_terms(lin_out@, a)]
                    eval_lin_terms(lin_out@, a) % (modulus() as int) == eval_lin_terms(
                        lin_in.take(k2 as int + 1),
                        a,
                    ) % (modulus() as int) by {
                    let m = modulus() as int;
                    let x0 = eval_lin_terms(prev, a);
                    let x1 = eval_lin_terms(lin_out@, a);
                    let tk = eval_lin_terms(lin_in.take(k2 as int), a);
                    let tk1 = eval_lin_terms(lin_in.take(k2 as int + 1), a);
                    assert(x1 % m == (x0 + lin_term_value(t, a)) % m);
                    lemma_eval_lin_insert(lin_in.take(k2 as int), k2 as int, t, a);
                    assert(lin_in.take(k2 as int).insert(k2 as int, t) =~= lin_in.take(
                        k2 as int,
                    ).push(t));
                    assert(tk1 == tk + lin_term_value(t, a));
                    assert(x0 % m == tk % m);
                    lemma_mod_add_congruent(x0, tk, lin_term_value(t, a));
                    assert(x1 % m == tk1 % m);
                }
                if is_canonical(expression) {
                    assert(lin_out@ == lin_in.take(k2 as int + 1));
                }
            }
            k2 = k2 + 1;
        }
        proof {
            assert(lin_in.take(lin_in.len() as int) =~= lin_in);
        }

        let r = Expression {
            mul_terms: mul_out,
            linear_combinations: lin_out,
            q_c: expression.q_c,
        };
        assert forall|a: Map<u32, nat>|
            #![trigger eval_expr(r, a)]
            eval_expr(r, a) % m == eval_expr(expression, a) % m by {
            let em1 = eval_mul_terms(r.mul_terms@, a);
            let em0 = eval_mul_terms(mul_in, a);
            let el1 = eval_lin_terms(r.linear_combinations@, a);
            let el0 = eval_lin_terms(lin_in, a);
            let qc = expression.q_c.value() as int;
            lemma_mod_add_congruent(em1, em0, el1 + qc);
            lemma_mod_add_congruent(el1, el0, em0 + qc);
        }
        r
    }
}

} // verus!

// ----------------------------------------------------------------------
// Whole-circuit elimination of redundant range constraints.
// ----------------------------------------------------------------------

verus! {

/// The bit widths, in circuit order, of every range constraint that the
/// opcode sequence places on witness `w`.
pub open spec fn ranges_on(ops: Seq<Opcode>, w: u32) -> Seq<u32>
    decreases ops.len(),
{
    if ops.len() == 0 {
        Seq::empty()
    } else {
        let rest = ranges_on(ops.drop_first(), w);
        match ops[0].spec_range_target() {
            Some(t) => if t.0 == w {
                seq![t.1] + rest
            } else {
                rest
            },
            None => rest,
        }
    }
}

/// The subsequence of opcodes that are not range constraints.
pub open spec fn non_range_ops(ops: Seq<Opcode>) -> Seq<Opcode>
    decreases ops.len(),
{
    if ops.len() == 0 {
        Seq::empty()
    } else {
        let rest = non_range_ops(ops.drop_first());
        match ops[0].spec_range_target() {
            Some(t) => rest,
            None => seq![ops[0]] + rest,
        }
    }
}

/// The least element of a nonempty sequence of bit widths.
pub open spec fn seq_min(s: Seq<u32>) -> u32
    decreases s.len(),
{
    if s.len() == 0 {
        0
    } else if s.len() == 1 {
        s[0]
    } else {
        let rest = seq_min(s.drop_first());
        if s[0] <= rest {
            s[0]
        } else {
            rest
        }
    }
}

/// How appending one opcode changes the range constraints seen on `w`.
pub proof fn lemma_ranges_on_push(ops: Seq<Opcode>, op: Opcode, w: u32)
    ensures
        match op.spec_range_target() {
            Some(t) => if t.0 == w {
                ranges_on(ops.push(op), w) == ranges_on(ops, w).push(t.1)
            } else {
                ranges_on(ops.push(op), w) == ranges_on(ops, w)
            },
            None => ranges_on(ops.push(op), w) == ranges_on(ops, w),
        },
    decreases ops.len(),
{
    let s2 = ops.push(op);
    if ops.len() == 0 {
        assert(s2[0] == op);
        assert(s2.drop_first() =~= Seq::<Opcode>::empty());
        assert(ranges_on(Seq::<Opcode>::empty(), w) =~= Seq::<u32>::empty());
        assert(ops =~= Seq::<Opcode>::empty());
        match op.spec_range_target() {
            Some(t) => {
                if t.0 == w {
                    assert(ranges_on(s2, w) =~= ranges_on(ops, w).push(t.1));
                }
            },
            None => {},
        }
    } else {
        assert(s2[0] == ops[0]);
        assert(s2.drop_first() =~= ops.drop_first().push(op));
        lemma_ranges_on_push(ops.drop_first(), op, w);
        match op.spec_range_target() {
            Some(t) => {
                if t.0 == w {
                    match ops[0].spec_range_target() {
                        Some(t0) => {
                            if t0.0 == w {
                                assert(ranges_on(s2, w) =~= ranges_on(ops, w).push(t.1));
                            }
                        },
                        None => {},
                    }
                }
            },
            None => {},
        }
    }
}

/// How appending one opcode changes the non-range subsequence.
pub proof fn lemma_non_range_push(ops: Seq<Opcode>, op: Opcode)
    ensures
        match op.spec_range_target() {
            Some(t) => non_range_ops(ops.push(op)) == non_range_ops(ops),
            None => non_range_ops(ops.push(op)) == non_range_ops(ops).push(op),
        },
    decreases ops.len(),
{
    let s2 = ops.push(op);
    if ops.len() == 0 {
        assert(s2[0] == op);
        assert(s2.drop_first() =~= Seq::<Opcode>::empty());
        assert(non_range_ops(Seq::<Opcode>::empty()) =~= Seq::<Opcode>::empty());
        assert(ops =~= Seq::<Opcode>::empty());
        match op.spec_range_target() {
            Some(t) => {},
            None => {
                assert(non_range_ops(s2) =~= non_range_ops(ops).push(op));
            },
        }
    } else {
        assert(s2[0] == ops[0]);
        assert(s2.drop_first() =~= ops.drop_first().push(op));
        lemma_non_range_push(ops.drop_first(), op);
        match op.spec_range_target() {
            Some(t) => {},
            None => {
                match ops[0].spec_range_target() {
                    Some(t0) => {},
                    None => {
                        assert(non_range_ops(s2) =~= non_range_ops(ops).push(op));
                    },
                }
            },
        }
    }
}

/// Appending to a nonempty sequence updates its minimum pointwise.
pub proof fn lemma_seq_min_push(s: Seq<u32>, b: u32)
    requires
        s.len() > 0,
    ensures
        seq_min(s.push(b)) == if b < seq_min(s) {
            b
        } else {
            seq_min(s)
        },
    decreases s.len(),
{
    let s2 = s.push(b);
    assert(s2[0] == s[0]);
    if s.len() == 1 {
        assert(s2.drop_first() =~= seq![b]);
        assert(seq_min(seq![b]) == b);
    } else {
        assert(s2.drop_first() =~= s.drop_first().push(b));
        lemma_seq_min_push(s.drop_first(), b);
    }
}

/// A nonempty sequence contains its minimum.
pub proof fn lemma_seq_min_contains(s: Seq<u32>)
    requires
        s.len() > 0,
    ensures
        s.contains(seq_min(s)),
    decreases s.len(),
{
    if s.len() == 1 {
        assert(s[0] == seq_min(s));
    } else {
        lemma_seq_min_contains(s.drop_first());
        if seq_min(s) != s[0] {
            let j = choose|j: int|
                0 <= j < s.drop_first().len() && s.drop_first()[j] == seq_min(s.drop_first());
            assert(s[j + 1] == seq_min(s));
        }
    }
}

/// The minimum is a lower bound for every element: the kept range
/// constraint is at least as tight as every range constraint it replaces.
pub proof fn lemma_seq_min_le(s: Seq<u32>, i: int)
    requires
        0 <= i < s.len(),
    ensures
        seq_min(s) <= s[i],
    decreases s.len(),
{
    if s.len() > 1 && i > 0 {
        lemma_seq_min_le(s.drop_first(), i - 1);
    }
}

/// A range constraint at index `i` shows up in `ranges_on` for its witness.
pub proof fn lemma_ranges_on_index(ops: Seq<Opcode>, i: int, w: u32, b: u32)
    requires
        0 <= i < ops.len(),
        ops[i].spec_range_target() == Some((w, b)),
    ensures
        ranges_on(ops, w).len() > 0,
    decreases i,
{
    if i > 0 {
        lemma_ranges_on_index(ops.drop_first(), i - 1, w, b);
    }
}

/// How the range pass relates its output opcodes to its input: opcodes
/// that are not range constraints are kept exactly, in order; every output
/// opcode is one of the input's; and per witness at most one range
/// constraint remains — exactly one, of the least width, where the input
/// had any.
pub open spec fn range_reduced(inp: Seq<Opcode>, outp: Seq<Opcode>) -> bool {
    &&& non_range_ops(outp) == non_range_ops(inp)
    &&& outp.len() <= inp.len()
    &&& forall|j: int| 0 <= j < outp.len() ==> inp.contains(#[trigger] outp[j])
    &&& forall|w: u32| #![trigger ranges_on(outp, w)] {
        &&& ranges_on(outp, w).len() <= 1
        &&& ranges_on(inp, w).len() > 0 ==> (ranges_on(outp, w) =~= seq![
            seq_min(ranges_on(inp, w)),
        ])
        &&& ranges_on(inp, w).len() == 0 ==> ranges_on(outp, w).len() == 0
    }
}

/// Opcode sequences whose entries agree position by position on whether
/// and how they range-constrain a witness carry the same range
/// constraints.
pub proof fn lemma_ranges_on_same_targets(s1: Seq<Opcode>, s2: Seq<Opcode>)
    requires
        s1.len() == s2.len(),
        forall|j: int|
            0 <= j < s1.len() ==> (#[trigger] s1[j]).spec_range_target()
                == s2[j].spec_range_target(),
    ensures
        forall|w: u32| #[trigger] ranges_on(s1, w) == ranges_on(s2, w),
    decreases s1.len(),
{
    if s1.len() > 0 {
        assert forall|j: int|
            0 <= j < s1.drop_first().len() implies (
        #[trigger] s1.drop_first()[j]).spec_range_target()
            == s2.drop_first()[j].spec_range_target() by {
            assert(s1[j + 1].spec_range_target() == s2[j + 1].spec_range_target());
        }
        lemma_ranges_on_same_targets(s1.drop_first(), s2.drop_first());
        assert forall|w: u32| #[trigger] ranges_on(s1, w) == ranges_on(s2, w) by {
            assert(ranges_on(s1.drop_first(), w) == ranges_on(s2.drop_first(), w));
            assert(s1[0].spec_range_target() == s2[0].spec_range_target());
        }
    }
}

/// Whole-circuit redundant bound-constraint elimination: of all the range
/// constraints placed on one witness only the tightest is kept.
pub struct RangeOptimizer {
    pub circuit: Circuit,
}

impl RangeOptimizer {
    /// Wraps the circuit the pass will rewrite.
    pub fn new(acir: Circuit) -> (r: RangeOptimizer)
        ensures
            r.circuit == acir,
    {
        RangeOptimizer { circuit: acir }
    }

    /// Removes every range opcode that is not the single tightest bound
    /// for its witness: in the result at most one range constraint per
    /// witness remains; where the input had any, exactly one remains and
    /// its width is the least width the input imposed on that witness.
    /// Opcodes that are not range constraints are kept unchanged, in
    /// order, and the circuit's bookkeeping is untouched.
    pub fn replace_redundant_ranges(self) -> (r: Circuit)
        ensures
            r.current_witness_index == self.circuit.current_witness_index,
            r.public_parameters == self.circuit.public_parameters,
            r.return_values == self.circuit.return_values,
            range_reduced(self.circuit.opcodes@, r.opcodes@),
    {
        let RangeOptimizer { circuit } = self;
        let Circuit { current_witness_index, opcodes, public_parameters, return_values } = circuit;
        let ghost all = opcodes@;

        // First sweep: the tightest width each witness is bounded to.
        let mut tightest: std::collections::BTreeMap<u32, u32> =
            std::collections::BTreeMap::new();
        let mut i: usize = 0;
        while i < opcodes.len()
            invariant
                i <= all.len(),
                opcodes@ == all,
                forall|w: u32| #![trigger ranges_on(all.take(i as int), w)] {
                    &&& tightest@.contains_key(w) <==> ranges_on(all.take(i as int), w).len() > 0
                    &&& tightest@.contains_key(w) ==> tightest@[w] == seq_min(
                        ranges_on(all.take(i as int), w),
                    )
                },
            decreases all.len() - i,
        {
            let ghost pre = tightest@;
            if let Some((w, b)) = opcodes[i].range_target() {
                let cur = tightest.get(&w);
                match cur {
                    Option::None => {
                        tightest.insert(w, b);
                    },
                    Option::Some(cb) => {
                        if b < *cb {
                            tightest.insert(w, b);
                        }
                    },
                }
            }
            proof {
                let op = all[i as int];
                assert(all.take(i as int + 1) =~= all.take(i as int).push(op));
                assert forall|w: u32| #![trigger ranges_on(all.take(i as int + 1), w)] {
                    &&& tightest@.contains_key(w) <==> ranges_on(all.take(i as int + 1), w).len()
                        > 0
                    &&& tightest@.contains_key(w) ==> tightest@[w] == seq_min(
                        ranges_on(all.take(i as int + 1), w),
                    )
                } by {
                    lemma_ranges_on_push(all.take(i as int), op, w);
                    match op.spec_range_target() {
                        Some(t) => {
                            if t.0 == w {
                                let old_r = ranges_on(all.take(i as int), w);
                                if old_r.len() > 0 {
                                    lemma_seq_min_push(old_r, t.1);
                                } else {
                                    assert(old_r.push(t.1) =~= seq![t.1]);
                                }
                            }
                        },
                        None => {},
                    }
                }
            }
            i = i + 1;
        }
        proof {
            assert(all.take(all.len() as int) =~= all);
        }

        // Second sweep: keep only the first occurrence of the tightest
        // bound for each witness; everything else passes through.
        let ghost tmap = tightest@;
        let mut kept: std::collections::BTreeSet<u32> = std::collections::BTreeSet::new();
        let mut out: Vec<Opcode> = Vec::new();
        let mut rest = opcodes;
        let ghost mut done: int = 0;
        while rest.len() > 0
            invariant
                0 <= done <= all.len(),
                rest@ == all.skip(done),
                tightest@ == tmap,
                out@.len() <= done,
                forall|j: int| 0 <= j < out@.len() ==> all.contains(#[trigger] out@[j]),
                forall|w: u32| #![trigger ranges_on(all, w)] {
                    &&& tmap.contains_key(w) <==> ranges_on(all, w).len() > 0
                    &&& tmap.contains_key(w) ==> tmap[w] == seq_min(ranges_on(all, w))
                },
                forall|w: u32| #![trigger ranges_on(out@, w)] {
                    &&& ranges_on(out@, w).len() <= 1
                    &&& (kept@.contains(w) <==> ranges_on(out@, w).len() == 1)
                    &&& kept@.contains(w) ==> ranges_on(out@, w) =~= seq![
                        seq_min(ranges_on(all, w)),
                    ]
                },
                forall|w: u32| #![trigger kept@.contains(w)] {
                    &&& kept@.contains(w) ==> ranges_on(all.take(done), w).len() > 0
                    &&& ranges_on(all.take(done), w).contains(seq_min(ranges_on(all, w)))
                        ==> kept@.contains(w)
                },
                non_range_ops(out@) == non_range_ops(all.take(done)),
            decreases rest@.len(),
        {
            let op = rest.remove(0);
            let ghost opg = op;
            let ghost out_pre = out@;
            let ghost kept_pre = kept@;
            proof {
                assert(all.skip(done).len() > 0);
                assert(opg == all[done]);
                assert(all.skip(done).remove(0) =~= all.skip(done + 1));
                assert(all.take(done + 1) =~= all.take(done).push(opg));
            }
            let target = op.range_target();
            match target {
                Option::None => {
                    out.push(op);
                },
                Option::Some((w, b)) => {
                    proof {
                        lemma_ranges_on_index(all, done, w, b);
                    }
                    let already = kept.contains(&w);
                    let keep_it = if already {
                        false
                    } else {
                        match tightest.get(&w) {
                            Option::Some(tb) => b == *tb,
                            Option::None => {
                                proof {
                                    assert(tmap.contains_key(w));
                                }
                                false
                            },
                        }
                    };
                    if keep_it {
                        out.push(op);
                        kept.insert(w);
                    }
                },
            }
            proof {
                assert forall|w: u32| #![trigger ranges_on(out@, w)] {
                    &&& ranges_on(out@, w).len() <= 1
                    &&& (kept@.contains(w) <==> ranges_on(out@, w).len() == 1)
                    &&& kept@.contains(w) ==> ranges_on(out@, w) =~= seq![
                        seq_min(ranges_on(all, w)),
                    ]
                } by {
                    if out@ != out_pre {
                        lemma_ranges_on_push(out_pre, opg, w);
                    }
                }
                assert forall|w: u32| #![trigger kept@.contains(w)] {
                    &&& kept@.contains(w) ==> ranges_on(all.take(done + 1), w).len() > 0
                    &&& ranges_on(all.take(done + 1), w).contains(seq_min(ranges_on(all, w)))
                        ==> kept@.contains(w)
                } by {
                    lemma_ranges_on_push(all.take(done), opg, w);
                    if kept@.contains(w) && !kept_pre.contains(w) {
                        lemma_ranges_on_index(all.take(done + 1), done, w,
                            opg.spec_range_target()->Some_0.1);
                    }
                    let mn = seq_min(ranges_on(all, w));
                    if ranges_on(all.take(done + 1), w).contains(mn) && !ranges_on(
                        all.take(done),
                        w,
                    ).contains(mn) {
                        assert(ranges_on(all.take(done + 1), w).last() == mn);
                    }
                }
                lemma_non_range_push(all.take(done), opg);
                if out@ != out_pre {
                    lemma_non_range_push(out_pre, opg);
                }
                done = done + 1;
            }
        }
        proof {
            assert(all.take(all.len() as int) =~= all);
            assert forall|w: u32| #![trigger ranges_on(all, w)]
                ranges_on(all, w).len() > 0 implies kept@.contains(w) by {
                lemma_seq_min_contains(ranges_on(all, w));
            }
        }
        Circuit { current_witness_index, opcodes: out, public_parameters, return_values }
    }
}

} // verus!
