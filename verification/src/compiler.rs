//! The compilation pipeline: opcode-rewriting passes that bring a circuit
//! into the shape a proving backend consumes.
//!
//! The pass order is load-bearing: fallback expansion runs first because
//! it introduces fresh arithmetic and range opcodes the later passes must
//! see; the general optimizer canonicalizes every arithmetic constraint;
//! range optimization then prunes redundant bound constraints before the
//! width transformer would needlessly split them; and the width strategy
//! runs last, as the only pass that grows the witness counter based on
//! final constraint shapes.

use vstd::prelude::*;
use crate::ir::{BlackBoxFunc, Circuit, Opcode};
use crate::Language;

pub mod optimizers;
pub mod transformers;

use optimizers::{
    lemma_ranges_on_push, lemma_ranges_on_same_targets, range_reduced, ranges_on, seq_min,
    GeneralOptimizer, RangeOptimizer,
};
use transformers::{
    all_black_box_supported, arith_small, fallback_fails_at, fallback_inputs_wf, CSatTransformer,
    FallbackRegistry, FallbackTransformer, OpcodeSupport, R1CSTransformer, MAX_EXPR_TERMS,
    MAX_OPCODES, MAX_START_WITNESS,
};
use crate::field::modulus;
use crate::ir::{eval_expr, is_canonical};

verus! {

/// How the per-opcode optimizing pass relates its output to its input:
/// same length; every arithmetic opcode is rewritten into the canonical,
/// equisatisfiable form of its input — under every assignment of residues
/// the two polynomials agree modulo the field prime, and an
/// already-canonical expression comes out unchanged — while every other
/// opcode passes through exactly.
pub open spec fn optimized_rewrite_of(inp: Seq<Opcode>, outp: Seq<Opcode>) -> bool {
    &&& outp.len() == inp.len()
    &&& forall|j: int|
        0 <= j < inp.len() ==> match #[trigger] inp[j] {
            Opcode::Arithmetic(e) => outp[j] matches Opcode::Arithmetic(e2) && {
                &&& is_canonical(e2)
                &&& forall|a: Map<u32, nat>|
                    #![trigger eval_expr(e2, a)]
                    eval_expr(e2, a) % (modulus() as int) == eval_expr(e, a) % (modulus() as int)
                &&& (is_canonical(e) ==> e2.mul_terms@ == e.mul_terms@
                    && e2.linear_combinations@ == e.linear_combinations@ && e2.q_c == e.q_c)
            },
            _ => outp[j] == inp[j],
        }
}

/// The only fatal compile-time failure: a special-function opcode that the
/// backend does not support natively and for which no fallback
/// decomposition is registered.
#[derive(Clone, Copy, PartialEq, Eq, Structural, Debug)]
pub enum CompileError {
    UnsupportedBlackBox(BlackBoxFunc),
}

/// Rewrites `acir` into the form the selected backend consumes: fallback
/// expansion, per-opcode algebraic simplification, redundant-range
/// elimination, and the backend's width strategy, in that order.
///
/// Compilation fails — naming the function kind, with no circuit produced
/// — exactly when the circuit holds a special-function call the backend
/// does not support and no fallback is registered for; the kind named is
/// the first such. On success the witness counter never shrinks, the
/// public-parameter and return-value sets are untouched, every remaining
/// special-function call is natively supported, and under a width-bounded
/// backend every arithmetic opcode holds at most `width` linear terms.
pub fn compile(
    acir: Circuit,
    np_language: Language,
    is_opcode_supported: &OpcodeSupport,
    registry: &FallbackRegistry,
) -> (r: Result<Circuit, CompileError>)
    requires
        acir.opcodes@.len() <= MAX_OPCODES,
        acir.current_witness_index <= MAX_START_WITNESS,
        arith_small(acir.opcodes@),
        fallback_inputs_wf(acir.opcodes@, is_opcode_supported, registry),
        np_language matches Language::PLONKCSat { width } ==> width >= 3,
    ensures
        r is Err <==> exists|i: int|
            0 <= i < acir.opcodes@.len() && fallback_fails_at(
                acir.opcodes@,
                is_opcode_supported,
                registry,
                i,
            ),
        r matches Err(e) ==> exists|i: int|
            {
                &&& 0 <= i < acir.opcodes@.len()
                &&& #[trigger] fallback_fails_at(acir.opcodes@, is_opcode_supported, registry, i)
                &&& forall|j: int|
                    0 <= j < i ==> !fallback_fails_at(
                        acir.opcodes@,
                        is_opcode_supported,
                        registry,
                        j,
                    )
                &&& acir.opcodes@[i] matches Opcode::BlackBoxFuncCall(call) && e
                    == CompileError::UnsupportedBlackBox(call.name)
            },
        r matches Ok(out) ==> {
            &&& out.current_witness_index >= acir.current_witness_index
            &&& out.public_parameters == acir.public_parameters
            &&& out.return_values == acir.return_values
            &&& forall|j: int|
                0 <= j < out.opcodes@.len() ==> match #[trigger] out.opcodes@[j] {
                    Opcode::BlackBoxFuncCall(call) => is_opcode_supported.spec_supports(call.name),
                    _ => true,
                }
            &&& (np_language matches Language::PLONKCSat { width } ==> forall|j: int|
                0 <= j < out.opcodes@.len() ==> match #[trigger] out.opcodes@[j] {
                    Opcode::Arithmetic(e) => e.linear_combinations@.len() <= width,
                    _ => true,
                })
            &&& (np_language is R1CS && all_black_box_supported(
                acir.opcodes@,
                is_opcode_supported,
            ) ==> exists|mid: Seq<Opcode>|
                optimized_rewrite_of(acir.opcodes@, mid) && #[trigger] range_reduced(
                    mid,
                    out.opcodes@,
                ))
            &&& (all_black_box_supported(acir.opcodes@, is_opcode_supported) ==> forall|w: u32|
                #![trigger ranges_on(out.opcodes@, w)]
                {
                    &&& ranges_on(out.opcodes@, w).len() <= 1
                    &&& ranges_on(acir.opcodes@, w).len() > 0 ==> (ranges_on(out.opcodes@, w)
                        =~= seq![seq_min(ranges_on(acir.opcodes@, w))])
                    &&& ranges_on(acir.opcodes@, w).len() == 0 ==> ranges_on(
                        out.opcodes@,
                        w,
                    ).len() == 0
                })
        },
{
    // Fallback transformer pass.
    let fb = match FallbackTransformer::transform(acir, is_opcode_supported, registry) {
        Result::Ok(c) => c,
        Result::Err(e) => {
            return Result::Err(e);
        },
    };

    // General optimizer pass over every arithmetic opcode.
    let Circuit {
        current_witness_index: fb_witness,
        opcodes: fb_opcodes,
        public_parameters: fb_public,
        return_values: fb_returns,
    } = fb;
    let ghost fb_ops = fb_opcodes@;
    let mut optimized: Vec<Opcode> = Vec::new();
    let mut rest = fb_opcodes;
    let ghost mut done: int = 0;
    while rest.len() > 0
        invariant
            0 <= done <= fb_ops.len(),
            rest@ == fb_ops.skip(done),
            optimized@.len() == done,
            optimized_rewrite_of(fb_ops.take(done), optimized@),
            arith_small(fb_ops),
            arith_small(optimized@),
            forall|j: int|
                0 <= j < fb_ops.len() ==> match #[trigger] fb_ops[j] {
                    Opcode::BlackBoxFuncCall(call) => is_opcode_supported.spec_supports(call.name),
                    _ => true,
                },
            forall|j: int|
                0 <= j < optimized@.len() ==> match #[trigger] optimized@[j] {
                    Opcode::BlackBoxFuncCall(call) => is_opcode_supported.spec_supports(call.name),
                    _ => true,
                },
        decreases rest@.len(),
    {
        let op = rest.remove(0);
        proof {
            assert(op == fb_ops[done]);
            assert(fb_ops.skip(done).remove(0) =~= fb_ops.skip(done + 1));
        }
        let ghost opt_pre = optimized@;
        match op {
            Opcode::Arithmetic(arith_expr) => {
                optimized.push(Opcode::Arithmetic(GeneralOptimizer::optimize(arith_expr)));
            },
            other_gate => {
                optimized.push(other_gate);
            },
        }
        proof {
            assert(fb_ops.take(done + 1) =~= fb_ops.take(done).push(fb_ops[done]));
            assert forall|j: int|
                0 <= j < done + 1 implies match #[trigger] fb_ops.take(done + 1)[j] {
                Opcode::Arithmetic(e) => optimized@[j] matches Opcode::Arithmetic(e2) && {
                    &&& is_canonical(e2)
                    &&& forall|a: Map<u32, nat>|
                        #![trigger eval_expr(e2, a)]
                        eval_expr(e2, a) % (modulus() as int) == eval_expr(e, a) % (
                        modulus() as int)
                    &&& (is_canonical(e) ==> e2.mul_terms@ == e.mul_terms@
                        && e2.linear_combinations@ == e.linear_combinations@ && e2.q_c == e.q_c)
                },
                _ => optimized@[j] == fb_ops.take(done + 1)[j],
            } by {
                if j < done {
                    assert(fb_ops.take(done + 1)[j] == fb_ops.take(done)[j]);
                    assert(optimized@[j] == opt_pre[j]);
                }
            }
            done = done + 1;
        }
    }
    proof {
        assert(fb_ops.skip(done) =~= fb_ops.skip(fb_ops.len() as int));
        assert(fb_ops.take(done) =~= fb_ops);
    }
    let opt_circuit = Circuit {
        current_witness_index: fb_witness,
        opcodes: optimized,
        public_parameters: fb_public,
        return_values: fb_returns,
    };
    let ghost opt_ops = opt_circuit.opcodes@;
    proof {
        // The optimizer rewrites arithmetic opcodes and keeps everything
        // else, so the range constraints are untouched position by
        // position.
        assert forall|j: int|
            0 <= j < fb_ops.len() implies (#[trigger] fb_ops[j]).spec_range_target()
            == opt_ops[j].spec_range_target() by {
            match fb_ops[j] {
                Opcode::Arithmetic(e) => {},
                _ => {},
            }
        }
        lemma_ranges_on_same_targets(fb_ops, opt_ops);
    }

    // Range optimization pass.
    let range_optimizer = RangeOptimizer::new(opt_circuit);
    let ranged = range_optimizer.replace_redundant_ranges();
    proof {
        assert forall|j: int| 0 <= j < ranged.opcodes@.len() implies {
            &&& match #[trigger] ranged.opcodes@[j] {
                Opcode::BlackBoxFuncCall(call) => is_opcode_supported.spec_supports(call.name),
                _ => true,
            }
            &&& match ranged.opcodes@[j] {
                Opcode::Arithmetic(e) => e.linear_combinations@.len() <= MAX_EXPR_TERMS
                    && e.mul_terms@.len() <= MAX_EXPR_TERMS,
                _ => true,
            }
        } by {
            let op = ranged.opcodes@[j];
            assert(opt_ops.contains(op));
            let k = choose|k: int| 0 <= k < opt_ops.len() && opt_ops[k] == op;
            assert(opt_ops[k] == op);
        }
    }

    // Width strategy.
    let transformer = match np_language {
        Language::R1CS => {
            proof {
                if all_black_box_supported(acir.opcodes@, is_opcode_supported) {
                    assert(fb_ops == acir.opcodes@);
                    assert(optimized_rewrite_of(acir.opcodes@, opt_ops));
                    assert(range_reduced(opt_ops, ranged.opcodes@));
                    assert(exists|mid: Seq<Opcode>|
                        optimized_rewrite_of(acir.opcodes@, mid) && #[trigger] range_reduced(
                            mid,
                            ranged.opcodes@,
                        ));
                    assert forall|w: u32|
                        #![trigger ranges_on(ranged.opcodes@, w)]
                        {
                            &&& ranges_on(ranged.opcodes@, w).len() <= 1
                            &&& ranges_on(acir.opcodes@, w).len() > 0 ==> (ranges_on(
                                ranged.opcodes@,
                                w,
                            ) =~= seq![seq_min(ranges_on(acir.opcodes@, w))])
                            &&& ranges_on(acir.opcodes@, w).len() == 0 ==> ranges_on(
                                ranged.opcodes@,
                                w,
                            ).len() == 0
                        } by {
                        assert(ranges_on(fb_ops, w) == ranges_on(opt_ops, w));
                    }
                }
            }
            let transformer = R1CSTransformer::new(ranged);
            return Result::Ok(transformer.transform());
        },
        Language::PLONKCSat { width } => CSatTransformer::new(width),
    };

    // Split every arithmetic gate to respect the width bound, allocating
    // intermediate witnesses from a single counter.
    let Circuit {
        current_witness_index: base_witness,
        opcodes: ranged_opcodes,
        public_parameters: out_public,
        return_values: out_returns,
    } = ranged;
    let ghost rops = ranged_opcodes@;
    let mut transformed_gates: Vec<Opcode> = Vec::new();
    let mut next_witness_index: u32 = base_witness + 1;
    let mut rest2 = ranged_opcodes;
    let ghost mut done2: int = 0;
    while rest2.len() > 0
        invariant
            0 <= done2 <= rops.len(),
            rest2@ == rops.skip(done2),
            rops.len() <= 132 * MAX_OPCODES,
            base_witness as int <= MAX_START_WITNESS as int + 1 + 129 * MAX_OPCODES,
            transformer.width >= 3,
            next_witness_index as int >= base_witness as int + 1,
            next_witness_index as int <= base_witness as int + 1 + done2 * MAX_EXPR_TERMS,
            forall|j: int|
                0 <= j < rops.len() ==> match #[trigger] rops[j] {
                    Opcode::Arithmetic(e) => e.linear_combinations@.len() <= MAX_EXPR_TERMS
                        && e.mul_terms@.len() <= MAX_EXPR_TERMS,
                    _ => true,
                },
            forall|j: int|
                0 <= j < rops.len() ==> match #[trigger] rops[j] {
                    Opcode::BlackBoxFuncCall(call) => is_opcode_supported.spec_supports(call.name),
                    _ => true,
                },
            forall|j: int|
                0 <= j < transformed_gates@.len() ==> match #[trigger] transformed_gates@[j] {
                    Opcode::Arithmetic(e) => e.linear_combinations@.len() <= transformer.width,
                    Opcode::BlackBoxFuncCall(call) => is_opcode_supported.spec_supports(call.name),
                    _ => true,
                },
            forall|w: u32| #[trigger] ranges_on(transformed_gates@, w) == ranges_on(
                rops.take(done2),
                w,
            ),
        decreases rest2@.len(),
    {
        let op = rest2.remove(0);
        let ghost tg_before = transformed_gates@;
        proof {
            assert(op == rops[done2]);
            assert(rops.skip(done2).remove(0) =~= rops.skip(done2 + 1));
        }
        match op {
            Opcode::Arithmetic(arith_expr) => {
                let split = transformer.transform_expression(arith_expr, next_witness_index);
                let (defs, fin, new_next) = split;
                next_witness_index = new_next;
                let mut group = defs;
                let ghost pre_sort = group@.push(fin);
                group.push(fin);
                transformers::sort_expressions(&mut group);
                proof {
                    assert forall|j: int| 0 <= j < group@.len() implies (
                    #[trigger] group@[j]).linear_combinations@.len() <= transformer.width by {
                        assert(pre_sort.contains(group@[j]));
                        let k = choose|k: int| 0 <= k < pre_sort.len() && pre_sort[k] == group@[j];
                        assert(pre_sort[k] == group@[j]);
                    }
                }
                let ghost tg_pre = transformed_gates@;
                while group.len() > 0
                    invariant
                        forall|j: int|
                            0 <= j < group@.len() ==> (
                            #[trigger] group@[j]).linear_combinations@.len() <= transformer.width,
                        forall|w: u32| #[trigger] ranges_on(transformed_gates@, w) == ranges_on(
                            tg_pre,
                            w,
                        ),
                        forall|j: int|
                            0 <= j < transformed_gates@.len() ==> match #[trigger] transformed_gates@[j] {
                                Opcode::Arithmetic(e) => e.linear_combinations@.len()
                                    <= transformer.width,
                                Opcode::BlackBoxFuncCall(call) => is_opcode_supported.spec_supports(
                                    call.name,
                                ),
                                _ => true,
                            },
                    decreases group@.len(),
                {
                    let ghost gpre = group@;
                    let ghost tg_step = transformed_gates@;
                    let gate = group.remove(0);
                    proof {
                        assert(gate == gpre[0]);
                        assert(group@ =~= gpre.drop_first());
                    }
                    transformed_gates.push(Opcode::Arithmetic(gate));
                    proof {
                        assert forall|w: u32| #[trigger] ranges_on(transformed_gates@, w)
                            == ranges_on(tg_pre, w) by {
                            lemma_ranges_on_push(tg_step, Opcode::Arithmetic(gate), w);
                        }
                    }
                }
            },
            other_gate => {
                transformed_gates.push(other_gate);
            },
        }
        proof {
            assert(rops.take(done2 + 1) =~= rops.take(done2).push(rops[done2]));
            assert forall|w: u32| #[trigger] ranges_on(transformed_gates@, w) == ranges_on(
                rops.take(done2 + 1),
                w,
            ) by {
                lemma_ranges_on_push(rops.take(done2), rops[done2], w);
                lemma_ranges_on_push(tg_before, rops[done2], w);
                assert(ranges_on(tg_before, w) == ranges_on(rops.take(done2), w));
            }
            done2 = done2 + 1;
        }
    }
    proof {
        assert(rops.skip(done2) =~= rops.skip(rops.len() as int));
        assert(rops.take(done2) =~= rops);
        if all_black_box_supported(acir.opcodes@, is_opcode_supported) {
            assert(fb_ops == acir.opcodes@);
            assert forall|w: u32|
                #![trigger ranges_on(transformed_gates@, w)]
                {
                    &&& ranges_on(transformed_gates@, w).len() <= 1
                    &&& ranges_on(acir.opcodes@, w).len() > 0 ==> (ranges_on(
                        transformed_gates@,
                        w,
                    ) =~= seq![seq_min(ranges_on(acir.opcodes@, w))])
                    &&& ranges_on(acir.opcodes@, w).len() == 0 ==> ranges_on(
                        transformed_gates@,
                        w,
                    ).len() == 0
                } by {
                assert(ranges_on(transformed_gates@, w) == ranges_on(rops, w));
                assert(ranges_on(fb_ops, w) == ranges_on(opt_ops, w));
            }
        }
    }

    Result::Ok(
        Circuit {
            current_witness_index: next_witness_index - 1,
            opcodes: transformed_gates,
            public_parameters: out_public,
            return_values: out_returns,
        },
    )
}

} // verus!
