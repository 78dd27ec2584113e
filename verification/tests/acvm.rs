use acvm::compiler::optimizers::{GeneralOptimizer, RangeOptimizer};
use acvm::compiler::transformers::{FallbackRegistry, OpcodeSupport};
use acvm::compiler::{compile, CompileError};
use acvm::field::{FieldElement, FIELD_MODULUS};
use acvm::ir::{
    BlackBoxFunc, BlackBoxFuncCall, Circuit, Expression, FunctionInput, MemOp, Opcode, Witness,
    WitnessMap,
};
use acvm::pwg::arithmetic::ArithmeticSolver;
use acvm::pwg::block::BlockSolver;
use acvm::pwg::{insert_value, solve, OpcodeNotSolvable, OpcodeResolution, OpcodeResolutionError};
use acvm::Language;

fn lin(terms: &[(u64, u32)], q_c: u64) -> Expression {
    Expression {
        mul_terms: Vec::new(),
        linear_combinations: terms
            .iter()
            .map(|&(c, w)| (FieldElement::from_u64(c), Witness(w)))
            .collect(),
        q_c: FieldElement::from_u64(q_c),
    }
}

fn range_op(w: u32, bits: u32) -> Opcode {
    Opcode::BlackBoxFuncCall(BlackBoxFuncCall {
        name: BlackBoxFunc::RANGE,
        inputs: vec![FunctionInput { witness: Witness(w), num_bits: bits }],
        outputs: Vec::new(),
    })
}

// ----------------------------------------------------------------------
// Field arithmetic.
// ----------------------------------------------------------------------

#[test]
fn field_arithmetic_is_exact_modular() {
    let a = FieldElement::from_u64(FIELD_MODULUS - 1);
    let b = FieldElement::from_u64(2);
    assert_eq!(a.add(b), FieldElement::from_u64(1));
    assert_eq!(a.mul(b), FieldElement::from_u64(FIELD_MODULUS - 2));
    assert_eq!(a.neg(), FieldElement::one());
    assert_eq!(FieldElement::zero().neg(), FieldElement::zero());
    let inv = b.inverse().unwrap();
    assert_eq!(b.mul(inv), FieldElement::one());
    assert_eq!(a.sub(a), FieldElement::zero());
    assert_eq!(FieldElement::zero().sub(b), FieldElement::from_u64(FIELD_MODULUS - 2));
}

#[test]
fn arithmetic_solver_stalls_on_two_unknowns() {
    let mut map = WitnessMap::new();
    let gate = lin(&[(1, 1), (1, 2)], 0);
    let outcome = ArithmeticSolver::solve(&mut map, &gate).unwrap();
    assert!(matches!(
        outcome,
        OpcodeResolution::Stalled(OpcodeNotSolvable::ExpressionHasTooManyUnknowns(_))
    ));
}

#[test]
fn arithmetic_solver_rejects_false_constraint() {
    // The constraint `1 = 0` over no witnesses is unsatisfiable.
    let mut map = WitnessMap::new();
    let gate = lin(&[], 1);
    let err = ArithmeticSolver::solve(&mut map, &gate).unwrap_err();
    assert_eq!(err, OpcodeResolutionError::UnsatisfiedConstrain);
}

#[test]
fn arithmetic_solver_divides_by_the_unknown_coefficient() {
    // 3 * w - 12 = 0 binds w to 4.
    let mut map = WitnessMap::new();
    let gate = lin(&[(3, 1)], FIELD_MODULUS - 12);
    let outcome = ArithmeticSolver::solve(&mut map, &gate).unwrap();
    assert_eq!(outcome, OpcodeResolution::Solved);
    assert_eq!(map.get(Witness(1)).unwrap(), FieldElement::from_u64(4));
}

// ----------------------------------------------------------------------
// GeneralOptimizer: semantics preserved, canonical, idempotent.
// ----------------------------------------------------------------------

#[test]
fn optimizer_merges_and_sorts() {
    let e = lin(&[(2, 7), (5, 3), (3, 7)], 1);
    let out = GeneralOptimizer::optimize(e);
    assert_eq!(out, lin(&[(5, 3), (5, 7)], 1));
}

#[test]
fn optimizer_drops_zero_and_cancelling_monomials() {
    let mut e = lin(&[(0, 4), (2, 5), (FIELD_MODULUS - 2, 5)], 0);
    e.mul_terms.push((FieldElement::from_u64(3), Witness(9), Witness(2)));
    let out = GeneralOptimizer::optimize(e);
    assert!(out.linear_combinations.is_empty());
    // The quadratic monomial is normalized to have its witnesses in order.
    assert_eq!(out.mul_terms, vec![(FieldElement::from_u64(3), Witness(2), Witness(9))]);
}

#[test]
fn optimizer_is_idempotent() {
    let e = lin(&[(2, 7), (5, 3), (3, 7), (1, 1)], 4);
    let once = GeneralOptimizer::optimize(e);
    let twice = GeneralOptimizer::optimize(once.clone());
    assert_eq!(once, twice);
}

// ----------------------------------------------------------------------
// RangeOptimizer: one tightest range per witness.
// ----------------------------------------------------------------------

#[test]
fn range_optimizer_keeps_tightest_bound() {
    let circuit = Circuit {
        current_witness_index: 3,
        opcodes: vec![
            range_op(1, 32),
            Opcode::Arithmetic(lin(&[(1, 1)], 0)),
            range_op(1, 16),
            range_op(2, 8),
            range_op(1, 64),
        ],
        public_parameters: Vec::new(),
        return_values: Vec::new(),
    };
    let out = RangeOptimizer::new(circuit).replace_redundant_ranges();
    let mut ranges = Vec::new();
    for op in &out.opcodes {
        if let Opcode::BlackBoxFuncCall(call) = op {
            ranges.push((call.inputs[0].witness.0, call.inputs[0].num_bits));
        }
    }
    ranges.sort();
    // One range per witness, and the tightest of the originals.
    assert_eq!(ranges, vec![(1, 16), (2, 8)]);
    // Non-range opcodes are unaffected.
    assert!(out.opcodes.iter().any(|op| matches!(op, Opcode::Arithmetic(_))));
}

// ----------------------------------------------------------------------
// Width-bounded transformer.
// ----------------------------------------------------------------------

#[test]
fn bounded_width_splits_wide_gates() {
    let circuit = Circuit {
        current_witness_index: 6,
        opcodes: vec![Opcode::Arithmetic(lin(
            &[(1, 1), (2, 2), (3, 3), (4, 4), (5, 5), (6, 6)],
            0,
        ))],
        public_parameters: Vec::new(),
        return_values: Vec::new(),
    };
    let support = OpcodeSupport::new(Vec::new());
    let registry = FallbackRegistry::empty();
    let out = compile(circuit, Language::PLONKCSat { width: 3 }, &support, &registry).unwrap();
    assert!(out.current_witness_index >= 6);
    assert!(!out.opcodes.is_empty());
    for op in &out.opcodes {
        if let Opcode::Arithmetic(e) = op {
            assert!(e.linear_combinations.len() <= 3);
        }
    }
}

#[test]
fn compiling_twice_gives_identical_output() {
    let circuit = Circuit {
        current_witness_index: 6,
        opcodes: vec![
            Opcode::Arithmetic(lin(&[(1, 1), (2, 2), (3, 3), (4, 4), (5, 5), (6, 6)], 7)),
            range_op(2, 8),
            range_op(2, 4),
        ],
        public_parameters: vec![Witness(1)],
        return_values: vec![Witness(6)],
    };
    let support = OpcodeSupport::new(vec![BlackBoxFunc::RANGE]);
    let registry = FallbackRegistry::with_all_fallbacks();
    let once =
        compile(circuit.clone(), Language::PLONKCSat { width: 3 }, &support, &registry).unwrap();
    let twice =
        compile(circuit, Language::PLONKCSat { width: 3 }, &support, &registry).unwrap();
    assert_eq!(once, twice);
}

// ----------------------------------------------------------------------
// Fallback expansion and its failure.
// ----------------------------------------------------------------------

#[test]
fn unsupported_function_without_fallback_fails_compilation() {
    let circuit = Circuit {
        current_witness_index: 2,
        opcodes: vec![Opcode::BlackBoxFuncCall(BlackBoxFuncCall {
            name: BlackBoxFunc::SHA256,
            inputs: vec![FunctionInput { witness: Witness(1), num_bits: 8 }],
            outputs: vec![Witness(2)],
        })],
        public_parameters: Vec::new(),
        return_values: Vec::new(),
    };
    let support = OpcodeSupport::new(Vec::new());
    let registry = FallbackRegistry::with_all_fallbacks();
    let err = compile(circuit, Language::R1CS, &support, &registry).unwrap_err();
    assert_eq!(err, CompileError::UnsupportedBlackBox(BlackBoxFunc::SHA256));
}

#[test]
fn registered_fallback_replaces_unsupported_call() {
    let circuit = Circuit {
        current_witness_index: 3,
        opcodes: vec![
            range_op(1, 4),
            Opcode::BlackBoxFuncCall(BlackBoxFuncCall {
                name: BlackBoxFunc::AND,
                inputs: vec![
                    FunctionInput { witness: Witness(1), num_bits: 2 },
                    FunctionInput { witness: Witness(2), num_bits: 2 },
                ],
                outputs: vec![Witness(3)],
            }),
        ],
        public_parameters: Vec::new(),
        return_values: Vec::new(),
    };
    let support = OpcodeSupport::new(Vec::new());
    let registry = FallbackRegistry::with_all_fallbacks();
    let out = compile(circuit, Language::R1CS, &support, &registry).unwrap();
    // Everything was decomposed into arithmetic gates.
    assert!(out.opcodes.iter().all(|op| matches!(op, Opcode::Arithmetic(_))));
    assert!(out.current_witness_index > 3);
}

// ----------------------------------------------------------------------
// Memory-block solver.
// ----------------------------------------------------------------------

/// The trace shared by the full-trace and stall/resume scenarios: three
/// writes of witnesses 4, 5, 6 to addresses 0, 1, 2, then a read of
/// address 1 into witness 7.
fn write_read_trace() -> Vec<MemOp> {
    let mut trace = Vec::new();
    for (addr, w) in [(0u64, 4u32), (1, 5), (2, 6)] {
        trace.push(MemOp {
            operation: Expression::one(),
            index: Expression::from_field(FieldElement::from_u64(addr)),
            value: Expression::from_witness(Witness(w)),
        });
    }
    trace.push(MemOp {
        operation: Expression::zero(),
        index: Expression::one(),
        value: Expression::from_witness(Witness(7)),
    });
    trace
}

#[test]
fn memory_solver_full_trace() {
    // A block seeded from three witnesses bound to 0, 1, 2; the whole
    // trace of three writes and a read solves in one call.
    let mut map = WitnessMap::new();
    for (w, v) in [(1u32, 0u64), (2, 1), (3, 2)] {
        insert_value(&Witness(w), FieldElement::from_u64(v), &mut map).unwrap();
    }
    for (w, v) in [(4u32, 10u64), (5, 20), (6, 30)] {
        insert_value(&Witness(w), FieldElement::from_u64(v), &mut map).unwrap();
    }
    let mut solver = BlockSolver::default();
    solver.init(&[Witness(1), Witness(2), Witness(3)], &map).unwrap();
    let trace = write_read_trace();
    let outcome = solver.solve(&mut map, &trace).unwrap();
    assert_eq!(outcome, OpcodeResolution::Solved);
    // The read observes the second write's value.
    assert_eq!(map.get(Witness(7)).unwrap(), FieldElement::from_u64(20));
}

#[test]
fn memory_solver_stalls_and_resumes() {
    // Identical trace, but the second write's source witness is unbound at
    // the first call: the address-0 write is applied, the address-1 write
    // is not, and the call reports partial progress.
    let mut map = WitnessMap::new();
    for (w, v) in [(1u32, 0u64), (2, 1), (3, 2)] {
        insert_value(&Witness(w), FieldElement::from_u64(v), &mut map).unwrap();
    }
    insert_value(&Witness(4), FieldElement::from_u64(10), &mut map).unwrap();
    insert_value(&Witness(6), FieldElement::from_u64(30), &mut map).unwrap();
    let mut solver = BlockSolver::default();
    solver.init(&[Witness(1), Witness(2), Witness(3)], &map).unwrap();
    let trace = write_read_trace();
    let outcome = solver.solve(&mut map, &trace).unwrap();
    assert_eq!(outcome, OpcodeResolution::InProgress);
    assert_eq!(solver.solved_operations(), 1);
    // Binding the missing witness lets a later call finish from exactly
    // where the first one stopped, without re-applying the first write.
    insert_value(&Witness(5), FieldElement::from_u64(20), &mut map).unwrap();
    let outcome = solver.solve(&mut map, &trace).unwrap();
    assert_eq!(outcome, OpcodeResolution::Solved);
    assert_eq!(solver.solved_operations(), 4);
    assert_eq!(map.get(Witness(7)).unwrap(), FieldElement::from_u64(20));
}

#[test]
fn memory_solver_rejects_uninitialized_read() {
    // A read from an address never initialized or written is a fatal,
    // malformed-circuit failure, not a transient stall.
    let mut map = WitnessMap::new();
    let mut solver = BlockSolver::default();
    let trace = vec![MemOp {
        operation: Expression::zero(),
        index: Expression::from_field(FieldElement::from_u64(5)),
        value: Expression::from_witness(Witness(1)),
    }];
    let err = solver.solve(&mut map, &trace).unwrap_err();
    assert_eq!(err, OpcodeResolutionError::UninitializedMemoryRead(5));
}

#[test]
fn memory_solver_rejects_read_into_non_witness() {
    let mut map = WitnessMap::new();
    let mut solver = BlockSolver::default();
    solver.init(&[], &map).unwrap();
    let trace = vec![MemOp {
        operation: Expression::zero(),
        index: Expression::zero(),
        value: Expression::from_field(FieldElement::from_u64(3)),
    }];
    let err = solver.solve(&mut map, &trace).unwrap_err();
    assert_eq!(err, OpcodeResolutionError::InvalidMemoryReadTarget);
}

#[test]
fn rebinding_a_witness_to_a_different_value_fails() {
    let mut map = WitnessMap::new();
    insert_value(&Witness(1), FieldElement::from_u64(3), &mut map).unwrap();
    insert_value(&Witness(1), FieldElement::from_u64(3), &mut map).unwrap();
    let err = insert_value(&Witness(1), FieldElement::from_u64(4), &mut map).unwrap_err();
    assert_eq!(err, OpcodeResolutionError::UnsatisfiedConstrain);
}

// ----------------------------------------------------------------------
// The solving loop.
// ----------------------------------------------------------------------

#[test]
fn scheduler_solves_chained_constraints() {
    // w2 = w1 + 1, w3 = w2 + 1, with w1 = 5: both get bound.
    let opcodes = vec![
        Opcode::Arithmetic(lin(&[(1, 1), (FIELD_MODULUS - 1, 2)], 1)),
        Opcode::Arithmetic(lin(&[(1, 2), (FIELD_MODULUS - 1, 3)], 1)),
    ];
    let mut map = WitnessMap::new();
    insert_value(&Witness(1), FieldElement::from_u64(5), &mut map).unwrap();
    solve(&mut map, &opcodes).unwrap();
    assert_eq!(map.get(Witness(2)).unwrap(), FieldElement::from_u64(6));
    assert_eq!(map.get(Witness(3)).unwrap(), FieldElement::from_u64(7));
}

#[test]
fn scheduler_reports_deadlock_instead_of_looping() {
    // An opcode referencing only witnesses nothing ever binds: the solving
    // loop terminates with the unsatisfiable-circuit failure naming it.
    let opcodes = vec![Opcode::Arithmetic(lin(&[(1, 1), (1, 2)], 0))];
    let mut map = WitnessMap::new();
    let err = solve(&mut map, &opcodes).unwrap_err();
    match err {
        OpcodeResolutionError::UnsatisfiableCircuit(stalled) => {
            assert_eq!(stalled, vec![0]);
        }
        other => panic!("expected an unsatisfiable-circuit failure, got {:?}", other),
    }
}

#[test]
fn scheduler_drives_memory_blocks() {
    // The memory trace's value witnesses are produced by arithmetic
    // opcodes, so the block needs more than one sweep.
    let opcodes = vec![
        Opcode::MemoryInit { block_id: 0, init: vec![Witness(1)] },
        Opcode::MemoryOp {
            block_id: 0,
            op: MemOp {
                operation: Expression::one(),
                index: Expression::zero(),
                value: Expression::from_witness(Witness(2)),
            },
        },
        Opcode::MemoryOp {
            block_id: 0,
            op: MemOp {
                operation: Expression::zero(),
                index: Expression::zero(),
                value: Expression::from_witness(Witness(3)),
            },
        },
        // w2 = w1 + 41
        Opcode::Arithmetic(lin(&[(1, 1), (FIELD_MODULUS - 1, 2)], 41)),
    ];
    let mut map = WitnessMap::new();
    insert_value(&Witness(1), FieldElement::from_u64(1), &mut map).unwrap();
    solve(&mut map, &opcodes).unwrap();
    assert_eq!(map.get(Witness(3)).unwrap(), FieldElement::from_u64(42));
}

// ----------------------------------------------------------------------
// Ported interface tests.
// ----------------------------------------------------------------------

#[test]
fn compile_api_compiles_with_backend() {
    compile(
        Circuit::default(),
        Language::R1CS,
        &OpcodeSupport::new(Vec::new()),
        &FallbackRegistry::empty(),
    )
    .unwrap();
}

#[test]
fn test_solver() {
    let mut index = FieldElement::zero();
    let mut trace = vec![MemOp {
        operation: Expression::one(),
        index: Expression::from_field(index),
        value: Expression::from_witness(Witness(1)),
    }];
    index = index.add(FieldElement::one());
    trace.push(MemOp {
        operation: Expression::one(),
        index: Expression::from_field(index),
        value: Expression::from_witness(Witness(2)),
    });
    index = index.add(FieldElement::one());
    trace.push(MemOp {
        operation: Expression::one(),
        index: Expression::from_field(index),
        value: Expression::from_witness(Witness(3)),
    });
    trace.push(MemOp {
        operation: Expression::zero(),
        index: Expression::one(),
        value: Expression::from_witness(Witness(4)),
    });
    let mut initial_witness = WitnessMap::new();
    let mut value = FieldElement::zero();
    insert_value(&Witness(1), value, &mut initial_witness).unwrap();
    value = FieldElement::one();
    insert_value(&Witness(2), value, &mut initial_witness).unwrap();
    value = value.add(value);
    insert_value(&Witness(3), value, &mut initial_witness).unwrap();
    let mut block_solver = BlockSolver::default();
    block_solver.solve(&mut initial_witness, &trace).unwrap();
    assert_eq!(initial_witness.get(Witness(4)).unwrap(), FieldElement::one());
}

#[test]
fn block_init_rejects_unbound_seed_witness() {
    // Initializer witnesses must be pre-bound; the first unbound one is
    // named by a fatal error, with the cells before it seeded.
    let mut map = WitnessMap::new();
    insert_value(&Witness(1), FieldElement::from_u64(9), &mut map).unwrap();
    let mut solver = BlockSolver::default();
    let err = solver.init(&[Witness(1), Witness(2), Witness(3)], &map).unwrap_err();
    assert_eq!(err, OpcodeResolutionError::UnboundBlockInitializer(2));
}
