//! Backend-directed rewriting passes: fallback expansion of unsupported
//! special functions, and the two width strategies (pass-through for
//! unconstrained-width backends, constraint splitting for width-bounded
//! ones).

use vstd::prelude::*;
use crate::compiler::CompileError;
use crate::field::{modulus, FieldElement, FIELD_MODULUS};
use crate::ir::{BlackBoxFunc, Circuit, Expression, Opcode, Witness};

verus! {

/// Bound on how many opcodes a circuit handed to the pipeline may hold, so
/// that fresh witness indices never leave the 32-bit identifier space.
/// The worst case the pipeline must cover: fallback expansion allocates at
/// most 2*64 fresh witnesses and 2*64 + 3 gates per opcode, and the width
/// pass then allocates at most one fresh witness per linear monomial of
/// each arithmetic gate — so the counter can grow by up to
/// (2*64 + 3) * MAX_OPCODES * MAX_EXPR_TERMS + 2 * 64 * MAX_OPCODES,
/// about 2^31.1, which together with MAX_START_WITNESS must stay under
/// 2^32. These three bounds are chosen to satisfy exactly that budget.
pub const MAX_OPCODES: usize = 0x1000;

/// Bound on the number of monomials per expression; part of the same
/// 32-bit witness-space budget as [`MAX_OPCODES`].
pub const MAX_EXPR_TERMS: usize = 0x1000;

/// Bound on the highest witness index already in use when compilation
/// starts, leaving the pipeline the headroom computed at [`MAX_OPCODES`]
/// to allocate fresh witnesses.
pub const MAX_START_WITNESS: u32 = 0x0100_0000;

/// An arithmetic opcode whose term lists stay within [`MAX_EXPR_TERMS`].
pub open spec fn small_arith(op: Opcode) -> bool {
    match op {
        Opcode::Arithmetic(e) => e.linear_combinations@.len() <= MAX_EXPR_TERMS
            && e.mul_terms@.len() <= MAX_EXPR_TERMS,
        _ => false,
    }
}

/// Every arithmetic opcode in the sequence stays within the term bounds.
pub open spec fn arith_small(ops: Seq<Opcode>) -> bool {
    forall|i: int|
        0 <= i < ops.len() ==> match #[trigger] ops[i] {
            Opcode::Arithmetic(e) => e.linear_combinations@.len() <= MAX_EXPR_TERMS
                && e.mul_terms@.len() <= MAX_EXPR_TERMS,
            _ => true,
        }
}

/// The backend's answer to "is this special function natively supported":
/// the set of function kinds it can consume directly.
pub struct OpcodeSupport {
    pub supported: Vec<BlackBoxFunc>,
}

impl OpcodeSupport {
    /// Whether the backend supports `f` natively.
    pub open spec fn spec_supports(&self, f: BlackBoxFunc) -> bool {
        self.supported@.contains(f)
    }

    /// A backend that supports the given function kinds.
    pub fn new(supported: Vec<BlackBoxFunc>) -> (r: OpcodeSupport)
        ensures
            r.supported == supported,
    {
        OpcodeSupport { supported }
    }

    /// Whether the backend supports `f` natively.
    pub fn supports(&self, f: BlackBoxFunc) -> (r: bool)
        ensures
            r == self.spec_supports(f),
    {
        let mut i: usize = 0;
        while i < self.supported.len()
            invariant
                i <= self.supported@.len(),
                forall|j: int| 0 <= j < i ==> self.supported@[j] != f,
        decreases self.supported@.len() - i,
        {
            if self.supported[i] == f {
                return true;
            }
            i = i + 1;
        }
        false
    }
}

/// The explicit lookup table of fallback decompositions, passed into the
/// fallback pass as configuration: the set of special-function kinds for
/// which this library can splice in an arithmetic decomposition.
pub struct FallbackRegistry {
    pub kinds: Vec<BlackBoxFunc>,
}

/// The function kinds this library has a decomposition procedure for.
pub open spec fn decomposable(f: BlackBoxFunc) -> bool {
    f == BlackBoxFunc::RANGE || f == BlackBoxFunc::AND || f == BlackBoxFunc::XOR
}

impl FallbackRegistry {
    /// Whether a decomposition is registered for `f`.
    pub open spec fn spec_registered(&self, f: BlackBoxFunc) -> bool {
        self.kinds@.contains(f) && decomposable(f)
    }

    /// The registry holding every decomposition this library provides.
    pub fn with_all_fallbacks() -> (r: FallbackRegistry)
        ensures
            r.spec_registered(BlackBoxFunc::RANGE),
            r.spec_registered(BlackBoxFunc::AND),
            r.spec_registered(BlackBoxFunc::XOR),
            forall|f: BlackBoxFunc| r.spec_registered(f) == decomposable(f),
    {
        let mut kinds: Vec<BlackBoxFunc> = Vec::new();
        kinds.push(BlackBoxFunc::RANGE);
        kinds.push(BlackBoxFunc::AND);
        kinds.push(BlackBoxFunc::XOR);
        let r = FallbackRegistry { kinds };
        proof {
            assert(r.kinds@[0] == BlackBoxFunc::RANGE);
            assert(r.kinds@[1] == BlackBoxFunc::AND);
            assert(r.kinds@[2] == BlackBoxFunc::XOR);
            assert forall|f: BlackBoxFunc| r.spec_registered(f) == decomposable(f) by {
                if decomposable(f) {
                    if f == BlackBoxFunc::RANGE {
                        assert(r.kinds@.contains(f));
                    } else if f == BlackBoxFunc::AND {
                        assert(r.kinds@.contains(f));
                    } else {
                        assert(r.kinds@.contains(f));
                    }
                }
            }
        }
        r
    }

    /// An empty registry: no fallbacks at all.
    pub fn empty() -> (r: FallbackRegistry)
        ensures
            forall|f: BlackBoxFunc| !r.spec_registered(f),
    {
        FallbackRegistry { kinds: Vec::new() }
    }

    /// Whether a decomposition is registered for `f`.
    pub fn registered(&self, f: BlackBoxFunc) -> (r: bool)
        ensures
            r == self.spec_registered(f),
    {
        let dec = match f {
            BlackBoxFunc::RANGE => true,
            BlackBoxFunc::AND => true,
            BlackBoxFunc::XOR => true,
            _ => false,
        };
        if !dec {
            return false;
        }
        let mut i: usize = 0;
        while i < self.kinds.len()
            invariant
                i <= self.kinds@.len(),
                decomposable(f),
                forall|j: int| 0 <= j < i ==> self.kinds@[j] != f,
        decreases self.kinds@.len() - i,
        {
            if self.kinds[i] == f {
                proof {
                    assert(self.kinds@.contains(f)) by {
                        assert(self.kinds@[i as int] == f);
                    }
                }
                return true;
            }
            i = i + 1;
        }
        false
    }
}

/// The field element standing for `2^i`.
fn pow2_field(i: u32) -> (r: FieldElement)
    ensures
        r.value() == vstd::arithmetic::power2::pow2(i as nat) % modulus(),
{
    let mut j: u32 = 0;
    let mut r = FieldElement::one();
    proof {
        vstd::arithmetic::power2::lemma2_to64();
        vstd::arithmetic::div_mod::lemma_small_mod(1nat, modulus());
    }
    while j < i
        invariant
            j <= i,
            r.value() == vstd::arithmetic::power2::pow2(j as nat) % modulus(),
        decreases i - j,
    {
        let two = FieldElement(2);
        proof {
            vstd::arithmetic::power2::lemma_pow2_unfold((j + 1) as nat);
            crate::field::lemma_f_mul_congruent_left(
                vstd::arithmetic::power2::pow2(j as nat),
                2,
            );
            vstd::arithmetic::mul::lemma_mul_is_commutative(
                vstd::arithmetic::power2::pow2(j as nat) as int,
                2,
            );
        }
        r = r.mul(two);
        j = j + 1;
    }
    r
}

/// Appends the gates that constrain witnesses `next .. next + bits` to be
/// the little-endian bit decomposition of `w`: one `b*b - b = 0` gate per
/// bit and one recomposition gate `w - sum of 2^i * b_i = 0`. Returns the
/// next free witness index.
fn bit_decomposition(w: Witness, bits: u32, next: u32, gates: &mut Vec<Opcode>) -> (new_next: u32)
    requires
        1 <= bits <= 64,
        next as int + bits as int <= u32::MAX as int,
    ensures
        new_next == next + bits,
        final(gates)@.len() == old(gates)@.len() + bits + 1,
        forall|j: int| 0 <= j < old(gates)@.len() ==> final(gates)@[j] == old(gates)@[j],
        forall|j: int|
            old(gates)@.len() <= j < final(gates)@.len() ==> small_arith(
                #[trigger] final(gates)@[j],
            ),
{
    let ghost base = gates@.len();
    let minus_one = FieldElement(FIELD_MODULUS - 1);
    let mut recomposition: Vec<(FieldElement, Witness)> = Vec::new();
    recomposition.push((FieldElement(1), w));
    let mut i: u32 = 0;
    while i < bits
        invariant
            i <= bits,
            bits <= 64,
            next as int + bits as int <= u32::MAX as int,
            gates@.len() == base + i,
            recomposition@.len() == i + 1,
            forall|j: int| 0 <= j < base ==> gates@[j] == old(gates)@[j],
            forall|j: int| base <= j < gates@.len() ==> small_arith(#[trigger] gates@[j]),
        decreases bits - i,
    {
        let b = Witness(next + i);
        let mut mul_terms: Vec<(FieldElement, Witness, Witness)> = Vec::new();
        mul_terms.push((FieldElement(1), b, b));
        let mut lin: Vec<(FieldElement, Witness)> = Vec::new();
        lin.push((minus_one, b));
        gates.push(
            Opcode::Arithmetic(
                Expression { mul_terms, linear_combinations: lin, q_c: FieldElement(0) },
            ),
        );
        recomposition.push((pow2_field(i).neg(), b));
        i = i + 1;
    }
    gates.push(
        Opcode::Arithmetic(
            Expression {
                mul_terms: Vec::new(),
                linear_combinations: recomposition,
                q_c: FieldElement(0),
            },
        ),
    );
    next + bits
}

/// Splices in the decomposition of one unsupported special-function call,
/// expressing the same input-to-output witness relationship with
/// arithmetic gates only, allocating intermediate witnesses from `next`.
/// Only kinds for which [`decomposable`] holds are handled.
fn build_fallback(
    f: BlackBoxFunc,
    inputs: &Vec<crate::ir::FunctionInput>,
    outputs: &Vec<Witness>,
    next: u32,
    gates: &mut Vec<Opcode>,
) -> (new_next: u32)
    requires
        decomposable(f),
        f == BlackBoxFunc::RANGE ==> inputs@.len() == 1,
        f != BlackBoxFunc::RANGE ==> inputs@.len() == 2 && outputs@.len() == 1
            && inputs@[0].num_bits == inputs@[1].num_bits,
        forall|j: int| 0 <= j < inputs@.len() ==> 1 <= (#[trigger] inputs@[j]).num_bits <= 64,
        next as int + 2 * 64 <= u32::MAX as int,
    ensures
        next <= new_next,
        new_next as int <= next as int + 2 * 64,
        final(gates)@.len() <= old(gates)@.len() + 2 * 64 + 3,
        forall|j: int| 0 <= j < old(gates)@.len() ==> final(gates)@[j] == old(gates)@[j],
        forall|j: int|
            old(gates)@.len() <= j < final(gates)@.len() ==> small_arith(
                #[trigger] final(gates)@[j],
            ),
{
    match f {
        BlackBoxFunc::RANGE => {
            let input = inputs[0];
            bit_decomposition(input.witness, input.num_bits, next, gates)
        },
        _ => {
            let lhs = inputs[0];
            let rhs = inputs[1];
            let out = outputs[0];
            let bits = lhs.num_bits;
            let lhs_base = next;
            let after_lhs = bit_decomposition(lhs.witness, bits, next, gates);
            let rhs_base = after_lhs;
            let after_rhs = bit_decomposition(rhs.witness, bits, after_lhs, gates);
            let minus_one = FieldElement(FIELD_MODULUS - 1);
            let ghost mid = gates@.len();
            // Combine the operand bits into the output witness.
            let mut mul_terms: Vec<(FieldElement, Witness, Witness)> = Vec::new();
            let mut lin: Vec<(FieldElement, Witness)> = Vec::new();
            let is_and = matches!(f, BlackBoxFunc::AND);
            let mut i: u32 = 0;
            while i < bits
                invariant
                    i <= bits,
                    bits <= 64,
                    lhs_base as int + 2 * bits as int <= u32::MAX as int,
                    rhs_base == lhs_base + bits,
                    mul_terms@.len() <= i,
                    lin@.len() <= 2 * i,
                decreases bits - i,
            {
                let a_bit = Witness(lhs_base + i);
                let b_bit = Witness(rhs_base + i);
                let p = pow2_field(i);
                if is_and {
                    // AND: the output is the sum of 2^i * a_i * b_i.
                    mul_terms.push((p, a_bit, b_bit));
                } else {
                    // XOR: a_i + b_i - 2 * a_i * b_i per bit.
                    lin.push((p, a_bit));
                    lin.push((p, b_bit));
                    mul_terms.push((p.add(p).neg(), a_bit, b_bit));
                }
                i = i + 1;
            }
            lin.push((minus_one, out));
            gates.push(
                Opcode::Arithmetic(
                    Expression { mul_terms, linear_combinations: lin, q_c: FieldElement(0) },
                ),
            );
            after_rhs
        },
    }
}

/// Every special-function call in the sequence is natively supported, so
/// the fallback pass has nothing to rewrite.
pub open spec fn all_black_box_supported(ops: Seq<Opcode>, support: &OpcodeSupport) -> bool {
    forall|i: int|
        0 <= i < ops.len() ==> match #[trigger] ops[i] {
            Opcode::BlackBoxFuncCall(call) => support.spec_supports(call.name),
            _ => true,
        }
}

/// Whether the opcode at `i` makes the fallback pass fail: a
/// special-function call the backend does not support and for which no
/// decomposition is registered.
pub open spec fn fallback_fails_at(
    ops: Seq<Opcode>,
    support: &OpcodeSupport,
    registry: &FallbackRegistry,
    i: int,
) -> bool {
    match ops[i] {
        Opcode::BlackBoxFuncCall(call) => !support.spec_supports(call.name)
            && !registry.spec_registered(call.name),
        _ => false,
    }
}

/// Shape conditions on the special-function calls the fallback pass will
/// decompose; the circuit producer guarantees them.
pub open spec fn fallback_inputs_wf(
    ops: Seq<Opcode>,
    support: &OpcodeSupport,
    registry: &FallbackRegistry,
) -> bool {
    forall|i: int|
        0 <= i < ops.len() ==> match #[trigger] ops[i] {
            Opcode::BlackBoxFuncCall(call) => (!support.spec_supports(call.name)
                && registry.spec_registered(call.name)) ==> {
                &&& (call.name == BlackBoxFunc::RANGE ==> call.inputs@.len() == 1)
                &&& (call.name != BlackBoxFunc::RANGE ==> call.inputs@.len() == 2
                    && call.outputs@.len() == 1 && call.inputs@[0].num_bits
                    == call.inputs@[1].num_bits)
                &&& forall|j: int|
                    0 <= j < call.inputs@.len() ==> 1 <= (#[trigger] call.inputs@[j]).num_bits
                        <= 64
            },
            _ => true,
        }
}

/// Per-opcode replacement of unsupported special functions by registered
/// arithmetic decompositions.
pub struct FallbackTransformer;

impl FallbackTransformer {
    /// Walks the circuit once. Supported calls and all other opcodes pass
    /// through unchanged; an unsupported call with a registered
    /// decomposition is replaced by its arithmetic expansion, with fresh
    /// intermediate witnesses taken from the circuit's running counter.
    /// Compilation fails, naming the function kind, exactly when some
    /// unsupported call has no registered decomposition — the first such
    /// kind is the one reported — and then no circuit is produced.
    pub fn transform(
        acir: Circuit,
        is_opcode_supported: &OpcodeSupport,
        registry: &FallbackRegistry,
    ) -> (r: Result<Circuit, CompileError>)
        requires
            acir.opcodes@.len() <= MAX_OPCODES,
            acir.current_witness_index <= MAX_START_WITNESS,
            arith_small(acir.opcodes@),
            fallback_inputs_wf(acir.opcodes@, is_opcode_supported, registry),
        ensures
            r is Err <==> exists|i: int|
                0 <= i < acir.opcodes@.len() && fallback_fails_at(
                    acir.opcodes@,
                    is_opcode_supported,
                    registry,
                    i,
                ),
            match r {
                Result::Ok(out) => {
                    &&& out.current_witness_index >= acir.current_witness_index
                    &&& out.current_witness_index as int <= acir.current_witness_index as int + 129
                        * acir.opcodes@.len()
                    &&& out.opcodes@.len() <= 132 * acir.opcodes@.len()
                    &&& out.public_parameters == acir.public_parameters
                    &&& out.return_values == acir.return_values
                    &&& arith_small(out.opcodes@)
                    &&& (all_black_box_supported(acir.opcodes@, is_opcode_supported)
                        ==> out.opcodes@ == acir.opcodes@ && out.current_witness_index
                        == acir.current_witness_index)
                    &&& forall|j: int|
                        0 <= j < out.opcodes@.len() ==> match #[trigger] out.opcodes@[j] {
                            Opcode::BlackBoxFuncCall(call) => is_opcode_supported.spec_supports(
                                call.name,
                            ),
                            _ => true,
                        }
                },
                Result::Err(e) => {
                    exists|i: int|
                        {
                            &&& 0 <= i < acir.opcodes@.len()
                            &&& #[trigger] fallback_fails_at(
                                acir.opcodes@,
                                is_opcode_supported,
                                registry,
                                i,
                            )
                            &&& forall|j: int|
                                0 <= j < i ==> !fallback_fails_at(
                                    acir.opcodes@,
                                    is_opcode_supported,
                                    registry,
                                    j,
                                )
                            &&& acir.opcodes@[i] matches Opcode::BlackBoxFuncCall(call) && e
                                == CompileError::UnsupportedBlackBox(call.name)
                        }
                },
            },
    {
        let ghost all = acir.opcodes@;
        let Circuit { current_witness_index, opcodes, public_parameters, return_values } = acir;
        let mut out: Vec<Opcode> = Vec::new();
        let mut next: u32 = current_witness_index + 1;
        let mut rest = opcodes;
        let mut failure: Option<BlackBoxFunc> = Option::None;
        let ghost mut done: int = 0;
        while rest.len() > 0 && failure.is_none()
            invariant
                0 <= done <= all.len(),
                all.len() <= MAX_OPCODES,
                failure is None ==> rest@ == all.skip(done),
                next as int >= current_witness_index as int + 1,
                next as int <= current_witness_index as int + 1 + 129 * done,
                current_witness_index <= MAX_START_WITNESS,
                out@.len() <= 132 * done,
                fallback_inputs_wf(all, is_opcode_supported, registry),
                arith_small(all),
                arith_small(out@),
                forall|j: int|
                    0 <= j < done ==> !fallback_fails_at(all, is_opcode_supported, registry, j),
                all_black_box_supported(all, is_opcode_supported) ==> out@ == all.take(done)
                    && next == current_witness_index + 1,
                match failure {
                    Option::Some(k) => exists|i: int|
                        {
                            &&& 0 <= i < all.len()
                            &&& #[trigger] fallback_fails_at(all, is_opcode_supported, registry, i)
                            &&& forall|j: int|
                                0 <= j < i ==> !fallback_fails_at(
                                    all,
                                    is_opcode_supported,
                                    registry,
                                    j,
                                )
                            &&& all[i] matches Opcode::BlackBoxFuncCall(c) && k == c.name
                        },
                    Option::None => true,
                },
                forall|j: int|
                    0 <= j < out@.len() ==> match #[trigger] out@[j] {
                        Opcode::BlackBoxFuncCall(call) => is_opcode_supported.spec_supports(
                            call.name,
                        ),
                        _ => true,
                    },
            decreases rest@.len(),
        {
            let op = rest.remove(0);
            proof {
                assert(op == all[done]);
                assert(all.skip(done).remove(0) =~= all.skip(done + 1));
            }
            match op {
                Opcode::BlackBoxFuncCall(call) => {
                    if is_opcode_supported.supports(call.name) {
                        out.push(Opcode::BlackBoxFuncCall(call));
                        proof {
                            done = done + 1;
                        }
                    } else if registry.registered(call.name) {
                        next = build_fallback(call.name, &call.inputs, &call.outputs, next,
                            &mut out);
                        proof {
                            done = done + 1;
                        }
                    } else {
                        failure = Option::Some(call.name);
                        proof {
                            assert(all[done] == Opcode::BlackBoxFuncCall(call));
                            assert(fallback_fails_at(all, is_opcode_supported, registry, done));
                        }
                    }
                },
                other => {
                    out.push(other);
                    proof {
                        done = done + 1;
                    }
                },
            }
        }
        if let Option::Some(k) = failure {
            return Result::Err(CompileError::UnsupportedBlackBox(k));
        }
        proof {
            assert(all.skip(done) =~= all.skip(all.len() as int));
            assert(done == all.len());
        }
        Result::Ok(
            Circuit {
                current_witness_index: next - 1,
                opcodes: out,
                public_parameters,
                return_values,
            },
        )
    }
}

} // verus!

// ----------------------------------------------------------------------
// Width strategies.
// ----------------------------------------------------------------------

verus! {

/// The pass-through strategy for backends without a per-constraint term
/// bound: expressions are already degree-at-most-two by construction, so
/// the circuit is consumed unchanged.
pub struct R1CSTransformer {
    pub acir: Circuit,
}

impl R1CSTransformer {
    /// Wraps the circuit.
    pub fn new(acir: Circuit) -> (r: R1CSTransformer)
        ensures
            r.acir == acir,
    {
        R1CSTransformer { acir }
    }

    /// Returns the circuit unchanged.
    pub fn transform(self) -> (r: Circuit)
        ensures
            r == self.acir,
    {
        self.acir
    }
}

/// A fixed total order used to lay the gates produced for one source
/// expression out deterministically.
fn expr_lt(a: &Expression, b: &Expression) -> bool {
    if a.linear_combinations.len() != b.linear_combinations.len() {
        return a.linear_combinations.len() < b.linear_combinations.len();
    }
    if a.mul_terms.len() != b.mul_terms.len() {
        return a.mul_terms.len() < b.mul_terms.len();
    }
    let mut i: usize = 0;
    while i < a.linear_combinations.len()
        invariant
            i <= a.linear_combinations@.len(),
            a.linear_combinations@.len() == b.linear_combinations@.len(),
        decreases a.linear_combinations@.len() - i,
    {
        let (ca, wa) = a.linear_combinations[i];
        let (cb, wb) = b.linear_combinations[i];
        if wa.0 != wb.0 {
            return wa.0 < wb.0;
        }
        if ca.0 != cb.0 {
            return ca.0 < cb.0;
        }
        i = i + 1;
    }
    let mut j: usize = 0;
    while j < a.mul_terms.len()
        invariant
            j <= a.mul_terms@.len(),
            a.mul_terms@.len() == b.mul_terms@.len(),
        decreases a.mul_terms@.len() - j,
    {
        let (ca, xa, ya) = a.mul_terms[j];
        let (cb, xb, yb) = b.mul_terms[j];
        if xa.0 != xb.0 {
            return xa.0 < xb.0;
        }
        if ya.0 != yb.0 {
            return ya.0 < yb.0;
        }
        if ca.0 != cb.0 {
            return ca.0 < cb.0;
        }
        j = j + 1;
    }
    a.q_c.0 < b.q_c.0
}

/// Sorts a group of expressions under [`expr_lt`] by insertion: the result
/// is a permutation of the input — the same multiset of gates.
pub(crate) fn sort_expressions(v: &mut Vec<Expression>)
    ensures
        final(v)@.len() == old(v)@.len(),
        final(v)@.to_multiset() == old(v)@.to_multiset(),
        forall|j: int| 0 <= j < final(v)@.len() ==> old(v)@.contains(#[trigger] final(v)@[j]),
{
    let ghost orig = v@;
    proof {
        assert forall|j: int| 0 <= j < v@.len() implies orig.contains(#[trigger] v@[j]) by {
            assert(orig[j] == v@[j]);
        }
    }
    let mut k: usize = 1;
    while k < v.len()
        invariant
            1 <= k,
            v@.len() == orig.len(),
            v@.to_multiset() == orig.to_multiset(),
            forall|j: int| 0 <= j < v@.len() ==> orig.contains(#[trigger] v@[j]),
        decreases v@.len() - k,
    {
        let ghost before = v@;
        let x = v.remove(k);
        let mut pos: usize = 0;
        while pos < k && !expr_lt(&x, &v[pos])
            invariant
                pos <= k,
                k < before.len(),
                v@ == before.remove(k as int),
            decreases k - pos,
        {
            pos = pos + 1;
        }
        v.insert(pos, x);
        proof {
            broadcast use vstd::seq_lib::group_to_multiset_ensures;

            assert(before.contains(before[k as int])) by {
                assert(before[k as int] == before[k as int]);
            }
            assert(before.to_multiset().remove(x).insert(x) =~= before.to_multiset());
            assert(v@.to_multiset() == orig.to_multiset());
            assert forall|j: int| 0 <= j < v@.len() implies orig.contains(#[trigger] v@[j]) by {
                if j == pos {
                    assert(v@[j] == before[k as int]);
                } else if j < pos {
                    assert(v@[j] == before.remove(k as int)[j]);
                } else {
                    assert(v@[j] == before.remove(k as int)[j - 1]);
                }
            }
            assert(v@.len() == orig.len());
        }
        k = k + 1;
    }
}

/// The constraint-splitting strategy for width-bounded backends: every
/// arithmetic constraint is rewritten to reference at most `width` linear
/// terms, introducing fresh intermediate witnesses for partial sub-sums.
pub struct CSatTransformer {
    pub width: usize,
}

impl CSatTransformer {
    /// A transformer for a backend whose constraints may carry at most
    /// `width` linear terms.
    pub fn new(width: usize) -> (r: CSatTransformer)
        requires
            width >= 3,
        ensures
            r.width == width,
    {
        CSatTransformer { width }
    }

    /// Splits one expression. Returns the defining gates for the fresh
    /// intermediate witnesses, the final gate standing for the original
    /// constraint, and the next free witness index: exactly one fresh
    /// witness per defining gate, taken consecutively from `next`. Every
    /// returned gate respects the width bound; quadratic monomials and the
    /// constant ride along unchanged on the final gate.
    pub fn transform_expression(&self, e: Expression, next: u32) -> (r: (
        Vec<Expression>,
        Expression,
        u32,
    ))
        requires
            self.width >= 3,
            e.linear_combinations@.len() <= MAX_EXPR_TERMS,
            next as int + MAX_EXPR_TERMS as int <= u32::MAX as int,
        ensures
            r.2 as int == next as int + r.0@.len(),
            r.0@.len() <= e.linear_combinations@.len(),
            forall|j: int|
                0 <= j < r.0@.len() ==> (#[trigger] r.0@[j]).linear_combinations@.len()
                    <= self.width && r.0@[j].mul_terms@.len() == 0,
            // The j-th defining gate closes with `- 1 * Witness(next + j)`:
            // the fresh intermediates are allocated consecutively from
            // `next`, one per defining gate, each defined exactly once.
            forall|j: int|
                0 <= j < r.0@.len() ==> (#[trigger] r.0@[j]).linear_combinations@.len() >= 1
                    && r.0@[j].linear_combinations@.last() == (
                FieldElement((FIELD_MODULUS - 1) as u64),
                Witness((next + j) as u32),
            ),
            r.1.linear_combinations@.len() <= self.width,
            r.1.mul_terms@ == e.mul_terms@,
            r.1.q_c == e.q_c,
    {
        let width = self.width;
        let Expression { mul_terms, linear_combinations, q_c } = e;
        let ghost orig_len = linear_combinations@.len();
        let mut lin = linear_combinations;
        let mut defs: Vec<Expression> = Vec::new();
        let mut n: u32 = next;
        while lin.len() > width
            invariant
                width >= 3,
                orig_len <= MAX_EXPR_TERMS,
                next as int + MAX_EXPR_TERMS as int <= u32::MAX as int,
                defs@.len() + lin@.len() <= orig_len,
                n as int == next as int + defs@.len(),
                forall|j: int|
                    0 <= j < defs@.len() ==> (#[trigger] defs@[j]).linear_combinations@.len()
                        <= width && defs@[j].mul_terms@.len() == 0,
                forall|j: int|
                    0 <= j < defs@.len() ==> (#[trigger] defs@[j]).linear_combinations@.len() >= 1
                        && defs@[j].linear_combinations@.last() == (
                    FieldElement((FIELD_MODULUS - 1) as u64),
                    Witness((next + j) as u32),
                ),
            decreases lin@.len(),
        {
            let t = Witness(n);
            n = n + 1;
            let ghost l0 = lin@.len();
            let mut group: Vec<(FieldElement, Witness)> = Vec::new();
            let mut j: usize = 0;
            while j < width - 1
                invariant
                    j <= width - 1,
                    width >= 3,
                    l0 > width,
                    lin@.len() == l0 - j,
                    group@.len() == j,
                decreases width - j,
            {
                let term = lin.remove(0);
                group.push(term);
                j = j + 1;
            }
            group.push((FieldElement(FIELD_MODULUS - 1), t));
            defs.push(
                Expression {
                    mul_terms: Vec::new(),
                    linear_combinations: group,
                    q_c: FieldElement(0),
                },
            );
            lin.push((FieldElement(1), t));
        }
        (defs, Expression { mul_terms, linear_combinations: lin, q_c }, n)
    }
}

} // verus!
