//! The per-block memory solver: an incremental state machine replaying a
//! block's operation trace, in strict order, against a simulated memory
//! array.
//!
//! The whole behavior of a solve call is pinned by the [`replay`]
//! specification: a pure state machine over the block contents, the
//! witness assignment, and a cursor counting the durably applied prefix of
//! the trace. A call applies operations exactly from the cursor, stops at
//! the first operation whose inputs are not bound yet, never re-applies an
//! operation a previous call committed, and reports fatal
//! malformed-circuit conditions — an uninitialized read, a read into
//! something other than a witness, a conflicting binding — as typed
//! errors, distinct from the transient not-yet-solvable case.

use vstd::prelude::*;
use crate::field::FieldElement;
use crate::ir::{Expression, MemOp, Witness, WitnessMap};
use super::{
    expr_all_bound, eval_value, get_value, insert_value, map_extends, witness_to_value,
    OpcodeNotSolvable, OpcodeResolution, OpcodeResolutionError,
};
use crate::field::modulus;
use crate::ir::{eval_expr, residues};

verus! {

broadcast use vstd::std_specs::btree::group_btree_axioms, vstd::laws_cmp::group_laws_cmp;

/// The destination witness of a read: the trace's value expression must be
/// exactly `1 * w`.
pub open spec fn lone_witness_of(e: Expression) -> Option<Witness> {
    if e.mul_terms@.len() == 0 && e.linear_combinations@.len() == 1
        && e.linear_combinations@[0].0.value() == 1 && e.q_c.value() == 0 {
        Some(e.linear_combinations@[0].1)
    } else {
        None
    }
}

/// The cell address an index expression resolves to: its residue, taken
/// into the 32-bit address space.
pub open spec fn spec_address(e: Expression, m: Map<u32, FieldElement>) -> u32 {
    (eval_value(e, m) % 0x1_0000_0000) as u32
}

/// What one trace operation does to the block state and the assignment.
pub enum StepStatus {
    /// The operation was fully applied.
    Applied,
    /// Some input of the operation is not bound yet; nothing changed.
    Blocked,
    /// Fatal: a read from a cell never initialized or written.
    FatalUninitialized(u32),
    /// Fatal: a read whose destination is not a single witness.
    FatalReadTarget,
    /// Fatal: a read destination already bound to a different value.
    FatalRebind,
}

/// The state after attempting one trace operation.
pub struct MemStep {
    pub contents: Map<u32, FieldElement>,
    pub wmap: Map<u32, FieldElement>,
    pub status: StepStatus,
}

/// One step of the memory state machine. The selector and index must
/// resolve; selector zero reads the addressed cell into the destination
/// witness, anything else writes the resolved value expression into the
/// cell. On anything but `Applied` the state is unchanged.
pub open spec fn mem_step(
    contents: Map<u32, FieldElement>,
    wmap: Map<u32, FieldElement>,
    op: MemOp,
) -> MemStep {
    if !expr_all_bound(op.operation, wmap) || !expr_all_bound(op.index, wmap) {
        MemStep { contents, wmap, status: StepStatus::Blocked }
    } else {
        let sel = eval_value(op.operation, wmap);
        let addr = spec_address(op.index, wmap);
        if sel == 0 {
            match lone_witness_of(op.value) {
                Option::None => MemStep { contents, wmap, status: StepStatus::FatalReadTarget },
                Option::Some(w) => {
                    if !contents.contains_key(addr) {
                        MemStep { contents, wmap, status: StepStatus::FatalUninitialized(addr) }
                    } else if wmap.contains_key(w.0) && wmap[w.0] != contents[addr] {
                        MemStep { contents, wmap, status: StepStatus::FatalRebind }
                    } else {
                        MemStep {
                            contents,
                            wmap: wmap.insert(w.0, contents[addr]),
                            status: StepStatus::Applied,
                        }
                    }
                },
            }
        } else {
            if !expr_all_bound(op.value, wmap) {
                MemStep { contents, wmap, status: StepStatus::Blocked }
            } else {
                MemStep {
                    contents: contents.insert(
                        addr,
                        FieldElement(eval_value(op.value, wmap) as u64),
                    ),
                    wmap,
                    status: StepStatus::Applied,
                }
            }
        }
    }
}

/// The outcome of replaying a trace from a cursor position.
pub struct ReplayResult {
    pub contents: Map<u32, FieldElement>,
    pub wmap: Map<u32, FieldElement>,
    pub applied: int,
    pub status: StepStatus,
}

/// Replays the trace from position `i`, in strict order, applying each
/// operation whose inputs resolve and stopping at the first that blocks or
/// fails; `applied` is where the cursor comes to rest, and the state keeps
/// every effect of the applied prefix — also when a later operation fails.
pub open spec fn replay(
    contents: Map<u32, FieldElement>,
    wmap: Map<u32, FieldElement>,
    trace: Seq<MemOp>,
    i: int,
) -> ReplayResult
    decreases trace.len() - i,
{
    if i < 0 || i >= trace.len() {
        ReplayResult { contents, wmap, applied: i, status: StepStatus::Applied }
    } else {
        let st = mem_step(contents, wmap, trace[i]);
        match st.status {
            StepStatus::Applied => replay(st.contents, st.wmap, trace, i + 1),
            _ => ReplayResult { contents, wmap, applied: i, status: st.status },
        }
    }
}

/// A replay never rebinds a bound witness: the assignment grows
/// monotonically, and a witness once bound keeps its value.
pub proof fn lemma_replay_wmap_monotone(
    contents: Map<u32, FieldElement>,
    wmap: Map<u32, FieldElement>,
    trace: Seq<MemOp>,
    i: int,
)
    ensures
        map_extends(replay(contents, wmap, trace, i).wmap, wmap),
    decreases trace.len() - i,
{
    if 0 <= i < trace.len() {
        let st = mem_step(contents, wmap, trace[i]);
        match st.status {
            StepStatus::Applied => {
                assert(map_extends(st.wmap, wmap)) by {
                    assert forall|k: u32| wmap.contains_key(k) implies st.wmap.contains_key(k)
                        && st.wmap[k] == wmap[k] by {}
                }
                lemma_replay_wmap_monotone(st.contents, st.wmap, trace, i + 1);
                super::lemma_extends_trans(
                    wmap,
                    st.wmap,
                    replay(st.contents, st.wmap, trace, i + 1).wmap,
                );
            },
            _ => {
                assert forall|k: u32| wmap.contains_key(k) implies wmap.contains_key(k)
                    && wmap[k] == wmap[k] by {}
            },
        }
    }
}

/// Maintains the state for solving one memory block's opcodes: the cell
/// contents as of the applied prefix, and how many leading operations of
/// the block's trace have been durably applied.
pub struct BlockSolver {
    block_value: std::collections::BTreeMap<u32, FieldElement>,
    solved_operations: usize,
}

impl Default for BlockSolver {
    /// A fresh solver: empty contents, nothing applied.
    fn default() -> (r: BlockSolver)
        ensures
            r.contents() == Map::<u32, FieldElement>::empty(),
            r.cursor() == 0,
    {
        BlockSolver { block_value: std::collections::BTreeMap::new(), solved_operations: 0 }
    }
}

impl BlockSolver {
    /// The block's current cell contents.
    pub closed spec fn contents(&self) -> Map<u32, FieldElement> {
        self.block_value@
    }

    /// How many leading trace operations have been durably applied.
    pub closed spec fn cursor(&self) -> int {
        self.solved_operations as int
    }

    /// The applied-prefix count, for callers tracking progress.
    pub fn solved_operations(&self) -> (r: usize)
        ensures
            r == self.cursor(),
    {
        self.solved_operations
    }

    /// Stores `value` into the cell at `index`.
    fn write_memory_index(&mut self, index: u32, value: FieldElement)
        ensures
            final(self).contents() == old(self).contents().insert(index, value),
            final(self).cursor() == old(self).cursor(),
    {
        self.block_value.insert(index, value);
    }

    /// The value at `index`, if the cell was ever initialized or written.
    fn read_memory_index(&self, index: u32) -> (r: Option<FieldElement>)
        ensures
            match r {
                Option::Some(v) => self.contents().contains_key(index) && self.contents()[index]
                    == v,
                Option::None => !self.contents().contains_key(index),
            },
    {
        match self.block_value.get(&index) {
            Option::Some(v) => Option::Some(*v),
            Option::None => Option::None,
        }
    }

    /// Seeds the contents at addresses `0 .. init.len()` from the bound
    /// values of the given witnesses, in order. Fails fatally on the first
    /// seed witness that is unbound, naming it, with exactly the cells
    /// before it seeded; the circuit producer guarantees the initializer
    /// witnesses are already known, so this is a malformed-circuit
    /// condition, not a transient stall.
    pub fn init(&mut self, init: &[Witness], initial_witness: &WitnessMap) -> (r: Result<
        (),
        OpcodeResolutionError,
    >)
        requires
            init@.len() <= 0x1_0000_0000,
        ensures
            final(self).cursor() == old(self).cursor(),
            match r {
                Result::Ok(()) => {
                    &&& forall|j: int|
                        0 <= j < init@.len() ==> initial_witness@.contains_key(
                            (#[trigger] init@[j]).0,
                        )
                    &&& forall|a: u32|
                        (a as int) < init@.len() ==> #[trigger] final(self).contents().contains_key(
                            a,
                        ) && final(self).contents()[a] == initial_witness@[init@[a as int].0]
                    &&& forall|a: u32|
                        (a as int) >= init@.len() ==> (#[trigger] final(self).contents().contains_key(
                            a,
                        ) == old(self).contents().contains_key(a)) && (old(
                            self,
                        ).contents().contains_key(a) ==> final(self).contents()[a] == old(
                            self,
                        ).contents()[a])
                },
                Result::Err(e) => exists|j: int|
                    {
                        &&& 0 <= j < init@.len()
                        &&& !initial_witness@.contains_key((#[trigger] init@[j]).0)
                        &&& forall|j2: int|
                            0 <= j2 < j ==> initial_witness@.contains_key(
                                (#[trigger] init@[j2]).0,
                            )
                        &&& e == OpcodeResolutionError::UnboundBlockInitializer(init@[j].0)
                        &&& forall|a: u32|
                            (a as int) < j ==> #[trigger] final(self).contents().contains_key(a)
                                && final(self).contents()[a] == initial_witness@[init@[a as int].0]
                        &&& forall|a: u32|
                            (a as int) >= j ==> (#[trigger] final(self).contents().contains_key(a)
                                == old(self).contents().contains_key(a)) && (old(
                                self,
                            ).contents().contains_key(a) ==> final(self).contents()[a] == old(
                                self,
                            ).contents()[a])
                    },
            },
    {
        let mut memory_index: usize = 0;
        while memory_index < init.len()
            invariant
                memory_index <= init@.len(),
                init@.len() <= 0x1_0000_0000,
                self.cursor() == old(self).cursor(),
                forall|j: int|
                    0 <= j < memory_index ==> initial_witness@.contains_key(
                        (#[trigger] init@[j]).0,
                    ),
                forall|a: u32|
                    (a as int) < memory_index ==> #[trigger] self.contents().contains_key(a)
                        && self.contents()[a] == initial_witness@[init@[a as int].0],
                forall|a: u32|
                    (a as int) >= memory_index ==> (#[trigger] self.contents().contains_key(a)
                        == old(self).contents().contains_key(a)) && (old(
                        self,
                    ).contents().contains_key(a) ==> self.contents()[a] == old(
                        self,
                    ).contents()[a]),
            decreases init@.len() - memory_index,
        {
            let witness = init[memory_index];
            let value = match witness_to_value(initial_witness, witness) {
                Result::Ok(v) => v,
                Result::Err(_) => {
                    proof {
                        assert(!initial_witness@.contains_key(init@[memory_index as int].0));
                    }
                    return Result::Err(
                        OpcodeResolutionError::UnboundBlockInitializer(witness.0),
                    );
                },
            };
            let ghost pre = self.contents();
            self.write_memory_index(memory_index as u32, value);
            proof {
                let mi = memory_index as u32;
                assert(self.contents() == pre.insert(mi, value));
                assert forall|a: u32| (a as int) < memory_index + 1 implies (
                #[trigger] self.contents().contains_key(a)) && self.contents()[a]
                    == initial_witness@[init@[a as int].0] by {
                    if (a as int) < memory_index {
                        assert(pre.contains_key(a) && pre[a] == initial_witness@[init@[a as int].0]);
                        assert(a != mi);
                    }
                }
            }
            memory_index = memory_index + 1;
        }
        Result::Ok(())
    }

    /// Attempts one trace operation against the current state, exactly as
    /// [`mem_step`] describes: on success the step's effects are applied;
    /// on any failure the state is left untouched and the error tells the
    /// blocked case apart from the three fatal ones.
    pub fn solve_memory_op(&mut self, op: &MemOp, initial_witness: &mut WitnessMap) -> (r: Result<
        (),
        OpcodeResolutionError,
    >)
        ensures
            final(self).cursor() == old(self).cursor(),
            match r {
                Result::Ok(()) => {
                    &&& mem_step(old(self).contents(), old(initial_witness)@, *op).status
                        is Applied
                    &&& final(self).contents() == mem_step(
                        old(self).contents(),
                        old(initial_witness)@,
                        *op,
                    ).contents
                    &&& final(initial_witness)@ == mem_step(
                        old(self).contents(),
                        old(initial_witness)@,
                        *op,
                    ).wmap
                },
                Result::Err(e) => {
                    &&& final(self).contents() == old(self).contents()
                    &&& final(initial_witness)@ == old(initial_witness)@
                    &&& match mem_step(old(self).contents(), old(initial_witness)@, *op).status {
                        StepStatus::Applied => false,
                        StepStatus::Blocked => e matches
                            OpcodeResolutionError::OpcodeNotSolvable(
                            OpcodeNotSolvable::MissingAssignment(_),
                        ),
                        StepStatus::FatalUninitialized(a) => e
                            == OpcodeResolutionError::UninitializedMemoryRead(a),
                        StepStatus::FatalReadTarget => e
                            == OpcodeResolutionError::InvalidMemoryReadTarget,
                        StepStatus::FatalRebind => e
                            == OpcodeResolutionError::UnsatisfiedConstrain,
                    }
                },
            },
    {
        let operation = match get_value(&op.operation, initial_witness) {
            Result::Ok(v) => v,
            Result::Err(e) => {
                return Result::Err(e);
            },
        };

        // Find the memory index associated with this memory operation.
        let index = match get_value(&op.index, initial_witness) {
            Result::Ok(v) => v,
            Result::Err(e) => {
                return Result::Err(e);
            },
        };
        let memory_index: u32 = (index.to_u64() % 0x1_0000_0000) as u32;
        proof {
            assert(memory_index == spec_address(op.index, old(initial_witness)@));
        }

        // `operation == 0` means a read; any other value means a write.
        let is_read_operation = operation.is_zero();

        if is_read_operation {
            // The value expression names the witness the cell is read into.
            let value_read_witness = match op.value.to_witness() {
                Option::Some(w) => w,
                Option::None => {
                    proof {
                        match lone_witness_of(op.value) {
                            Option::Some(w) => {
                                assert(op.value.is_lone_witness(w));
                                assert(false);
                            },
                            Option::None => {},
                        }
                    }
                    return Result::Err(OpcodeResolutionError::InvalidMemoryReadTarget);
                },
            };
            proof {
                assert(lone_witness_of(op.value) == Option::Some(value_read_witness));
            }
            let value_in_array = match self.read_memory_index(memory_index) {
                Option::Some(v) => v,
                Option::None => {
                    return Result::Err(
                        OpcodeResolutionError::UninitializedMemoryRead(memory_index),
                    );
                },
            };
            insert_value(&value_read_witness, value_in_array, initial_witness)
        } else {
            // The value expression resolves to the value written.
            let value_to_write = match get_value(&op.value, initial_witness) {
                Result::Ok(v) => v,
                Result::Err(e) => {
                    return Result::Err(e);
                },
            };
            proof {
                vstd::arithmetic::div_mod::lemma_mod_bound(
                    eval_expr(op.value, residues(old(initial_witness)@)),
                    modulus() as int,
                );
                assert(FieldElement(eval_value(op.value, old(initial_witness)@) as u64)
                    == value_to_write);
            }
            self.write_memory_index(memory_index, value_to_write);
            Result::Ok(())
        }
    }

    /// Replays trace operations from the cursor, applying as many as
    /// resolve; the cursor advances past exactly the operations applied in
    /// this call.
    fn solve_helper(&mut self, initial_witness: &mut WitnessMap, trace: &Vec<MemOp>) -> (r: Result<
        (),
        OpcodeResolutionError,
    >)
        requires
            0 <= old(self).cursor() <= trace@.len(),
        ensures
            ({
                let rr = replay(
                    old(self).contents(),
                    old(initial_witness)@,
                    trace@,
                    old(self).cursor(),
                );
                &&& final(self).contents() == rr.contents
                &&& final(initial_witness)@ == rr.wmap
                &&& final(self).cursor() == rr.applied
                &&& old(self).cursor() <= rr.applied <= trace@.len()
                &&& match r {
                    Result::Ok(()) => rr.status is Applied && rr.applied == trace@.len(),
                    Result::Err(e) => match rr.status {
                        StepStatus::Applied => false,
                        StepStatus::Blocked => e matches
                            OpcodeResolutionError::OpcodeNotSolvable(
                            OpcodeNotSolvable::MissingAssignment(_),
                        ),
                        StepStatus::FatalUninitialized(a) => e
                            == OpcodeResolutionError::UninitializedMemoryRead(a),
                        StepStatus::FatalReadTarget => e
                            == OpcodeResolutionError::InvalidMemoryReadTarget,
                        StepStatus::FatalRebind => e
                            == OpcodeResolutionError::UnsatisfiedConstrain,
                    },
                }
            }),
    {
        while self.solved_operations < trace.len()
            invariant
                0 <= old(self).cursor() <= self.cursor() <= trace@.len(),
                replay(old(self).contents(), old(initial_witness)@, trace@, old(self).cursor())
                    == replay(self.contents(), initial_witness@, trace@, self.cursor()),
            decreases trace@.len() - self.cursor(),
        {
            let cursor = self.solved_operations;
            let block_op = &trace[cursor];
            let ghost pre_contents = self.contents();
            let ghost pre_map = initial_witness@;
            match self.solve_memory_op(block_op, initial_witness) {
                Result::Ok(()) => {
                    self.solved_operations = self.solved_operations + 1;
                    proof {
                        assert(replay(pre_contents, pre_map, trace@, cursor as int) == replay(
                            self.contents(),
                            initial_witness@,
                            trace@,
                            cursor as int + 1,
                        ));
                    }
                },
                Result::Err(e) => {
                    proof {
                        assert(replay(pre_contents, pre_map, trace@, cursor as int).applied
                            == cursor as int);
                    }
                    return Result::Err(e);
                },
            }
        }
        Result::Ok(())
    }

    /// Tries to solve the block's trace from the cursor and classifies the
    /// outcome: `Solved` when the cursor reaches the end of the trace,
    /// `InProgress` when it advanced but did not reach the end, `Stalled`
    /// when it made zero progress in this call; the three fatal
    /// malformed-circuit conditions surface as errors, with the applied
    /// prefix's effects kept.
    pub fn solve(&mut self, initial_witness: &mut WitnessMap, trace: &Vec<MemOp>) -> (r: Result<
        OpcodeResolution,
        OpcodeResolutionError,
    >)
        requires
            0 <= old(self).cursor() <= trace@.len(),
        ensures
            ({
                let rr = replay(
                    old(self).contents(),
                    old(initial_witness)@,
                    trace@,
                    old(self).cursor(),
                );
                &&& final(self).contents() == rr.contents
                &&& final(initial_witness)@ == rr.wmap
                &&& final(self).cursor() == rr.applied
                &&& old(self).cursor() <= rr.applied <= trace@.len()
                &&& match r {
                    Result::Ok(OpcodeResolution::Solved) => rr.status is Applied && rr.applied
                        == trace@.len(),
                    Result::Ok(OpcodeResolution::InProgress) => rr.status is Blocked
                        && rr.applied > old(self).cursor(),
                    Result::Ok(OpcodeResolution::Stalled(reason)) => rr.status is Blocked
                        && rr.applied == old(self).cursor() && reason matches
                        OpcodeNotSolvable::MissingAssignment(_),
                    Result::Err(e) => match rr.status {
                        StepStatus::Applied => false,
                        StepStatus::Blocked => false,
                        StepStatus::FatalUninitialized(a) => e
                            == OpcodeResolutionError::UninitializedMemoryRead(a),
                        StepStatus::FatalReadTarget => e
                            == OpcodeResolutionError::InvalidMemoryReadTarget,
                        StepStatus::FatalRebind => e
                            == OpcodeResolutionError::UnsatisfiedConstrain,
                    },
                }
            }),
    {
        let initial_solved_operations = self.solved_operations;

        match self.solve_helper(initial_witness, trace) {
            Result::Ok(()) => Result::Ok(OpcodeResolution::Solved),
            Result::Err(OpcodeResolutionError::OpcodeNotSolvable(err)) => {
                if self.solved_operations > initial_solved_operations {
                    Result::Ok(OpcodeResolution::InProgress)
                } else {
                    Result::Ok(OpcodeResolution::Stalled(err))
                }
            },
            Result::Err(err) => Result::Err(err),
        }
    }
}

} // verus!
