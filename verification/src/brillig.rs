//! Opcodes of the bytecode VM's native special-function calls: the VM-side
//! counterpart of the circuit's special-function opcodes, addressing its
//! operands through registers and heap views.

use vstd::prelude::*;

verus! {

/// An index into the VM's register space.
#[derive(Debug, Clone, Copy, PartialEq, Eq, Structural)]
pub struct RegisterIndex(pub usize);

/// A fixed-size view into the VM's heap: a start pointer held in a
/// register and a static size.
#[derive(Debug, Clone, Copy, PartialEq, Eq, Structural)]
pub struct HeapArray {
    pub pointer: RegisterIndex,
    pub size: usize,
}

/// A dynamically sized view into the VM's heap: start pointer and size are
/// both held in registers.
#[derive(Debug, Clone, Copy, PartialEq, Eq, Structural)]
pub struct HeapVector {
    pub pointer: RegisterIndex,
    pub size: RegisterIndex,
}

/// These opcodes provide an equivalent of the circuit-level special
/// functions. They are implemented as native functions in the VM.
#[derive(Debug, Clone, Copy, PartialEq, Eq, Structural)]
pub enum BlackBoxOp {
    /// Calculates the SHA256 hash of the inputs.
    Sha256 { message: HeapVector, output: HeapArray },
    /// Calculates the Blake2s hash of the inputs.
    Blake2s { message: HeapVector, output: HeapArray },
    /// Calculates the Keccak256 hash of the inputs.
    Keccak256 { message: HeapVector, output: HeapArray },
    /// Hashes a set of inputs and applies the field modulus to the result,
    /// so that it can be represented as a field element.
    HashToField128Security { message: HeapVector, output: RegisterIndex },
    /// Verifies an ECDSA signature over the secp256k1 curve.
    EcdsaSecp256k1 {
        hashed_msg: HeapVector,
        public_key_x: HeapArray,
        public_key_y: HeapArray,
        signature: HeapArray,
        result: RegisterIndex,
    },
    /// Verifies an ECDSA signature over the secp256r1 curve.
    EcdsaSecp256r1 {
        hashed_msg: HeapVector,
        public_key_x: HeapArray,
        public_key_y: HeapArray,
        signature: HeapArray,
        result: RegisterIndex,
    },
}

} // verus!
