//! Decoding of a 16-bit opcode into its nibbles and operand fields.

use vstd::prelude::*;

verus! {

/// The high nibble, which selects the instruction group.
pub open spec fn op_hi(op: u16) -> u16 {
    (op >> 12) & 0xF
}

/// The second nibble: the register index `x`.
pub open spec fn op_x(op: u16) -> int {
    ((op >> 8) & 0xF) as int
}

/// The third nibble: the register index `y`.
pub open spec fn op_y(op: u16) -> int {
    ((op >> 4) & 0xF) as int
}

/// The low nibble `n`.
pub open spec fn op_n(op: u16) -> u16 {
    op & 0xF
}

/// The low byte `nn`, the 8-bit immediate.
pub open spec fn op_nn(op: u16) -> u8 {
    (op & 0xFF) as u8
}

/// The low 12 bits `nnn`, the address field.
pub open spec fn op_nnn(op: u16) -> u16 {
    op & 0xFFF
}

/// The ranges of the decoded fields.
pub proof fn lemma_decode_bounds(op: u16)
    ensures
        op_hi(op) < 16,
        0 <= op_x(op) < 16,
        0 <= op_y(op) < 16,
        op_n(op) < 16,
        op_nnn(op) < 4096,
{
    assert(((op >> 12) & 0xF) < 16 && ((op >> 8) & 0xF) < 16 && ((op >> 4) & 0xF) < 16 && (op
        & 0xF) < 16 && (op & 0xFFF) < 4096) by (bit_vector);
}

} // verus!
