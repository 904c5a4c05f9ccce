use vstd::prelude::*;

verus! {

/// Namespace for the one-byte opcodes of the instruction set.
///
/// Operands follow the opcode byte directly, big-endian: `u32` for
/// identifiers, local-variable ids, argument counts and jump displacements,
/// `u64` for fixnum and float immediates.
pub struct Inst;

impl Inst {
    pub const END: u8 = 0;
    pub const PUSH_FIXNUM: u8 = 1;
    pub const PUSH_FLONUM: u8 = 2;
    pub const ADD: u8 = 3;
    pub const SUB: u8 = 4;
    pub const MUL: u8 = 5;
    pub const DIV: u8 = 6;
    pub const EQ: u8 = 7;
    pub const NE: u8 = 8;
    pub const GT: u8 = 9;
    pub const GE: u8 = 10;
    pub const PUSH_TRUE: u8 = 11;
    pub const PUSH_FALSE: u8 = 12;
    pub const PUSH_NIL: u8 = 13;
    pub const SHR: u8 = 14;
    pub const SHL: u8 = 15;
    pub const BIT_OR: u8 = 16;
    pub const BIT_AND: u8 = 17;
    pub const BIT_XOR: u8 = 18;
    pub const JMP: u8 = 19;
    pub const JMP_IF_FALSE: u8 = 20;
    pub const SET_LOCAL: u8 = 21;
    pub const GET_LOCAL: u8 = 22;
    pub const SEND: u8 = 23;
    pub const PUSH_SELF: u8 = 24;
    pub const CREATE_RANGE: u8 = 25;
    pub const GET_CONST: u8 = 26;
    pub const SET_CONST: u8 = 27;
    pub const PUSH_STRING: u8 = 28;
}

} // verus!
