//! The instruction view consumed by gadget discovery and chain synthesis:
//! one decoded x86-64 instruction, reduced to the fields the search logic
//! reads — address, mnemonic class, operand kinds, operand registers and
//! the memory-operand fields.

use vstd::prelude::*;

verus! {

/// The general-purpose registers the synthesis logic can name, plus
/// `NoRegister` for an absent operand and `OtherRegister` for any register
/// outside this set (a sub-register, a segment base and the like).
#[derive(Clone, Copy, PartialEq, Eq, Structural, Debug)]
pub enum Register {
    Rax,
    Rbx,
    Rcx,
    Rdx,
    Rsi,
    Rdi,
    Rbp,
    Rsp,
    R8,
    R9,
    R10,
    R11,
    R12,
    R13,
    R14,
    R15,
    NoRegister,
    OtherRegister,
}

/// The closed set of mnemonic classes the scanner distinguishes. Every
/// class but `Other` belongs to the gadget allow-set.
#[derive(Clone, Copy, PartialEq, Eq, Structural, Debug)]
pub enum Mnemonic {
    Pop,
    Leave,
    Return,
    FarReturn,
    Move,
    Add,
    Subtract,
    Interrupt,
    Syscall,
    Other,
}

/// The kind of one instruction operand.
#[derive(Clone, Copy, PartialEq, Eq, Structural, Debug)]
pub enum OpKind {
    Register,
    Memory,
    Immediate,
    NoOperand,
}

/// The segment register attached to a memory operand; `Ds` is the default
/// when no override prefix is present.
#[derive(Clone, Copy, PartialEq, Eq, Structural, Debug)]
pub enum Segment {
    Cs,
    Ds,
    Es,
    Fs,
    Gs,
    Ss,
}

/// One decoded instruction. Fields that a given mnemonic does not use hold
/// `NoRegister`, `NoOperand`, zero displacement and the `Ds` segment.
#[derive(Clone, Copy, PartialEq, Eq, Structural, Debug)]
pub struct Instruction {
    /// Absolute virtual address of the first byte of the encoding.
    pub address: u64,
    pub mnemonic: Mnemonic,
    pub op0_kind: OpKind,
    pub op1_kind: OpKind,
    pub op0_register: Register,
    pub op1_register: Register,
    /// Base register of a memory operand.
    pub memory_base: Register,
    /// Displacement of a memory operand.
    pub memory_displacement: u64,
    /// Segment register of a memory operand.
    pub memory_segment: Segment,
}

/// Whether a mnemonic belongs to the fixed allow-set that a gadget may
/// contain: everything the scanner classifies except `Other`.
pub open spec fn allowed_mnemonic(m: Mnemonic) -> bool {
    m != Mnemonic::Other
}

/// Whether a mnemonic terminates a gadget.
pub open spec fn is_return(m: Mnemonic) -> bool {
    m == Mnemonic::Return || m == Mnemonic::FarReturn
}

/// Whether an instruction pops the stack into the given register.
pub open spec fn is_pop_of(i: Instruction, r: Register) -> bool {
    i.mnemonic == Mnemonic::Pop && i.op0_register == r
}

/// Whether an instruction is the store of a write-what-where gadget:
/// `mov [base], src` with zero displacement and no segment override.
pub open spec fn is_write_what_where(i: Instruction) -> bool {
    &&& i.mnemonic == Mnemonic::Move
    &&& i.op0_kind == OpKind::Memory
    &&& i.op1_kind == OpKind::Register
    &&& i.memory_displacement == 0
    &&& i.memory_segment == Segment::Ds
}

impl Instruction {
    /// An instruction with no operand fields in use: a return, a syscall,
    /// a leave and the like.
    pub fn simple(address: u64, mnemonic: Mnemonic) -> (r: Instruction)
        ensures
            r == (Instruction {
                address,
                mnemonic,
                op0_kind: OpKind::NoOperand,
                op1_kind: OpKind::NoOperand,
                op0_register: Register::NoRegister,
                op1_register: Register::NoRegister,
                memory_base: Register::NoRegister,
                memory_displacement: 0,
                memory_segment: Segment::Ds,
            }),
    {
        Instruction {
            address,
            mnemonic,
            op0_kind: OpKind::NoOperand,
            op1_kind: OpKind::NoOperand,
            op0_register: Register::NoRegister,
            op1_register: Register::NoRegister,
            memory_base: Register::NoRegister,
            memory_displacement: 0,
            memory_segment: Segment::Ds,
        }
    }

    /// A `pop register` instruction.
    pub fn pop_reg(address: u64, register: Register) -> (r: Instruction)
        ensures
            r == pop_instruction(address, register),
    {
        Instruction {
            address,
            mnemonic: Mnemonic::Pop,
            op0_kind: OpKind::Register,
            op1_kind: OpKind::NoOperand,
            op0_register: register,
            op1_register: Register::NoRegister,
            memory_base: Register::NoRegister,
            memory_displacement: 0,
            memory_segment: Segment::Ds,
        }
    }

    /// A `mov [base + displacement], source` instruction under the given
    /// segment.
    pub fn mov_mem_reg(
        address: u64,
        base: Register,
        displacement: u64,
        segment: Segment,
        source: Register,
    ) -> (r: Instruction)
        ensures
            r == (Instruction {
                address,
                mnemonic: Mnemonic::Move,
                op0_kind: OpKind::Memory,
                op1_kind: OpKind::Register,
                op0_register: Register::NoRegister,
                op1_register: source,
                memory_base: base,
                memory_displacement: displacement,
                memory_segment: segment,
            }),
    {
        Instruction {
            address,
            mnemonic: Mnemonic::Move,
            op0_kind: OpKind::Memory,
            op1_kind: OpKind::Register,
            op0_register: Register::NoRegister,
            op1_register: source,
            memory_base: base,
            memory_displacement: displacement,
            memory_segment: segment,
        }
    }
}

/// The shape of a `pop register` instruction at a given address, as the
/// scanner synthesizes it and as `Instruction::pop_reg` builds it.
pub open spec fn pop_instruction(address: u64, register: Register) -> Instruction {
    Instruction {
        address,
        mnemonic: Mnemonic::Pop,
        op0_kind: OpKind::Register,
        op1_kind: OpKind::NoOperand,
        op0_register: register,
        op1_register: Register::NoRegister,
        memory_base: Register::NoRegister,
        memory_displacement: 0,
        memory_segment: Segment::Ds,
    }
}

} // verus!
