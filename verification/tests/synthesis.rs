use rrop::gadget::{find_gadgets, Gadget};
use rrop::instr::{Instruction, Mnemonic, Register, Segment};
use rrop::rop::{
    binsh, find_write_what_where, pop, syscall, write_data, Primitive, RopElement,
    RopElementKind, RopError, BINSH_STR, EXECVE_SYS,
};

fn ret(address: u64) -> Instruction {
    Instruction::simple(address, Mnemonic::Return)
}

fn pop_insn(address: u64, register: Register) -> Instruction {
    Instruction::pop_reg(address, register)
}

/// Each chain entry as (is_gadget, value), for whole-chain comparisons.
fn shape(chain: &Vec<RopElement>) -> Vec<(bool, u64)> {
    chain
        .iter()
        .map(|e| (*e.kind() == RopElementKind::Gadget, e.value()))
        .collect()
}

/// A pool able to load rax/rdi/rsi/rdx, write through `mov [rdi], rsi`,
/// and reach a syscall trap.
fn full_pool() -> Vec<Gadget> {
    let instructions = vec![
        pop_insn(0x100, Register::Rax),
        ret(0x101),
        pop_insn(0x102, Register::Rdi),
        ret(0x103),
        pop_insn(0x104, Register::Rsi),
        ret(0x105),
        pop_insn(0x106, Register::Rdx),
        ret(0x107),
        Instruction::mov_mem_reg(0x108, Register::Rdi, 0, Segment::Ds, Register::Rsi),
        ret(0x10A),
        Instruction::simple(0x10B, Mnemonic::Syscall),
        ret(0x10D),
    ];
    find_gadgets(&instructions)
}

#[test]
fn pop_rdi_emits_entry_and_immediate() {
    let instructions = vec![pop_insn(0x1000, Register::Rdi), ret(0x1001)];
    let pool = find_gadgets(&instructions);
    assert_eq!(pool.len(), 1);
    assert_eq!(pool[0].instructions.len(), 2);
    let chain = pop(&pool, Register::Rdi, 0x41414141).unwrap();
    assert_eq!(shape(&chain), vec![(true, 0x1000), (false, 0x41414141)]);
    assert_eq!(chain[0].gadget().instructions.len(), 2);
}

#[test]
fn pop_selects_deepest_matching_entry_with_padding() {
    let instructions = vec![
        pop_insn(0x2000, Register::Rax),
        pop_insn(0x2002, Register::Rbx),
        ret(0x2004),
    ];
    let pool = find_gadgets(&instructions);
    let rbx = pop(&pool, Register::Rbx, 7).unwrap();
    assert_eq!(shape(&rbx), vec![(true, 0x2002), (false, 7)]);
    let rax = pop(&pool, Register::Rax, 7).unwrap();
    assert_eq!(shape(&rax), vec![(true, 0x2000), (false, 7), (false, 0)]);
}

#[test]
fn pop_fails_with_register_unavailable() {
    let instructions = vec![pop_insn(0x1000, Register::Rdi), ret(0x1001)];
    let pool = find_gadgets(&instructions);
    assert_eq!(
        pop(&pool, Register::Rbx, 7),
        Err(RopError::RegisterUnavailable(Register::Rbx))
    );
}

#[test]
fn empty_pool_is_rejected_before_any_search() {
    let pool: Vec<Gadget> = Vec::new();
    assert_eq!(pop(&pool, Register::Rdi, 1), Err(RopError::InsufficientPool));
    assert_eq!(
        write_data(&pool, &vec![1], 0x5000),
        Err(RopError::InsufficientPool)
    );
    assert_eq!(
        syscall(&pool, 59, 0, 0, 0, 0, 0, 0, 0),
        Err(RopError::InsufficientPool)
    );
    assert_eq!(binsh(&pool, 0x5000), Err(RopError::InsufficientPool));
}

#[test]
fn write_what_where_gadget_is_recognized() {
    let instructions = vec![
        Instruction::mov_mem_reg(0x4000, Register::Rdi, 0, Segment::Ds, Register::Rsi),
        ret(0x4002),
    ];
    let pool = find_gadgets(&instructions);
    let www = find_write_what_where(&pool).unwrap();
    assert_eq!(www.len(), 1);
    assert_eq!(www[0].instructions[1].address, 0x4000);
}

#[test]
fn displaced_or_overridden_stores_are_not_write_what_where() {
    let displaced = vec![
        Instruction::mov_mem_reg(0x4100, Register::Rdi, 8, Segment::Ds, Register::Rsi),
        ret(0x4103),
    ];
    assert_eq!(
        find_write_what_where(&find_gadgets(&displaced)),
        Err(RopError::PrimitiveUnavailable(Primitive::WriteWhatWhere))
    );
    let overridden = vec![
        Instruction::mov_mem_reg(0x4200, Register::Rdi, 0, Segment::Fs, Register::Rsi),
        ret(0x4203),
    ];
    assert_eq!(
        find_write_what_where(&find_gadgets(&overridden)),
        Err(RopError::PrimitiveUnavailable(Primitive::WriteWhatWhere))
    );
}

#[test]
fn write_data_without_write_gadget_fails_and_binsh_propagates() {
    let instructions = vec![
        pop_insn(0x5000, Register::Rdi),
        ret(0x5001),
        pop_insn(0x5002, Register::Rsi),
        ret(0x5003),
    ];
    let pool = find_gadgets(&instructions);
    let expected = Err(RopError::PrimitiveUnavailable(Primitive::WriteWhatWhere));
    assert_eq!(write_data(&pool, &vec![1, 2], 0x6000), expected);
    assert_eq!(binsh(&pool, 0x6000), expected);
}

#[test]
fn write_data_with_unloadable_registers_is_unsatisfiable() {
    let instructions = vec![
        Instruction::mov_mem_reg(0x4300, Register::Rbx, 0, Segment::Ds, Register::Rcx),
        ret(0x4302),
    ];
    let pool = find_gadgets(&instructions);
    assert_eq!(
        write_data(&pool, &vec![7], 0x6000),
        Err(RopError::WriteUnsatisfiable)
    );
}

#[test]
fn write_data_places_every_word() {
    let pool = full_pool();
    let chain = write_data(&pool, &vec![0xAA, 0xBB], 0x7000).unwrap();
    assert_eq!(
        shape(&chain),
        vec![
            (true, 0x104),
            (false, 0xAA),
            (true, 0x102),
            (false, 0x7000),
            (true, 0x108),
            (true, 0x104),
            (false, 0xBB),
            (true, 0x102),
            (false, 0x7008),
            (true, 0x108),
        ]
    );
}

#[test]
fn syscall_loads_number_then_arguments_then_trap() {
    let pool = full_pool();
    let chain = syscall(&pool, 59, 3, 0x9000, 0x9008, 0x9008, 0, 0, 0).unwrap();
    assert_eq!(
        shape(&chain),
        vec![
            (true, 0x100),
            (false, 59),
            (true, 0x102),
            (false, 0x9000),
            (true, 0x104),
            (false, 0x9008),
            (true, 0x106),
            (false, 0x9008),
            (true, 0x10B),
        ]
    );
    // One load group per argument plus one for the number, then the trap.
    let refs = chain
        .iter()
        .filter(|e| *e.kind() == RopElementKind::Gadget)
        .count();
    assert_eq!(refs, 3 + 1 + 1);
}

#[test]
fn syscall_with_no_arguments_loads_only_the_number() {
    let instructions = vec![
        pop_insn(0x200, Register::Rax),
        ret(0x201),
        Instruction::simple(0x202, Mnemonic::Syscall),
        ret(0x204),
    ];
    let pool = find_gadgets(&instructions);
    let chain = syscall(&pool, 0x3C, 0, 0, 0, 0, 0, 0, 0).unwrap();
    assert_eq!(
        shape(&chain),
        vec![(true, 0x200), (false, 0x3C), (true, 0x202)]
    );
}

#[test]
fn syscall_aborts_on_first_missing_register() {
    let instructions = vec![
        pop_insn(0x300, Register::Rax),
        ret(0x301),
        pop_insn(0x302, Register::Rdi),
        ret(0x303),
        Instruction::simple(0x304, Mnemonic::Syscall),
        ret(0x306),
    ];
    let pool = find_gadgets(&instructions);
    assert_eq!(
        syscall(&pool, 59, 3, 1, 2, 3, 0, 0, 0),
        Err(RopError::RegisterUnavailable(Register::Rsi))
    );
}

#[test]
fn syscall_without_trap_gadget_fails() {
    let instructions = vec![pop_insn(0x400, Register::Rax), ret(0x401)];
    let pool = find_gadgets(&instructions);
    assert_eq!(
        syscall(&pool, 59, 0, 0, 0, 0, 0, 0, 0),
        Err(RopError::PrimitiveUnavailable(Primitive::SyscallTrap))
    );
}

#[test]
fn binsh_writes_the_shell_path_then_invokes_exec() {
    let pool = full_pool();
    let writable = 0x9000;
    let chain = binsh(&pool, writable).unwrap();
    assert_eq!(BINSH_STR, 0x68732F6E69622F);
    assert_eq!(EXECVE_SYS, 59);
    assert_eq!(
        shape(&chain),
        vec![
            // write stage: "/bin/sh\0" word, then the terminating zero word
            (true, 0x104),
            (false, BINSH_STR),
            (true, 0x102),
            (false, 0x9000),
            (true, 0x108),
            (true, 0x104),
            (false, 0),
            (true, 0x102),
            (false, 0x9008),
            (true, 0x108),
            // syscall stage: number first, then args in convention order
            (true, 0x100),
            (false, EXECVE_SYS),
            (true, 0x102),
            (false, 0x9000),
            (true, 0x104),
            (false, 0x9008),
            (true, 0x106),
            (false, 0x9008),
            (true, 0x10B),
        ]
    );
}

#[test]
fn aliased_gadget_serves_pop_rdi() {
    // Only a pop r15 exists in the code, yet rdi is loadable through the
    // overlapping encoding.
    let instructions = vec![pop_insn(0x3000, Register::R15), ret(0x3002)];
    let pool = find_gadgets(&instructions);
    let chain = pop(&pool, Register::Rdi, 5).unwrap();
    assert_eq!(shape(&chain), vec![(true, 0x3001), (false, 5)]);
}

#[test]
fn write_data_with_nothing_to_write_is_unsatisfiable() {
    let pool = full_pool();
    let empty: Vec<u64> = Vec::new();
    assert_eq!(
        write_data(&pool, &empty, 0x7000),
        Err(RopError::WriteUnsatisfiable)
    );
}

#[test]
fn rop_element_accessors_report_construction() {
    let g = Gadget::default();
    assert_eq!(g.instructions.len(), 0);
    let e = RopElement::new(0x1234, g, RopElementKind::ImmediateValue);
    assert_eq!(e.value(), 0x1234);
    assert_eq!(*e.kind(), RopElementKind::ImmediateValue);
    assert_eq!(e.gadget().instructions.len(), 0);

    let instructions = vec![pop_insn(0x500, Register::Rdi), ret(0x501)];
    let pool = find_gadgets(&instructions);
    let referenced = pool[0].duplicate();
    let ge = RopElement::new(0x500, referenced, RopElementKind::Gadget);
    assert_eq!(*ge.kind(), RopElementKind::Gadget);
    assert_eq!(ge.gadget().instructions.len(), 2);
}
