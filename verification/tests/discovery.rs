use rrop::gadget::find_gadgets;
use rrop::instr::{Instruction, Mnemonic, Register, Segment};

fn ret(address: u64) -> Instruction {
    Instruction::simple(address, Mnemonic::Return)
}

fn pop(address: u64, register: Register) -> Instruction {
    Instruction::pop_reg(address, register)
}

#[test]
fn single_pop_ret_yields_one_gadget() {
    let instructions = vec![pop(0x1000, Register::Rdi), ret(0x1001)];
    let pool = find_gadgets(&instructions);
    assert_eq!(pool.len(), 1);
    let g = &pool[0];
    assert_eq!(g.instructions.len(), 2);
    assert_eq!(g.instructions[0].mnemonic, Mnemonic::Return);
    assert_eq!(g.instructions[0].address, 0x1001);
    assert_eq!(g.instructions[1].mnemonic, Mnemonic::Pop);
    assert_eq!(g.instructions[1].op0_register, Register::Rdi);
    assert_eq!(g.instructions[1].address, 0x1000);
}

#[test]
fn bare_return_never_enters_the_pool() {
    let lone = vec![ret(0x10)];
    assert_eq!(find_gadgets(&lone).len(), 0);

    let blocked = vec![Instruction::simple(0x20, Mnemonic::Other), ret(0x21)];
    assert_eq!(find_gadgets(&blocked).len(), 0);
}

#[test]
fn empty_sequence_yields_empty_pool() {
    let instructions: Vec<Instruction> = Vec::new();
    assert_eq!(find_gadgets(&instructions).len(), 0);
}

#[test]
fn walk_stops_at_first_disallowed_instruction() {
    let instructions = vec![
        pop(0x30, Register::Rax),
        Instruction::simple(0x31, Mnemonic::Other),
        pop(0x32, Register::Rbx),
        ret(0x34),
    ];
    let pool = find_gadgets(&instructions);
    assert_eq!(pool.len(), 1);
    // Only the run behind the blocking instruction survives.
    assert_eq!(pool[0].instructions.len(), 2);
    assert_eq!(pool[0].instructions[1].address, 0x32);
}

#[test]
fn every_allow_set_mnemonic_is_kept() {
    let instructions = vec![
        Instruction::simple(0x40, Mnemonic::Leave),
        Instruction::simple(0x41, Mnemonic::Add),
        Instruction::simple(0x42, Mnemonic::Subtract),
        Instruction::simple(0x43, Mnemonic::Interrupt),
        Instruction::simple(0x44, Mnemonic::Syscall),
        Instruction::mov_mem_reg(0x45, Register::Rdi, 0, Segment::Ds, Register::Rsi),
        ret(0x48),
    ];
    let pool = find_gadgets(&instructions);
    assert_eq!(pool.len(), 1);
    assert_eq!(pool[0].instructions.len(), 7);
    assert_eq!(pool[0].instructions[0].mnemonic, Mnemonic::Return);
    assert_eq!(pool[0].instructions[6].mnemonic, Mnemonic::Leave);
}

#[test]
fn far_return_terminates_a_gadget() {
    let instructions = vec![
        pop(0x50, Register::Rbx),
        Instruction::simple(0x51, Mnemonic::FarReturn),
    ];
    let pool = find_gadgets(&instructions);
    assert_eq!(pool.len(), 1);
    assert_eq!(pool[0].instructions[0].mnemonic, Mnemonic::FarReturn);
}

#[test]
fn pop_r15_synthesizes_an_aliased_pop_rdi_gadget() {
    let instructions = vec![pop(0x3000, Register::R15), ret(0x3002)];
    let pool = find_gadgets(&instructions);
    assert_eq!(pool.len(), 2);
    // The aliased gadget is emitted first, entered one byte into the
    // pop r15 encoding, past its one-byte register-extension prefix.
    let alias = &pool[0];
    assert_eq!(alias.instructions.len(), 2);
    assert_eq!(alias.instructions[0].mnemonic, Mnemonic::Return);
    assert_eq!(alias.instructions[1].mnemonic, Mnemonic::Pop);
    assert_eq!(alias.instructions[1].op0_register, Register::Rdi);
    assert_eq!(alias.instructions[1].address, 0x3001);
    // The ordinary maximal gadget still follows.
    let maximal = &pool[1];
    assert_eq!(maximal.instructions.len(), 2);
    assert_eq!(maximal.instructions[1].op0_register, Register::R15);
    assert_eq!(maximal.instructions[1].address, 0x3000);
}

#[test]
fn returns_inside_a_run_extend_later_gadgets() {
    let instructions = vec![
        pop(0x60, Register::Rax),
        ret(0x61),
        pop(0x62, Register::Rbx),
        ret(0x63),
    ];
    let pool = find_gadgets(&instructions);
    assert_eq!(pool.len(), 2);
    assert_eq!(pool[0].instructions.len(), 2);
    // A return is itself in the allow-set, so the second walk runs
    // through the first gadget.
    assert_eq!(pool[1].instructions.len(), 4);
    assert_eq!(pool[1].instructions[0].address, 0x63);
    assert_eq!(pool[1].instructions[3].address, 0x60);
}

#[test]
fn rescanning_the_same_sequence_is_deterministic() {
    let instructions = vec![
        pop(0x70, Register::R15),
        ret(0x72),
        pop(0x73, Register::Rax),
        pop(0x75, Register::Rbx),
        ret(0x77),
    ];
    let first = find_gadgets(&instructions);
    let second = find_gadgets(&instructions);
    assert_eq!(first.len(), second.len());
    for (a, b) in first.iter().zip(second.iter()) {
        assert_eq!(a.instructions, b.instructions);
    }
}
