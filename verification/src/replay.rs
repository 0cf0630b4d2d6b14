//! A small-step replay semantics for synthesized chains, and the law that
//! a successful memory-write chain, replayed under it, places every data
//! word at its target address.
//!
//! The machine walks the chain in stack order. A gadget entry transfers
//! control to the instruction of the referenced gadget whose address is
//! the entry value; from there the gadget's instructions execute toward
//! the return at index 0. Each pop consumes the next chain entry (which
//! must be an immediate) into its register; a write-what-where store
//! writes the source register's value through the base register; the
//! return hands control to the next chain entry. Every other effect is
//! outside the model and gets the machine stuck.

use vstd::prelude::*;

use crate::gadget::{gadget_wf, pool_wf};
use crate::instr::{is_return, is_write_what_where, Instruction, Mnemonic, Register};
use crate::rop::{
    candidate_ok, lemma_pool_pop_pick_in_bounds, lemma_pop_scan_found, pick_candidate,
    spec_pop_chain, spec_pop_find, spec_write_data, spec_write_steps, spec_www_list, www_from,
    www_destination, www_source, zero_imms, ElementModel,
};

verus! {

/// No two instructions of the gadget share an address, as holds of any
/// decoded instruction run.
pub open spec fn distinct_addresses(g: Seq<Instruction>) -> bool {
    forall|a: int, b: int| 0 <= a < b < g.len() ==> g[a].address != g[b].address
}

/// Every gadget of the pool has distinct instruction addresses.
pub open spec fn pool_distinct(pv: Seq<Seq<Instruction>>) -> bool {
    forall|k: int| 0 <= k < pv.len() ==> distinct_addresses(#[trigger] pv[k])
}

/// The highest index at or below `j` whose instruction sits at `entry`.
pub open spec fn find_entry_from(code: Seq<Instruction>, entry: u64, j: int) -> Option<int>
    decreases j + 1,
{
    if j < 0 {
        Option::None
    } else if j < code.len() && code[j].address == entry {
        Some(j)
    } else {
        find_entry_from(code, entry, j - 1)
    }
}

/// The index of the instruction a gadget entry address names.
pub open spec fn find_entry(code: Seq<Instruction>, entry: u64) -> Option<int> {
    find_entry_from(code, entry, code.len() - 1)
}

/// Execute a gadget's instructions from index `j` down to its return,
/// consuming stack entries from `chain`: the remaining chain, registers
/// and memory on success, or a stuck machine.
pub open spec fn run_gadget(
    code: Seq<Instruction>,
    j: int,
    chain: Seq<ElementModel>,
    regs: Map<Register, u64>,
    mem: Map<u64, u64>,
) -> Option<(Seq<ElementModel>, Map<Register, u64>, Map<u64, u64>)>
    decreases j,
{
    if j < 0 || j >= code.len() {
        Option::None
    } else if j == 0 {
        if is_return(code[0].mnemonic) {
            Some((chain, regs, mem))
        } else {
            Option::None
        }
    } else if code[j].mnemonic == Mnemonic::Pop {
        if chain.len() > 0 {
            match chain[0] {
                ElementModel::Immediate { value } => run_gadget(
                    code,
                    j - 1,
                    chain.drop_first(),
                    regs.insert(code[j].op0_register, value),
                    mem,
                ),
                ElementModel::GadgetRef { .. } => Option::None,
            }
        } else {
            Option::None
        }
    } else if is_write_what_where(code[j]) {
        if regs.dom().contains(code[j].memory_base) && regs.dom().contains(code[j].op1_register) {
            run_gadget(
                code,
                j - 1,
                chain,
                regs,
                mem.insert(regs[code[j].memory_base], regs[code[j].op1_register]),
            )
        } else {
            Option::None
        }
    } else {
        Option::None
    }
}

/// Replay a whole chain from the given register file and memory: the
/// final registers and memory, or a stuck machine.
pub open spec fn replay(
    chain: Seq<ElementModel>,
    regs: Map<Register, u64>,
    mem: Map<u64, u64>,
) -> Option<(Map<Register, u64>, Map<u64, u64>)>
    decreases chain.len(),
    via replay_termination
{
    if chain.len() == 0 {
        Some((regs, mem))
    } else {
        match chain[0] {
            ElementModel::GadgetRef { entry, code } => match find_entry(code, entry) {
                Some(j) => match run_gadget(code, j, chain.drop_first(), regs, mem) {
                    Some(step) => replay(step.0, step.1, step.2),
                    Option::None => Option::None,
                },
                Option::None => Option::None,
            },
            ElementModel::Immediate { .. } => Option::None,
        }
    }
}

/// A gadget consumes chain entries, never adds them.
proof fn lemma_run_gadget_shrinks(
    code: Seq<Instruction>,
    j: int,
    chain: Seq<ElementModel>,
    regs: Map<Register, u64>,
    mem: Map<u64, u64>,
)
    ensures
        run_gadget(code, j, chain, regs, mem) matches Some(step) ==> step.0.len() <= chain.len(),
    decreases j,
{
    if 0 < j < code.len() {
        if code[j].mnemonic == Mnemonic::Pop && chain.len() > 0 {
            match chain[0] {
                ElementModel::Immediate { value } => {
                    lemma_run_gadget_shrinks(
                        code,
                        j - 1,
                        chain.drop_first(),
                        regs.insert(code[j].op0_register, value),
                        mem,
                    );
                },
                ElementModel::GadgetRef { .. } => {},
            }
        } else if code[j].mnemonic != Mnemonic::Pop && is_write_what_where(code[j])
            && regs.dom().contains(code[j].memory_base) && regs.dom().contains(
            code[j].op1_register,
        ) {
            lemma_run_gadget_shrinks(
                code,
                j - 1,
                chain,
                regs,
                mem.insert(regs[code[j].memory_base], regs[code[j].op1_register]),
            );
        }
    }
}

#[via_fn]
proof fn replay_termination(
    chain: Seq<ElementModel>,
    regs: Map<Register, u64>,
    mem: Map<u64, u64>,
) {
    if chain.len() > 0 {
        match chain[0] {
            ElementModel::GadgetRef { entry, code } => {
                match find_entry(code, entry) {
                    Some(j) => {
                        lemma_run_gadget_shrinks(code, j, chain.drop_first(), regs, mem);
                    },
                    Option::None => {},
                }
            },
            ElementModel::Immediate { .. } => {},
        }
    }
}

/// Where a gadget entry lands when addresses are distinct: exactly the
/// named instruction.
proof fn lemma_find_entry_from_down(code: Seq<Instruction>, entry: u64, t: int, j: int)
    requires
        0 <= j <= t < code.len(),
        code[j].address == entry,
        forall|u: int| j < u <= t ==> (#[trigger] code[u]).address != entry,
    ensures
        find_entry_from(code, entry, t) == Some(j),
    decreases t - j,
{
    if t > j {
        lemma_find_entry_from_down(code, entry, t - 1, j);
    }
}

proof fn lemma_find_entry_at(code: Seq<Instruction>, j: int)
    requires
        distinct_addresses(code),
        0 <= j < code.len(),
    ensures
        find_entry(code, code[j].address) == Some(j),
{
    lemma_find_entry_from_down(code, code[j].address, code.len() - 1, j);
}

/// The register file after the trailing pops of a gadget entered at
/// index `j + 1` have consumed their zero paddings: pops at indices `j`
/// down to 1, each loading zero.
pub open spec fn pads_regs(code: Seq<Instruction>, j: int, regs: Map<Register, u64>) -> Map<
    Register,
    u64,
>
    decreases j,
{
    if j < 1 {
        regs
    } else {
        pads_regs(code, j - 1, regs.insert(code[j].op0_register, 0))
    }
}

/// Running the trailing pops over their zero paddings succeeds and yields
/// `pads_regs`, leaving memory and the rest of the chain alone.
proof fn lemma_run_pads(
    code: Seq<Instruction>,
    j: int,
    rest: Seq<ElementModel>,
    regs: Map<Register, u64>,
    mem: Map<u64, u64>,
)
    requires
        0 <= j < code.len(),
        is_return(code[0].mnemonic),
        forall|t: int| 1 <= t <= j ==> (#[trigger] code[t]).mnemonic == Mnemonic::Pop,
    ensures
        run_gadget(code, j, zero_imms(j as nat) + rest, regs, mem) == Some(
            (rest, pads_regs(code, j, regs), mem),
        ),
    decreases j,
{
    let chain = zero_imms(j as nat) + rest;
    if j == 0 {
        assert(chain =~= rest);
    } else {
        assert(chain[0] == ElementModel::Immediate { value: 0 });
        assert(chain.drop_first() =~= zero_imms((j - 1) as nat) + rest);
        lemma_run_pads(code, j - 1, rest, regs.insert(code[j].op0_register, 0), mem);
    }
}

/// Registers the trailing pops do not name keep their binding.
proof fn lemma_pads_regs_keep(code: Seq<Instruction>, j: int, regs: Map<Register, u64>, x: Register)
    requires
        forall|t: int| 1 <= t <= j ==> (#[trigger] code[t]).op0_register != x,
    ensures
        pads_regs(code, j, regs).dom().contains(x) == regs.dom().contains(x),
        regs.dom().contains(x) ==> pads_regs(code, j, regs)[x] == regs[x],
    decreases j,
{
    if j >= 1 {
        lemma_pads_regs_keep(code, j - 1, regs.insert(code[j].op0_register, 0), x);
    }
}

/// The register file after a register-load group has executed: the
/// target register holds the loaded value, and the gadget's further pops
/// hold zero.
pub open spec fn pop_result_regs(
    pv: Seq<Seq<Instruction>>,
    register: Register,
    value: u64,
    regs: Map<Register, u64>,
) -> Map<Register, u64> {
    match spec_pop_find(pv, register) {
        Some((gi, ii)) => pads_regs(
            pv[gi],
            ii - 1,
            regs.insert(pv[gi][ii].op0_register, value),
        ),
        Option::None => regs,
    }
}

/// Replaying a register-load group loads the register and touches no
/// memory: the machine continues into the rest of the chain with the
/// group's register file.
proof fn lemma_replay_pop_group(
    pv: Seq<Seq<Instruction>>,
    register: Register,
    value: u64,
    rest: Seq<ElementModel>,
    regs: Map<Register, u64>,
    mem: Map<u64, u64>,
)
    requires
        pool_wf(pv),
        pool_distinct(pv),
        spec_pop_find(pv, register) is Some,
    ensures
        replay(spec_pop_chain(pv, register, value) + rest, regs, mem) == replay(
            rest,
            pop_result_regs(pv, register, value, regs),
            mem,
        ),
        pop_result_regs(pv, register, value, regs).dom().contains(register),
        pop_result_regs(pv, register, value, regs)[register] == value,
{
    lemma_pool_pop_pick_in_bounds(pv, register, 0);
    let (gi, ii) = spec_pop_find(pv, register)->Some_0;
    let code = pv[gi];
    lemma_pop_scan_found(code, register, 1);
    assert(gadget_wf(code));
    let head = ElementModel::GadgetRef { entry: code[ii].address, code };
    let chain = spec_pop_chain(pv, register, value) + rest;
    assert(chain[0] == head);
    lemma_find_entry_at(code, ii);
    let after_entry = chain.drop_first();
    assert(after_entry[0] == ElementModel::Immediate { value });
    assert(after_entry.drop_first() =~= zero_imms((ii - 1) as nat) + rest);
    let loaded = regs.insert(code[ii].op0_register, value);
    lemma_run_pads(code, ii - 1, rest, loaded, mem);
    assert(run_gadget(code, ii, after_entry, regs, mem) == Some(
        (rest, pads_regs(code, ii - 1, loaded), mem),
    ));
    lemma_pads_regs_keep(code, ii - 1, loaded, register);
}

/// A register the destination load's trailing pops do not name keeps the
/// binding it had before the group ran.
proof fn lemma_pop_result_keep(
    pv: Seq<Seq<Instruction>>,
    register: Register,
    value: u64,
    regs: Map<Register, u64>,
    x: Register,
)
    requires
        spec_pop_find(pv, register) is Some,
        x != register,
        ({
            let (gi, ii) = spec_pop_find(pv, register)->Some_0;
            forall|t: int| 1 <= t < ii ==> (#[trigger] pv[gi][t]).op0_register != x
        }),
    ensures
        pop_result_regs(pv, register, value, regs).dom().contains(x) == regs.dom().contains(x),
        regs.dom().contains(x) ==> pop_result_regs(pv, register, value, regs)[x] == regs[x],
{
    lemma_pool_pop_pick_in_bounds(pv, register, 0);
    let (gi, ii) = spec_pop_find(pv, register)->Some_0;
    lemma_pop_scan_found(pv[gi], register, 1);
    assert(pv[gi][ii].op0_register == register);
    lemma_pads_regs_keep(pv[gi], ii - 1, regs.insert(pv[gi][ii].op0_register, value), x);
}

/// Replaying the write gadget's entry performs exactly the store: memory
/// gains the source register's value at the destination register's
/// address, and the machine continues with registers unchanged.
proof fn lemma_replay_store_step(
    g: Seq<Instruction>,
    rest: Seq<ElementModel>,
    regs: Map<Register, u64>,
    mem: Map<u64, u64>,
)
    requires
        gadget_wf(g),
        distinct_addresses(g),
        g.len() >= 2,
        is_write_what_where(g[1]),
        regs.dom().contains(g[1].memory_base),
        regs.dom().contains(g[1].op1_register),
    ensures
        replay(seq![ElementModel::GadgetRef { entry: g[1].address, code: g }] + rest, regs, mem)
            == replay(rest, regs, mem.insert(regs[g[1].memory_base], regs[g[1].op1_register])),
{
    let chain = seq![ElementModel::GadgetRef { entry: g[1].address, code: g }] + rest;
    assert(chain[0] == ElementModel::GadgetRef { entry: g[1].address, code: g });
    lemma_find_entry_at(g, 1);
    assert(chain.drop_first() =~= rest);
    assert(g[1].mnemonic == Mnemonic::Move);
    let stored = mem.insert(regs[g[1].memory_base], regs[g[1].op1_register]);
    assert(run_gadget(g, 0, rest, regs, stored) == Some((rest, regs, stored)));
    assert(run_gadget(g, 1, rest, regs, mem) == Some((rest, regs, stored)));
}

/// The address the word at offset `t` is written to.
pub open spec fn word_addr(address: u64, t: int) -> u64 {
    (address + 8 * t) as u64
}

/// Whether the destination load's trailing pops leave the already loaded
/// source register alone; a pool violating this clobbers the stored
/// value with a zero padding before the store runs.
pub open spec fn destination_load_spares_source(
    pv: Seq<Seq<Instruction>>,
    g: Seq<Instruction>,
) -> bool {
    match spec_pop_find(pv, www_destination(g)) {
        Some((gd, id)) => forall|t: int|
            1 <= t < id ==> (#[trigger] pv[gd][t]).op0_register != www_source(g),
        Option::None => true,
    }
}

/// Replaying the write chain from word `i` on stores every remaining
/// word at its address and touches no other memory.
proof fn lemma_replay_steps(
    pv: Seq<Seq<Instruction>>,
    g: Seq<Instruction>,
    data: Seq<u64>,
    address: u64,
    i: int,
    regs: Map<Register, u64>,
    mem: Map<u64, u64>,
)
    requires
        pool_wf(pv),
        pool_distinct(pv),
        gadget_wf(g),
        distinct_addresses(g),
        g.len() >= 2,
        is_write_what_where(g[1]),
        www_source(g) != www_destination(g),
        candidate_ok(pv, g),
        destination_load_spares_source(pv, g),
        0 <= i <= data.len(),
        data.len() == 0 || address + 8 * (data.len() - 1) <= u64::MAX,
    ensures
        replay(spec_write_steps(pv, g, data, address, i), regs, mem) is Some,
        ({
            let m2 = replay(spec_write_steps(pv, g, data, address, i), regs, mem)->Some_0.1;
            &&& forall|t: int|
                i <= t < data.len() ==> m2.dom().contains(#[trigger] word_addr(address, t))
                    && m2[word_addr(address, t)] == data[t]
            &&& forall|a: u64|
                #![trigger m2.dom().contains(a)]
                (forall|t: int| i <= t < data.len() ==> a != word_addr(address, t)) ==> (
                m2.dom().contains(a) == mem.dom().contains(a) && (mem.dom().contains(a)
                    ==> m2[a] == mem[a]))
        }),
    decreases data.len() - i,
{
    let src = www_source(g);
    let dst = www_destination(g);
    let steps = spec_write_steps(pv, g, data, address, i);
    if i >= data.len() {
        assert(steps =~= Seq::<ElementModel>::empty());
    } else {
        let store = ElementModel::GadgetRef { entry: g[1].address, code: g };
        let next = spec_write_steps(pv, g, data, address, i + 1);
        let rest2 = seq![store] + next;
        let rest1 = spec_pop_chain(pv, dst, word_addr(address, i)) + rest2;
        assert(steps =~= spec_pop_chain(pv, src, data[i]) + rest1);
        lemma_replay_pop_group(pv, src, data[i], rest1, regs, mem);
        let regs1 = pop_result_regs(pv, src, data[i], regs);
        lemma_replay_pop_group(pv, dst, word_addr(address, i), rest2, regs1, mem);
        let regs2 = pop_result_regs(pv, dst, word_addr(address, i), regs1);
        lemma_pop_result_keep(pv, dst, word_addr(address, i), regs1, src);
        assert(regs2.dom().contains(src) && regs2[src] == data[i]);
        assert(regs2.dom().contains(dst) && regs2[dst] == word_addr(address, i));
        lemma_replay_store_step(g, next, regs2, mem);
        let mem1 = mem.insert(word_addr(address, i), data[i]);
        assert(regs2[g[1].memory_base] == word_addr(address, i));
        assert(regs2[g[1].op1_register] == data[i]);
        assert(mem.insert(regs2[g[1].memory_base], regs2[g[1].op1_register]) == mem1);
        lemma_replay_steps(pv, g, data, address, i + 1, regs2, mem1);
        assert(replay(steps, regs, mem) == replay(rest1, regs1, mem));
        assert(replay(rest1, regs1, mem) == replay(rest2, regs2, mem));
        assert(replay(rest2, regs2, mem) == replay(next, regs2, mem1));
        assert(replay(next, regs2, mem1) is Some);
        let m2 = replay(next, regs2, mem1)->Some_0.1;
        assert forall|u: int| i + 1 <= u < data.len() implies word_addr(address, i) != word_addr(
            address,
            u,
        ) by {
            assert(word_addr(address, i) == address + 8 * i);
            assert(word_addr(address, u) == address + 8 * u);
        }
        assert forall|t: int|
            i <= t < data.len() implies m2.dom().contains(#[trigger] word_addr(address, t))
            && m2[word_addr(address, t)] == data[t] by {
            if t == i {
                assert(mem1.dom().contains(word_addr(address, i)));
                assert(mem1[word_addr(address, i)] == data[i]);
                assert(m2.dom().contains(word_addr(address, i)) == mem1.dom().contains(
                    word_addr(address, i),
                ));
                assert(m2[word_addr(address, i)] == mem1[word_addr(address, i)]);
            }
        }
        assert forall|a: u64|
            (forall|t: int| i <= t < data.len() ==> a != word_addr(address, t)) implies (
            m2.dom().contains(a) == mem.dom().contains(a) && (mem.dom().contains(a) ==> m2[a]
                == mem[a])) by {
            assert(a != word_addr(address, i));
            assert(forall|t: int| i + 1 <= t < data.len() ==> a != word_addr(address, t));
            assert(m2.dom().contains(a) == mem1.dom().contains(a));
            assert(mem1.dom().contains(a) ==> m2[a] == mem1[a]);
            assert(mem1.dom().contains(a) == mem.dom().contains(a));
            assert(mem.dom().contains(a) ==> mem1[a] == mem[a]);
        }
    }
}

/// What a found write candidate guarantees: a real index whose gadget
/// the pool can serve.
proof fn lemma_pick_candidate_found(pv: Seq<Seq<Instruction>>, ws: Seq<Seq<Instruction>>, j: int)
    ensures
        pick_candidate(pv, ws, j) matches Some(t) ==> j <= t < ws.len() && candidate_ok(
            pv,
            ws[t],
        ),
    decreases ws.len() - j,
{
    if !(j < 0 || j >= ws.len()) {
        lemma_pick_candidate_found(pv, ws, j + 1);
    }
}

/// Every entry of the write-what-where list is one of the pool's gadgets
/// and has the write shape.
proof fn lemma_www_from_members(pv: Seq<Seq<Instruction>>, j: int)
    ensures
        forall|k: int|
            0 <= k < www_from(pv, j).len() ==> (#[trigger] www_from(pv, j)[k]).len() >= 2
                && is_write_what_where(www_from(pv, j)[k][1]),
        forall|k: int|
            0 <= k < www_from(pv, j).len() ==> exists|t: int|
                0 <= t < pv.len() && #[trigger] www_from(pv, j)[k] == pv[t],
    decreases pv.len() - j,
{
    if !(j < 0 || j >= pv.len()) {
        lemma_www_from_members(pv, j + 1);
        let w = www_from(pv, j);
        let rest = www_from(pv, j + 1);
        if w.len() > rest.len() {
            assert(w == seq![pv[j]] + rest);
            assert forall|k: int| 0 <= k < w.len() implies (#[trigger] w[k]).len() >= 2
                && is_write_what_where(w[k][1]) by {
                if k > 0 {
                    assert(w[k] == rest[k - 1]);
                }
            }
            assert forall|k: int| 0 <= k < w.len() implies exists|t: int|
                0 <= t < pv.len() && #[trigger] w[k] == pv[t] by {
                if k == 0 {
                    assert(w[k] == pv[j]);
                } else {
                    assert(w[k] == rest[k - 1]);
                }
            }
        } else {
            assert(w =~= rest);
        }
    }
}

/// The write gadget a successful memory write uses: the first candidate
/// whose two registers the pool can load.
pub open spec fn chosen_write_gadget(pv: Seq<Seq<Instruction>>) -> Seq<Instruction> {
    match pick_candidate(pv, spec_www_list(pv), 0) {
        Some(j) => spec_www_list(pv)[j],
        Option::None => Seq::empty(),
    }
}

/// Law: a successful memory-write chain, replayed under the machine
/// semantics — load the source register, load the destination register,
/// execute the write, word after word — terminates and leaves every data
/// word at `address + 8 * i`, touching no other memory. It holds for any
/// pool whose gadgets carry distinct instruction addresses, whose chosen
/// write gadget stores one register through another, and whose
/// destination load does not clobber the already loaded source register
/// with one of its zero paddings.
pub proof fn lemma_write_chain_replay(
    pv: Seq<Seq<Instruction>>,
    data: Seq<u64>,
    address: u64,
    regs: Map<Register, u64>,
    mem: Map<u64, u64>,
)
    requires
        pool_wf(pv),
        pool_distinct(pv),
        spec_write_data(pv, data, address) is Ok,
        address + 8 * (data.len() - 1) <= u64::MAX,
        www_source(chosen_write_gadget(pv)) != www_destination(chosen_write_gadget(pv)),
        destination_load_spares_source(pv, chosen_write_gadget(pv)),
    ensures
        replay(spec_write_data(pv, data, address)->Ok_0, regs, mem) is Some,
        ({
            let m2 = replay(spec_write_data(pv, data, address)->Ok_0, regs, mem)->Some_0.1;
            forall|t: int|
                0 <= t < data.len() ==> m2.dom().contains(#[trigger] word_addr(address, t))
                    && m2[word_addr(address, t)] == data[t]
        }),
{
    let ws = spec_www_list(pv);
    lemma_pick_candidate_found(pv, ws, 0);
    let j = pick_candidate(pv, ws, 0)->Some_0;
    let g = ws[j];
    assert(g == chosen_write_gadget(pv));
    lemma_www_from_members(pv, 0);
    assert(g.len() >= 2 && is_write_what_where(g[1]));
    assert(exists|t: int| 0 <= t < pv.len() && g == pv[t]);
    let member = choose|t: int| 0 <= t < pv.len() && g == pv[t];
    assert(gadget_wf(pv[member]));
    assert(distinct_addresses(pv[member]));
    lemma_replay_steps(pv, g, data, address, 0, regs, mem);
    assert(spec_write_data(pv, data, address)->Ok_0 == spec_write_steps(pv, g, data, address, 0));
}

} // verus!
