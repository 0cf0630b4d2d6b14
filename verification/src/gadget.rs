//! Gadget discovery: for every return instruction in a decoded sequence,
//! the maximal backward run of allow-set instructions ending there, plus
//! the aliased `pop rdi` gadgets hidden inside `pop r15` encodings.

use vstd::prelude::*;

use crate::instr::{
    allowed_mnemonic, is_return, pop_instruction, Instruction, Mnemonic, Register,
};

verus! {

/// An instruction run ending in a return, stored return-first: index 0 is
/// the terminating return, higher indices are earlier addresses. Jumping
/// to the address of the instruction at index `i` executes instructions
/// `i, i-1, ..., 0`.
#[derive(Clone, PartialEq, Debug)]
pub struct Gadget {
    pub instructions: Vec<Instruction>,
}

impl View for Gadget {
    type V = Seq<Instruction>;

    open spec fn view(&self) -> Seq<Instruction> {
        self.instructions@
    }
}

impl Gadget {
    /// The empty gadget, used to fill the gadget slot of an immediate
    /// chain element.
    pub fn default() -> (g: Gadget)
        ensures
            g@ =~= Seq::<Instruction>::empty(),
    {
        Gadget { instructions: Vec::new() }
    }

    /// A fresh gadget holding the same instructions, for chain entries
    /// that reference a pool gadget.
    pub fn duplicate(&self) -> (g: Gadget)
        ensures
            g@ == self@,
    {
        Gadget { instructions: copy_instructions(&self.instructions) }
    }
}

/// Well-formedness of a discovered gadget: at least two instructions, a
/// return at index 0, and every instruction in the allow-set.
pub open spec fn gadget_wf(g: Seq<Instruction>) -> bool {
    &&& g.len() >= 2
    &&& is_return(g[0].mnemonic)
    &&& forall|i: int| 0 <= i < g.len() ==> allowed_mnemonic(#[trigger] g[i].mnemonic)
}

/// The instruction-sequence views of a sequence of gadgets.
pub open spec fn pool_view(p: Seq<Gadget>) -> Seq<Seq<Instruction>> {
    p.map_values(|g: Gadget| g@)
}

/// Well-formedness of a gadget pool: every gadget in it is well formed.
pub open spec fn pool_wf(pv: Seq<Seq<Instruction>>) -> bool {
    forall|k: int| 0 <= k < pv.len() ==> gadget_wf(#[trigger] pv[k])
}

/// The address of the aliased `pop rdi` encoding inside a `pop r15`
/// instruction: the register-extension prefix is one byte long, so the
/// unprefixed encoding starts one byte past the instruction's own address.
pub open spec fn alias_address(a: u64) -> u64 {
    if a == u64::MAX {
        0
    } else {
        (a + 1) as u64
    }
}

/// How many consecutive instructions ending at `pos` (inclusive, walking
/// toward index 0) carry an allow-set mnemonic.
pub open spec fn run_len(s: Seq<Instruction>, pos: int) -> nat
    decreases pos + 1,
{
    if pos < 0 || pos >= s.len() || !allowed_mnemonic(s[pos].mnemonic) {
        0
    } else {
        1 + run_len(s, pos - 1)
    }
}

/// The maximal gadget for the return site at `pos`: the backward run of
/// allow-set instructions, stored return-first.
pub open spec fn max_gadget(s: Seq<Instruction>, pos: int) -> Seq<Instruction> {
    Seq::new(run_len(s, pos), |k: int| s[pos - k])
}

/// The aliased gadget synthesized when the backward walk for the return
/// site at `pos` reaches a `pop r15` at index `i`: the instructions walked
/// so far, then a synthetic `pop rdi` at the overlapping byte offset.
pub open spec fn alias_gadget(s: Seq<Instruction>, pos: int, i: int) -> Seq<Instruction> {
    Seq::new((pos - i) as nat, |k: int| s[pos - k]).push(
        pop_instruction(alias_address(s[i].address), Register::Rdi),
    )
}

/// All aliased gadgets the walk for the return site at `pos` emits while
/// it covers indices `i` down to the end of the allow-set run, in walk
/// order (higher index first).
pub open spec fn site_aliases(s: Seq<Instruction>, pos: int, i: int) -> Seq<Seq<Instruction>>
    decreases i + 1,
{
    if i < 0 || i >= s.len() || !allowed_mnemonic(s[i].mnemonic) {
        Seq::empty()
    } else {
        let rest = site_aliases(s, pos, i - 1);
        if s[i].mnemonic == Mnemonic::Pop && s[i].op0_register == Register::R15 {
            seq![alias_gadget(s, pos, i)] + rest
        } else {
            rest
        }
    }
}

/// Every gadget the return site at `pos` contributes: its aliased gadgets
/// in walk order, then the maximal gadget when it has at least two
/// instructions.
pub open spec fn site_gadgets(s: Seq<Instruction>, pos: int) -> Seq<Seq<Instruction>> {
    site_aliases(s, pos, pos) + if run_len(s, pos) >= 2 {
        seq![max_gadget(s, pos)]
    } else {
        Seq::empty()
    }
}

/// All gadgets contributed by return sites at index `j` or later, in
/// sequence order.
pub open spec fn scan_from(s: Seq<Instruction>, j: int) -> Seq<Seq<Instruction>>
    decreases s.len() - j,
{
    if j < 0 || j >= s.len() {
        Seq::empty()
    } else {
        (if is_return(s[j].mnemonic) {
            site_gadgets(s, j)
        } else {
            Seq::empty()
        }) + scan_from(s, j + 1)
    }
}

/// The whole pool discovered in an instruction sequence, in scan order.
pub open spec fn spec_find_gadgets(s: Seq<Instruction>) -> Seq<Seq<Instruction>> {
    scan_from(s, 0)
}

/// If every instruction strictly after `i` up to `pos` is in the allow-set
/// and `i` itself is not (or lies before the sequence), the backward run
/// from `pos` is exactly `pos - i` long.
proof fn lemma_run_len_ends(s: Seq<Instruction>, pos: int, i: int)
    requires
        0 <= pos < s.len() || pos == i,
        -1 <= i <= pos,
        forall|j: int| i < j <= pos ==> allowed_mnemonic(#[trigger] s[j].mnemonic),
        i >= 0 ==> !allowed_mnemonic(s[i].mnemonic),
    ensures
        run_len(s, pos) == pos - i,
    decreases pos - i,
{
    if pos > i {
        assert(allowed_mnemonic(s[pos].mnemonic));
        lemma_run_len_ends(s, pos - 1, i);
    }
}

/// Every position inside the backward run from `pos` carries an allow-set
/// mnemonic, and the run never reaches past the start of the sequence.
proof fn lemma_run_allowed(s: Seq<Instruction>, pos: int)
    requires
        pos >= -1,
    ensures
        run_len(s, pos) <= pos + 1,
        forall|k: int| 0 <= k < run_len(s, pos) ==> allowed_mnemonic(#[trigger] s[pos - k].mnemonic),
    decreases pos + 1,
{
    if 0 <= pos < s.len() && allowed_mnemonic(s[pos].mnemonic) {
        lemma_run_allowed(s, pos - 1);
        assert forall|k: int| 0 <= k < run_len(s, pos) implies allowed_mnemonic(
            #[trigger] s[pos - k].mnemonic,
        ) by {
            if k > 0 {
                assert(0 <= k - 1 < run_len(s, pos - 1));
                assert(allowed_mnemonic(s[(pos - 1) - (k - 1)].mnemonic));
                assert(s[pos - k] == s[(pos - 1) - (k - 1)]);
            }
        }
    }
}

/// Every aliased gadget emitted while the walk for the return site at
/// `pos` covers indices `i` and below is well formed.
proof fn lemma_site_aliases_wf(s: Seq<Instruction>, pos: int, i: int)
    requires
        0 <= pos < s.len(),
        is_return(s[pos].mnemonic),
        i <= pos,
        forall|j: int| i < j <= pos ==> allowed_mnemonic(#[trigger] s[j].mnemonic),
    ensures
        forall|k: int|
            0 <= k < site_aliases(s, pos, i).len() ==> gadget_wf(
                #[trigger] site_aliases(s, pos, i)[k],
            ),
    decreases i + 1,
{
    if !(i < 0 || i >= s.len() || !allowed_mnemonic(s[i].mnemonic)) {
        lemma_site_aliases_wf(s, pos, i - 1);
        let al = site_aliases(s, pos, i);
        let rest = site_aliases(s, pos, i - 1);
        if s[i].mnemonic == Mnemonic::Pop && s[i].op0_register == Register::R15 {
            assert(i < pos);
            let g = alias_gadget(s, pos, i);
            assert(al == seq![g] + rest);
            assert(g.len() == pos - i + 1);
            assert(g[0] == s[pos]);
            assert forall|k: int| 0 <= k < g.len() implies allowed_mnemonic(
                #[trigger] g[k].mnemonic,
            ) by {
                if k < pos - i {
                    assert(g[k] == s[pos - k]);
                    assert(i < pos - k <= pos);
                }
            }
            assert(gadget_wf(g));
            assert forall|k: int| 0 <= k < al.len() implies gadget_wf(#[trigger] al[k]) by {
                if k == 0 {
                    assert(al[k] == g);
                } else {
                    assert(al[k] == rest[k - 1]);
                    assert(gadget_wf(rest[k - 1]));
                }
            }
        } else {
            assert(al == rest);
        }
    }
}

/// Every gadget a return site contributes is well formed: it has at least
/// two instructions, starts with the return, and stays in the allow-set.
proof fn lemma_site_gadgets_wf(s: Seq<Instruction>, pos: int)
    requires
        0 <= pos < s.len(),
        is_return(s[pos].mnemonic),
    ensures
        forall|k: int|
            0 <= k < site_gadgets(s, pos).len() ==> gadget_wf(#[trigger] site_gadgets(s, pos)[k]),
{
    lemma_site_aliases_wf(s, pos, pos);
    lemma_run_allowed(s, pos);
    let al = site_aliases(s, pos, pos);
    let sg = site_gadgets(s, pos);
    let n = al.len() as int;
    assert forall|k: int| 0 <= k < sg.len() implies gadget_wf(#[trigger] sg[k]) by {
        if k < n {
            assert(sg[k] == al[k]);
            assert(gadget_wf(al[k]));
        } else {
            let g = max_gadget(s, pos);
            assert(run_len(s, pos) >= 2);
            assert(sg[k] == g);
            assert(g[0] == s[pos]);
            assert forall|t: int| 0 <= t < g.len() implies allowed_mnemonic(
                #[trigger] g[t].mnemonic,
            ) by {
                assert(g[t] == s[pos - t]);
            }
        }
    }
}

/// Every gadget contributed by return sites at index `j` or later is well
/// formed.
proof fn lemma_scan_from_wf(s: Seq<Instruction>, j: int)
    ensures
        forall|k: int|
            0 <= k < scan_from(s, j).len() ==> gadget_wf(#[trigger] scan_from(s, j)[k]),
    decreases s.len() - j,
{
    if !(j < 0 || j >= s.len()) {
        lemma_scan_from_wf(s, j + 1);
        let sc = scan_from(s, j);
        let rest = scan_from(s, j + 1);
        if is_return(s[j].mnemonic) {
            lemma_site_gadgets_wf(s, j);
            let site = site_gadgets(s, j);
            assert(sc == site + rest);
            let n = site.len() as int;
            assert forall|k: int| 0 <= k < sc.len() implies gadget_wf(#[trigger] sc[k]) by {
                if k < n {
                    assert(sc[k] == site[k]);
                    assert(gadget_wf(site[k]));
                } else {
                    assert(sc[k] == rest[k - n]);
                    assert(gadget_wf(rest[k - n]));
                }
            }
        } else {
            assert(sc == Seq::<Seq<Instruction>>::empty() + rest);
            assert(sc =~= rest);
        }
    }
}

/// Every gadget the scanner emits contains only allow-set mnemonics, has
/// a return at index 0, and holds at least two instructions: a bare
/// return never enters the pool.
pub proof fn lemma_discovered_gadgets_wf(s: Seq<Instruction>)
    ensures
        pool_wf(spec_find_gadgets(s)),
{
    lemma_scan_from_wf(s, 0);
}

/// Scanning is a function of the instruction sequence alone: two pools
/// that both satisfy the scanner's contract for the same sequence hold
/// identical gadgets in identical order.
pub proof fn lemma_scan_deterministic(s: Seq<Instruction>, pool_a: Seq<Gadget>, pool_b: Seq<Gadget>)
    requires
        pool_view(pool_a) == spec_find_gadgets(s),
        pool_view(pool_b) == spec_find_gadgets(s),
    ensures
        pool_view(pool_a) == pool_view(pool_b),
{
}

/// A fresh vector holding the same instructions.
fn copy_instructions(v: &Vec<Instruction>) -> (r: Vec<Instruction>)
    ensures
        r@ == v@,
{
    let mut r: Vec<Instruction> = Vec::new();
    let mut j: usize = 0;
    while j < v.len()
        invariant
            j <= v.len(),
            r@ == v@.subrange(0, j as int),
        decreases v.len() - j,
    {
        r.push(v[j]);
        j += 1;
        proof {
            assert(r@ =~= v@.subrange(0, j as int));
        }
    }
    proof {
        assert(r@ =~= v@);
    }
    r
}

/// The gadgets contributed by the return site at `position`: the walk
/// backward from the return, emitting an aliased `pop rdi` gadget at each
/// `pop r15` it crosses, then the maximal gadget when it has at least two
/// instructions.
fn build_gadget(instructions: &Vec<Instruction>, position: usize) -> (res: Vec<Gadget>)
    requires
        position < instructions@.len(),
    ensures
        pool_view(res@) == site_gadgets(instructions@, position as int),
{
    let ghost s = instructions@;
    let ghost pos = position as int;
    let n = instructions.len();
    let mut res: Vec<Gadget> = Vec::new();
    let mut acc: Vec<Instruction> = Vec::new();
    let mut k: usize = 0;

    loop
        invariant_except_break
            s == instructions@,
            pos == position as int,
            n == instructions@.len(),
            position < n,
            k <= position + 1,
            forall|j: int| pos - k < j <= pos ==> allowed_mnemonic(#[trigger] s[j].mnemonic),
            acc@ == Seq::new(k as nat, |t: int| s[pos - t]),
            site_aliases(s, pos, pos) == pool_view(res@) + site_aliases(s, pos, pos - k),
        ensures
            pool_view(res@) == site_aliases(s, pos, pos),
            acc@ == max_gadget(s, pos),
            acc@.len() == run_len(s, pos),
        decreases position + 2 - k,
    {
        if k > position {
            proof {
                lemma_run_len_ends(s, pos, -1);
                assert(site_aliases(s, pos, pos - k) =~= Seq::<Seq<Instruction>>::empty());
                assert(pool_view(res@) =~= site_aliases(s, pos, pos));
                assert(acc@ =~= max_gadget(s, pos));
            }
            break;
        }
        let i = position - k;
        let insn = instructions[i];
        if insn.mnemonic == Mnemonic::Other {
            proof {
                lemma_run_len_ends(s, pos, i as int);
                assert(site_aliases(s, pos, i as int) =~= Seq::<Seq<Instruction>>::empty());
                assert(pool_view(res@) =~= site_aliases(s, pos, pos));
                assert(acc@ =~= max_gadget(s, pos));
            }
            break;
        }
        if insn.mnemonic == Mnemonic::Pop && insn.op0_register == Register::R15 {
            let mut rdi_instructions = copy_instructions(&acc);
            let alias_at = if insn.address == u64::MAX {
                0
            } else {
                insn.address + 1
            };
            rdi_instructions.push(Instruction::pop_reg(alias_at, Register::Rdi));
            proof {
                assert(rdi_instructions@ =~= alias_gadget(s, pos, i as int));
            }
            res.push(Gadget { instructions: rdi_instructions });
            proof {
                assert(site_aliases(s, pos, i as int) == seq![alias_gadget(s, pos, i as int)]
                    + site_aliases(s, pos, i - 1));
                assert(site_aliases(s, pos, pos) =~= pool_view(res@) + site_aliases(
                    s,
                    pos,
                    i - 1,
                ));
            }
        } else {
            proof {
                assert(site_aliases(s, pos, i as int) == site_aliases(s, pos, i - 1));
            }
        }
        acc.push(insn);
        k += 1;
        proof {
            assert(acc@ =~= Seq::new(k as nat, |t: int| s[pos - t]));
        }
    }

    if acc.len() > 1 {
        res.push(Gadget { instructions: acc });
        proof {
            assert(pool_view(res@) =~= site_gadgets(s, pos));
        }
    } else {
        proof {
            assert(pool_view(res@) =~= site_gadgets(s, pos));
        }
    }
    res
}

/// Scan a decoded instruction sequence and return every usable gadget,
/// in scan order. Discovery never fails: a sequence without gadgets
/// yields an empty pool, and a return site whose walk finds nothing is
/// silently skipped. Every returned gadget is well formed (allow-set
/// mnemonics only, return at index 0, length at least 2).
#[verifier::loop_isolation(false)]
pub fn find_gadgets(instructions: &Vec<Instruction>) -> (gadgets: Vec<Gadget>)
    ensures
        pool_view(gadgets@) == spec_find_gadgets(instructions@),
        pool_wf(pool_view(gadgets@)),
{
    let ghost s = instructions@;
    let mut gadgets: Vec<Gadget> = Vec::new();
    let mut j: usize = 0;

    while j < instructions.len()
        invariant
            j <= instructions@.len(),
            scan_from(s, 0) == pool_view(gadgets@) + scan_from(s, j as int),
        decreases instructions@.len() - j,
    {
        let insn = instructions[j];
        if insn.mnemonic == Mnemonic::Return || insn.mnemonic == Mnemonic::FarReturn {
            let mut site = build_gadget(instructions, j);
            let ghost before = gadgets@;
            let ghost site_snapshot = site@;
            gadgets.append(&mut site);
            proof {
                assert(gadgets@ == before + site_snapshot);
                assert(pool_view(gadgets@) =~= pool_view(before) + site_gadgets(s, j as int));
                assert(scan_from(s, j as int) == site_gadgets(s, j as int) + scan_from(
                    s,
                    j + 1,
                ));
                assert(scan_from(s, 0) =~= pool_view(gadgets@) + scan_from(s, j + 1));
            }
        } else {
            proof {
                assert(scan_from(s, j as int) == scan_from(s, j + 1));
            }
        }
        j += 1;
    }
    proof {
        assert(scan_from(s, j as int) =~= Seq::<Seq<Instruction>>::empty());
        assert(pool_view(gadgets@) =~= spec_find_gadgets(s));
        lemma_discovered_gadgets_wf(s);
    }
    gadgets
}

} // verus!
