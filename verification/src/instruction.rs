//! Decoded instructions as plain values, and what the exploration reads from
//! them: the control-flow class and the immediate branch target.

use vstd::prelude::*;

verus! {

/// Identifier of the group of jump instructions, as the decoding engine numbers it.
pub const GROUP_JUMP: u8 = 1;

/// Identifier of the group of call instructions, as the decoding engine numbers it.
pub const GROUP_CALL: u8 = 2;

/// One operand of an instruction, reduced to what the exploration reads.
#[derive(Clone, Copy, Debug, PartialEq, Eq, Structural)]
pub enum Operand {
    /// An immediate value, as encoded in the instruction.
    Immediate(i64),
    /// A register, a memory reference, or anything else.
    Other,
}

/// The details that the engine reports of one instruction.
#[derive(Clone, Debug)]
pub struct Detail {
    /// Identifiers of the groups that the instruction belongs to.
    pub groups: Vec<u8>,
    /// The operands, in encoding order.
    pub operands: Vec<Operand>,
}

/// One decoded instruction.
#[derive(Clone, Debug)]
pub struct DecodedInsn {
    /// Address of the first byte.
    pub address: u64,
    /// Number of bytes of the encoding.
    pub length: usize,
    /// Rendered form: mnemonic and operands.
    pub text: String,
    /// Groups and operands; `None` when the engine has no details.
    pub detail: Option<Detail>,
}

/// Mathematical model of [`Detail`].
pub struct DetailView {
    pub groups: Seq<u8>,
    pub operands: Seq<Operand>,
}

/// Mathematical model of [`DecodedInsn`].
pub struct InsnView {
    pub address: u64,
    pub length: usize,
    pub text: Seq<char>,
    pub detail: Option<DetailView>,
}

impl View for Detail {
    type V = DetailView;

    open spec fn view(&self) -> DetailView {
        DetailView { groups: self.groups@, operands: self.operands@ }
    }
}

impl View for DecodedInsn {
    type V = InsnView;

    open spec fn view(&self) -> InsnView {
        InsnView {
            address: self.address,
            length: self.length,
            text: self.text@,
            detail: match self.detail {
                Some(d) => Some(d@),
                None => None,
            },
        }
    }
}

/// The models of the instructions of a run, in order.
pub open spec fn run_view(run: Seq<DecodedInsn>) -> Seq<InsnView> {
    Seq::new(run.len(), |i: int| run[i]@)
}

/// True when the instructions of a run follow one another from `base`:
/// the first lies at `base`, and each of the others where the one before
/// it ends.
pub open spec fn contiguous(run: Seq<InsnView>, base: u64) -> bool {
    &&& run.len() > 0 ==> run[0].address == base
    &&& forall|i: int|
        0 <= i < run.len() - 1 ==> (#[trigger] run[i + 1]).address == run[i].address + run[i].length
}

/// No instruction of a run that follows on from `base` lies below `base`.
pub proof fn lemma_contiguous_from_base(run: Seq<InsnView>, base: u64, i: int)
    requires
        contiguous(run, base),
        0 <= i < run.len(),
    ensures
        base <= run[i].address,
    decreases i,
{
    if i > 0 {
        lemma_contiguous_from_base(run, base, i - 1);
        assert(run[i - 1 + 1].address == run[i - 1].address + run[i - 1].length);
    }
}

/// How an instruction takes part in control flow.
#[derive(Clone, Copy, Debug, PartialEq, Eq, Structural)]
pub enum ControlFlowClass {
    /// No details are known, or the instruction belongs to no group.
    Neither,
    /// The instruction belongs to the group of jumps.
    Jump,
    /// The instruction belongs to the group of calls, and not to that of jumps.
    Call,
    /// The instruction belongs to some group, but to neither of those two.
    Other,
}

/// The class of an instruction with the given details.
pub open spec fn class_of(detail: Option<DetailView>) -> ControlFlowClass {
    match detail {
        None => ControlFlowClass::Neither,
        Some(d) => if d.groups.contains(GROUP_JUMP) {
            ControlFlowClass::Jump
        } else if d.groups.contains(GROUP_CALL) {
            ControlFlowClass::Call
        } else if d.groups.len() > 0 {
            ControlFlowClass::Other
        } else {
            ControlFlowClass::Neither
        },
    }
}

/// True when `index` is the position of the first immediate among `operands`.
pub open spec fn is_first_immediate(operands: Seq<Operand>, index: int) -> bool {
    &&& 0 <= index < operands.len()
    &&& operands[index] is Immediate
    &&& forall|j: int| 0 <= j < index ==> !(#[trigger] operands[j] is Immediate)
}

/// The value of the first immediate among `operands`, read as an address.
pub open spec fn first_immediate(operands: Seq<Operand>) -> Option<u64> {
    if exists|i: int| is_first_immediate(operands, i) {
        let i = choose|i: int| is_first_immediate(operands, i);
        Some(operands[i]->Immediate_0 as u64)
    } else {
        None
    }
}

/// The address that a jump or a call names as its immediate operand.
pub open spec fn branch_target(insn: InsnView) -> Option<u64> {
    match class_of(insn.detail) {
        ControlFlowClass::Jump | ControlFlowClass::Call => first_immediate(insn.detail->Some_0.operands),
        _ => None,
    }
}

/// Two positions that are both the first immediate are the same position.
pub proof fn lemma_first_immediate_unique(operands: Seq<Operand>, i: int, j: int)
    requires
        is_first_immediate(operands, i),
        is_first_immediate(operands, j),
    ensures
        i == j,
{
    if i < j {
        assert(!(operands[i] is Immediate));
    } else if j < i {
        assert(!(operands[j] is Immediate));
    }
}

/// Whether `id` occurs among `groups`.
pub fn has_group(groups: &Vec<u8>, id: u8) -> (found: bool)
    ensures
        found == groups@.contains(id),
{
    let mut i: usize = 0;
    while i < groups.len()
        invariant
            i <= groups.len(),
            forall|j: int| 0 <= j < i ==> groups@[j] != id,
        decreases groups.len() - i,
    {
        if groups[i] == id {
            return true;
        }
        i += 1;
    }
    false
}

/// The value of the first immediate operand, cast to an address as the bits stand.
pub fn immediate_operand(operands: &Vec<Operand>) -> (found: Option<u64>)
    ensures
        found == first_immediate(operands@),
{
    let mut i: usize = 0;
    while i < operands.len()
        invariant
            i <= operands.len(),
            forall|j: int| 0 <= j < i ==> !(#[trigger] operands@[j] is Immediate),
        decreases operands.len() - i,
    {
        if let Operand::Immediate(value) = operands[i] {
            proof {
                assert(is_first_immediate(operands@, i as int));
                let k = choose|k: int| is_first_immediate(operands@, k);
                lemma_first_immediate_unique(operands@, i as int, k);
            }
            return Some(#[verifier::truncate] (value as u64));
        }
        i += 1;
    }
    proof {
        assert forall|k: int| !is_first_immediate(operands@, k) by {
            if is_first_immediate(operands@, k) {
                assert(!(operands@[k] is Immediate));
            }
        }
    }
    None
}

impl DecodedInsn {
    /// Address of the first byte of the instruction.
    pub fn address(&self) -> (a: u64)
        ensures
            a == self@.address,
    {
        self.address
    }

    /// Number of bytes that encode the instruction.
    pub fn encoded_length(&self) -> (n: usize)
        ensures
            n == self@.length,
    {
        self.length
    }

    /// The rendered form of the instruction.
    pub fn rendered_text(&self) -> (t: &String)
        ensures
            t@ == self@.text,
    {
        &self.text
    }

    /// Classifies the instruction as a jump, a call, or neither.
    pub fn control_flow_class(&self) -> (class: ControlFlowClass)
        ensures
            class == class_of(self@.detail),
    {
        match &self.detail {
            None => ControlFlowClass::Neither,
            Some(d) => {
                if has_group(&d.groups, GROUP_JUMP) {
                    ControlFlowClass::Jump
                } else if has_group(&d.groups, GROUP_CALL) {
                    ControlFlowClass::Call
                } else if d.groups.len() > 0 {
                    ControlFlowClass::Other
                } else {
                    ControlFlowClass::Neither
                }
            },
        }
    }

    /// The immediate target of a jump or a call; `None` for any other
    /// instruction, and for a jump or call without an immediate operand.
    pub fn insn_target(&self) -> (target: Option<u64>)
        ensures
            target == branch_target(self@),
    {
        match self.control_flow_class() {
            ControlFlowClass::Jump | ControlFlowClass::Call => match &self.detail {
                Some(d) => immediate_operand(&d.operands),
                None => None,
            },
            _ => None,
        }
    }
}

} // verus!
