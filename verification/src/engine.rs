//! The decoding engine: the calls into `capstone`, each with the contract
//! that the rest of the library relies on. Nothing here is proved; every
//! item says what it takes on trust.

use capstone::arch::x86::ArchMode;
use capstone::arch::x86::X86OperandType;
use capstone::arch::ArchOperand;
use capstone::arch::BuildsCapstone;
use capstone::Capstone;
use capstone::Insn;
use capstone::Instructions;
use vstd::prelude::*;

use crate::instruction::contiguous;
use crate::instruction::Detail;
use crate::instruction::InsnView;
use crate::instruction::Operand;

verus! {

/// `capstone::Capstone`, a handle to one decoding engine. Opaque.
#[verifier::external_type_specification]
#[verifier::external_body]
pub struct ExCapstone(Capstone);

/// `capstone::Instructions`, the instructions of one decoded run. Opaque;
/// [`held`] names what it holds.
#[verifier::external_type_specification]
#[verifier::external_body]
pub struct ExInstructions<'a>(Instructions<'a>);

/// `capstone::Insn`, one element of `capstone::Instructions`. Opaque; it is
/// declared because `Instructions` dereferences to a slice of it.
#[verifier::external_type_specification]
#[verifier::external_body]
pub struct ExInsn<'a>(Insn<'a>);

/// The run that `Capstone::disasm_all` decodes from `code` when the first
/// byte is taken to lie at `base`, for an engine made by [`x86_64_engine`]:
/// the instructions in the order of their addresses, each with its
/// address, the length of its encoding, its rendered form, and the groups
/// and operands that `Capstone::insn_detail` reports of it. The library
/// makes no other engine, and sets no option of the one it makes.
pub uninterp spec fn decoded(code: Seq<u8>, base: u64) -> Seq<InsnView>;

/// The instructions that a value of `capstone::Instructions` holds, in order.
pub uninterp spec fn held(insns: Instructions<'_>) -> Seq<InsnView>;

/// Calls capstone's builder (`Capstone::new`, then `x86`, `mode`, `detail`
/// and `build`) for the x86 architecture in 64-bit mode with instruction
/// details switched on. Nothing is claimed of the outcome: `None` stands
/// for any error of the builder.
#[verifier::external_body]
pub(crate) fn x86_64_engine() -> (engine: Option<Capstone>) {
    Capstone::new().x86().mode(ArchMode::Mode64).detail(true).build().ok()
}

/// Calls `Capstone::disasm_all`, which decodes instruction after
/// instruction until the bytes end or fail to decode. Bytes that decode to
/// nothing are no error: they give an empty run. The contract claims that
/// the instructions that come back depend on `code` and `base` alone, so
/// that [`decoded`] can name them, and that they follow one another from
/// `base`: the engine gives the first the address `base` and each other
/// the address of the one before plus its size. The addresses are 64-bit
/// numbers that the engine lets wrap round, so the bytes may not reach
/// beyond the last address. `None` stands for an error of the engine, of
/// which nothing is claimed.
#[verifier::external_body]
pub(crate) fn disasm_all<'a>(engine: &'a Capstone, code: &[u8], base: u64) -> (run: Option<
    Instructions<'a>,
>)
    requires
        base + code@.len() <= u64::MAX,
    ensures
        run matches Some(insns) ==> held(insns) == decoded(code@, base),
        run matches Some(insns) ==> contiguous(held(insns), base),
{
    engine.disasm_all(code, base).ok()
}

/// The length of the slice that `capstone::Instructions` dereferences to:
/// the number of instructions it holds.
#[verifier::external_body]
pub(crate) fn insn_count(insns: &Instructions) -> (count: usize)
    ensures
        count == held(*insns).len(),
{
    insns.len()
}

/// Calls `Insn::address` on the instruction at `index`. The index has to
/// lie in the slice, as indexing stops the process otherwise.
#[verifier::external_body]
pub(crate) fn insn_address(insns: &Instructions, index: usize) -> (address: u64)
    requires
        index < held(*insns).len(),
    ensures
        address == held(*insns)[index as int].address,
{
    insns[index].address()
}

/// Calls `Insn::len` on the instruction at `index`: the number of bytes of
/// its encoding.
#[verifier::external_body]
pub(crate) fn insn_length(insns: &Instructions, index: usize) -> (length: usize)
    requires
        index < held(*insns).len(),
    ensures
        length == held(*insns)[index as int].length,
{
    insns[index].len()
}

/// Renders the instruction at `index` through its `Display` impl: the
/// address in hexadecimal, a colon, the mnemonic and the operands.
#[verifier::external_body]
pub(crate) fn insn_text(insns: &Instructions, index: usize) -> (text: String)
    requires
        index < held(*insns).len(),
    ensures
        text@ == held(*insns)[index as int].text,
{
    insns[index].to_string()
}

/// Calls `Capstone::insn_detail` on the instruction at `index` and copies
/// out of the answer the group identifiers (`InsnDetail::groups`) and the
/// operands (`ArchDetail::operands`), of which an x86 immediate keeps its
/// value and any other is [`Operand::Other`]. An error of the call gives
/// `None`, which is then what [`held`] says of the details.
#[verifier::external_body]
pub(crate) fn insn_detail(engine: &Capstone, insns: &Instructions, index: usize) -> (detail: Option<
    Detail,
>)
    requires
        index < held(*insns).len(),
    ensures
        detail is Some == held(*insns)[index as int].detail is Some,
        detail matches Some(d) ==> d@ == held(*insns)[index as int].detail->Some_0,
{
    let detail = engine.insn_detail(&insns[index]).ok()?;
    let groups = detail.groups().iter().map(|g| g.0).collect();
    let kind = |op: ArchOperand| match op {
        ArchOperand::X86Operand(x) => match x.op_type {
            X86OperandType::Imm(value) => Operand::Immediate(value),
            _ => Operand::Other,
        },
        _ => Operand::Other,
    };
    let operands = detail.arch_detail().operands().into_iter().map(kind).collect();
    Some(Detail { groups, operands })
}

} // verus!
