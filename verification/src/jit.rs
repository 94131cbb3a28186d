//! Translation of the instruction sequence to x86-64 machine code.
//!
//! The generated function follows the System V AMD64 convention: on entry
//! `rdi` carries an opaque session handle, `rsi` the tape start and `rdx` the
//! tape end (one past the last cell). Inside the body `r12`/`r13`/`r14` hold
//! those three values, `rcx` is the live cell address and `r15` preserves it
//! across host callbacks. The function returns null in `rax` on success or a
//! host-provided error pointer. Pointer moves are checked against the tape
//! bounds and branch to a shared overflow tail that calls the host's
//! overflow routine; I/O instructions call the host's byte routines and
//! propagate a non-null return to the exit.
//!
//! The assembler itself is `iced_x86`'s `CodeAssembler`, reached through
//! trusted wrappers. Each wrapper records the instruction it adds in a
//! model sequence of `AsmOp` values and is accepted for the operand forms
//! used here; `assemble` is described by two unspecified functions of that
//! sequence and the base address, `assembles_ok` for whether it succeeds and
//! `machine_code_of` for the bytes. The verified translation therefore pins
//! down exactly which instruction stream is assembled, and succeeds exactly
//! when the assembler accepts that stream.

use vstd::prelude::*;

use crate::ir::{balanced, net, BrainfuckIR};

verus! {

/// A model of one assembler action: an appended x86-64 instruction or a
/// label bound to the next instruction. Registers appear as their hardware
/// encodings (rax 0, rcx 1, rdx 2, rsi 6, rdi 7, r12..r15 12..15); labels as
/// the numeric identity the assembler gave them.
pub enum AsmOp {
    PushReg(int),
    PopReg(int),
    Ret,
    MovRR(int, int),
    MovRImm(int, u64),
    AddCell(int, u8),
    SubCell(int, u8),
    CmpCellImm(int, u8),
    AddRImm(int, u32),
    SubRImm(int, u32),
    CmpRR(int, int),
    TestRR(int, int),
    XorRR(int, int),
    CallReg(int),
    Jc(int),
    Jb(int),
    Jnb(int),
    Jz(int),
    Jnz(int),
    Jmp(int),
    Bind(int),
}

#[verifier::external_type_specification]
#[verifier::external_body]
pub struct ExCodeAssembler(iced_x86::code_asm::CodeAssembler);

#[verifier::external_type_specification]
#[verifier::external_body]
pub struct ExCodeLabel(iced_x86::code_asm::CodeLabel);

#[verifier::external_type_specification]
#[verifier::external_body]
pub struct ExAsmRegister64(iced_x86::code_asm::AsmRegister64);

#[verifier::external_type_specification]
#[verifier::external_body]
pub struct ExIcedError(iced_x86::IcedError);

/// The sequence of actions recorded in an assembler so far.
pub uninterp spec fn asm_ops(a: iced_x86::code_asm::CodeAssembler) -> Seq<AsmOp>;

/// How many labels an assembler has created so far.
pub uninterp spec fn asm_label_count(a: iced_x86::code_asm::CodeAssembler) -> nat;

/// The numeric identity of a label.
pub uninterp spec fn label_id(l: iced_x86::code_asm::CodeLabel) -> int;

/// The hardware encoding of a 64-bit register operand.
pub uninterp spec fn reg_id(r: iced_x86::code_asm::AsmRegister64) -> int;

/// The bytes the assembler produces for a given action sequence at a given
/// base address.
pub uninterp spec fn machine_code_of(ops: Seq<AsmOp>, ip: u64) -> Seq<u8>;

/// Whether an assembler is in the state this module keeps every assembler
/// in: built for 64-bit code with the default options, with no instruction
/// prefix pending and no anonymous label in use.
pub uninterp spec fn asm_ready(a: iced_x86::code_asm::CodeAssembler) -> bool;

/// Whether a label value has been bound to an instruction position.
pub uninterp spec fn label_bound(l: iced_x86::code_asm::CodeLabel) -> bool;

/// Whether assembling the recorded action sequence at the given base address
/// succeeds.
pub uninterp spec fn assembles_ok(ops: Seq<AsmOp>, ip: u64) -> bool;

/// A failure while assembling the machine code.
#[derive(Debug)]
pub enum JitError {
    Assemble(iced_x86::IcedError),
}

/// Relies on iced_x86's register constant `rax`.
#[verifier::external_body]
fn reg_rax() -> (r: iced_x86::code_asm::AsmRegister64)
    ensures
        reg_id(r) == 0,
{
    iced_x86::code_asm::rax
}

/// Relies on iced_x86's register constant `rcx`.
#[verifier::external_body]
fn reg_rcx() -> (r: iced_x86::code_asm::AsmRegister64)
    ensures
        reg_id(r) == 1,
{
    iced_x86::code_asm::rcx
}

/// Relies on iced_x86's register constant `rdx`.
#[verifier::external_body]
fn reg_rdx() -> (r: iced_x86::code_asm::AsmRegister64)
    ensures
        reg_id(r) == 2,
{
    iced_x86::code_asm::rdx
}

/// Relies on iced_x86's register constant `rsi`.
#[verifier::external_body]
fn reg_rsi() -> (r: iced_x86::code_asm::AsmRegister64)
    ensures
        reg_id(r) == 6,
{
    iced_x86::code_asm::rsi
}

/// Relies on iced_x86's register constant `rdi`.
#[verifier::external_body]
fn reg_rdi() -> (r: iced_x86::code_asm::AsmRegister64)
    ensures
        reg_id(r) == 7,
{
    iced_x86::code_asm::rdi
}

/// Relies on iced_x86's register constant `r12`.
#[verifier::external_body]
fn reg_r12() -> (r: iced_x86::code_asm::AsmRegister64)
    ensures
        reg_id(r) == 12,
{
    iced_x86::code_asm::r12
}

/// Relies on iced_x86's register constant `r13`.
#[verifier::external_body]
fn reg_r13() -> (r: iced_x86::code_asm::AsmRegister64)
    ensures
        reg_id(r) == 13,
{
    iced_x86::code_asm::r13
}

/// Relies on iced_x86's register constant `r14`.
#[verifier::external_body]
fn reg_r14() -> (r: iced_x86::code_asm::AsmRegister64)
    ensures
        reg_id(r) == 14,
{
    iced_x86::code_asm::r14
}

/// Relies on iced_x86's register constant `r15`.
#[verifier::external_body]
fn reg_r15() -> (r: iced_x86::code_asm::AsmRegister64)
    ensures
        reg_id(r) == 15,
{
    iced_x86::code_asm::r15
}

/// Relies on CodeAssembler::new: a 64-bit assembler starts empty, and bitness
/// 64 is always accepted.
#[verifier::external_body]
fn asm_new() -> (res: Result<iced_x86::code_asm::CodeAssembler, iced_x86::IcedError>)
    ensures
        res is Ok,
        (res matches Ok(a) ==> asm_ops(a) == Seq::<AsmOp>::empty() && asm_label_count(a) == 0
            && asm_ready(a)),
{
    iced_x86::code_asm::CodeAssembler::new(64)
}

/// Relies on CodeAssembler::create_label: returns a fresh label with the next
/// identity and records nothing in the instruction stream.
#[verifier::external_body]
fn asm_create_label(a: &mut iced_x86::code_asm::CodeAssembler) -> (l:
    iced_x86::code_asm::CodeLabel)
    requires
        asm_label_count(*old(a)) < u64::MAX,
    ensures
        asm_ops(*final(a)) == asm_ops(*old(a)),
        asm_label_count(*final(a)) == asm_label_count(*old(a)) + 1,
        label_id(l) == asm_label_count(*old(a)) + 1,
        !label_bound(l),
        asm_ready(*final(a)) == asm_ready(*old(a)),
{
    a.create_label()
}

/// Relies on CodeAssembler::set_label: it succeeds exactly when the label was
/// made by create_label, is not yet bound, and no other bind is still waiting
/// for an instruction; on success the label is bound to the next instruction.
/// The label keeps its identity either way.
#[verifier::external_body]
fn asm_set_label(
    a: &mut iced_x86::code_asm::CodeAssembler,
    l: &mut iced_x86::code_asm::CodeLabel,
) -> (res: Result<(), iced_x86::IcedError>)
    ensures
        label_id(*final(l)) == label_id(*old(l)),
        asm_ready(*final(a)) == asm_ready(*old(a)),
        (asm_ready(*old(a)) ==> (res is Ok <==> (label_id(*old(l)) >= 1 && !label_bound(*old(l))
            && (asm_ops(*old(a)).len() == 0 || !(asm_ops(*old(a)).last() is Bind))))),
        (res is Ok ==> asm_ops(*final(a)) == asm_ops(*old(a)).push(AsmOp::Bind(label_id(*old(l))))
            && asm_label_count(*final(a)) == asm_label_count(*old(a)) && label_bound(*final(l))),
{
    a.set_label(l)
}

/// Relies on CodeAssembler::push with a 64-bit register operand.
#[verifier::external_body]
fn asm_push_reg(
    a: &mut iced_x86::code_asm::CodeAssembler,
    r: iced_x86::code_asm::AsmRegister64,
) -> (res: Result<(), iced_x86::IcedError>)
    ensures
        (res is Ok ==> asm_ops(*final(a)) == asm_ops(*old(a)).push(AsmOp::PushReg(reg_id(r)))
            && asm_label_count(*final(a)) == asm_label_count(*old(a))),
        (asm_ready(*old(a)) ==> res is Ok),
        (asm_ready(*old(a)) && res is Ok ==> asm_ready(*final(a))),
{
    a.push(r)
}

/// Relies on CodeAssembler::pop with a 64-bit register operand.
#[verifier::external_body]
fn asm_pop_reg(
    a: &mut iced_x86::code_asm::CodeAssembler,
    r: iced_x86::code_asm::AsmRegister64,
) -> (res: Result<(), iced_x86::IcedError>)
    ensures
        (res is Ok ==> asm_ops(*final(a)) == asm_ops(*old(a)).push(AsmOp::PopReg(reg_id(r)))
            && asm_label_count(*final(a)) == asm_label_count(*old(a))),
        (asm_ready(*old(a)) ==> res is Ok),
        (asm_ready(*old(a)) && res is Ok ==> asm_ready(*final(a))),
{
    a.pop(r)
}

/// Relies on CodeAssembler::ret.
#[verifier::external_body]
fn asm_ret(a: &mut iced_x86::code_asm::CodeAssembler) -> (res: Result<(), iced_x86::IcedError>)
    ensures
        (res is Ok ==> asm_ops(*final(a)) == asm_ops(*old(a)).push(AsmOp::Ret)
            && asm_label_count(*final(a)) == asm_label_count(*old(a))),
        (asm_ready(*old(a)) ==> res is Ok),
        (asm_ready(*old(a)) && res is Ok ==> asm_ready(*final(a))),
{
    a.ret()
}

/// Relies on CodeAssembler::mov with two 64-bit register operands.
#[verifier::external_body]
fn asm_mov_rr(
    a: &mut iced_x86::code_asm::CodeAssembler,
    dst: iced_x86::code_asm::AsmRegister64,
    src: iced_x86::code_asm::AsmRegister64,
) -> (res: Result<(), iced_x86::IcedError>)
    ensures
        (res is Ok ==> asm_ops(*final(a)) == asm_ops(*old(a)).push(
            AsmOp::MovRR(reg_id(dst), reg_id(src)),
        ) && asm_label_count(*final(a)) == asm_label_count(*old(a))),
        (asm_ready(*old(a)) ==> res is Ok),
        (asm_ready(*old(a)) && res is Ok ==> asm_ready(*final(a))),
{
    a.mov(dst, src)
}

/// Relies on CodeAssembler::mov with a 64-bit register and a u64 immediate.
#[verifier::external_body]
fn asm_mov_r_u64(
    a: &mut iced_x86::code_asm::CodeAssembler,
    dst: iced_x86::code_asm::AsmRegister64,
    imm: u64,
) -> (res: Result<(), iced_x86::IcedError>)
    ensures
        (res is Ok ==> asm_ops(*final(a)) == asm_ops(*old(a)).push(
            AsmOp::MovRImm(reg_id(dst), imm),
        ) && asm_label_count(*final(a)) == asm_label_count(*old(a))),
        (asm_ready(*old(a)) ==> res is Ok),
        (asm_ready(*old(a)) && res is Ok ==> asm_ready(*final(a))),
{
    a.mov(dst, imm)
}

/// Relies on CodeAssembler::add with a 64-bit register and a 32-bit
/// immediate; the payload is handed over bit-for-bit as the signed immediate.
#[verifier::external_body]
fn asm_add_r_u32(
    a: &mut iced_x86::code_asm::CodeAssembler,
    dst: iced_x86::code_asm::AsmRegister64,
    v: u32,
) -> (res: Result<(), iced_x86::IcedError>)
    ensures
        (res is Ok ==> asm_ops(*final(a)) == asm_ops(*old(a)).push(
            AsmOp::AddRImm(reg_id(dst), v),
        ) && asm_label_count(*final(a)) == asm_label_count(*old(a))),
        (asm_ready(*old(a)) ==> res is Ok),
        (asm_ready(*old(a)) && res is Ok ==> asm_ready(*final(a))),
{
    a.add(dst, v as i32)
}

/// Relies on CodeAssembler::sub with a 64-bit register and a 32-bit
/// immediate; the payload is handed over bit-for-bit as the signed immediate.
#[verifier::external_body]
fn asm_sub_r_u32(
    a: &mut iced_x86::code_asm::CodeAssembler,
    dst: iced_x86::code_asm::AsmRegister64,
    v: u32,
) -> (res: Result<(), iced_x86::IcedError>)
    ensures
        (res is Ok ==> asm_ops(*final(a)) == asm_ops(*old(a)).push(
            AsmOp::SubRImm(reg_id(dst), v),
        ) && asm_label_count(*final(a)) == asm_label_count(*old(a))),
        (asm_ready(*old(a)) ==> res is Ok),
        (asm_ready(*old(a)) && res is Ok ==> asm_ready(*final(a))),
{
    a.sub(dst, v as i32)
}

/// Relies on CodeAssembler::add with a byte memory operand `[reg]` and an
/// immediate.
#[verifier::external_body]
fn asm_add_byte_mem(
    a: &mut iced_x86::code_asm::CodeAssembler,
    addr: iced_x86::code_asm::AsmRegister64,
    v: u8,
) -> (res: Result<(), iced_x86::IcedError>)
    ensures
        (res is Ok ==> asm_ops(*final(a)) == asm_ops(*old(a)).push(
            AsmOp::AddCell(reg_id(addr), v),
        ) && asm_label_count(*final(a)) == asm_label_count(*old(a))),
        (asm_ready(*old(a)) ==> res is Ok),
        (asm_ready(*old(a)) && res is Ok ==> asm_ready(*final(a))),
{
    a.add(iced_x86::code_asm::byte_ptr(addr), v as i32)
}

/// Relies on CodeAssembler::sub with a byte memory operand `[reg]` and an
/// immediate.
#[verifier::external_body]
fn asm_sub_byte_mem(
    a: &mut iced_x86::code_asm::CodeAssembler,
    addr: iced_x86::code_asm::AsmRegister64,
    v: u8,
) -> (res: Result<(), iced_x86::IcedError>)
    ensures
        (res is Ok ==> asm_ops(*final(a)) == asm_ops(*old(a)).push(
            AsmOp::SubCell(reg_id(addr), v),
        ) && asm_label_count(*final(a)) == asm_label_count(*old(a))),
        (asm_ready(*old(a)) ==> res is Ok),
        (asm_ready(*old(a)) && res is Ok ==> asm_ready(*final(a))),
{
    a.sub(iced_x86::code_asm::byte_ptr(addr), v as i32)
}

/// Relies on CodeAssembler::cmp with a byte memory operand `[reg]` and an
/// immediate.
#[verifier::external_body]
fn asm_cmp_byte_mem(
    a: &mut iced_x86::code_asm::CodeAssembler,
    addr: iced_x86::code_asm::AsmRegister64,
    v: u8,
) -> (res: Result<(), iced_x86::IcedError>)
    ensures
        (res is Ok ==> asm_ops(*final(a)) == asm_ops(*old(a)).push(
            AsmOp::CmpCellImm(reg_id(addr), v),
        ) && asm_label_count(*final(a)) == asm_label_count(*old(a))),
        (asm_ready(*old(a)) ==> res is Ok),
        (asm_ready(*old(a)) && res is Ok ==> asm_ready(*final(a))),
{
    a.cmp(iced_x86::code_asm::byte_ptr(addr), v as i32)
}

/// Relies on CodeAssembler::cmp with two 64-bit register operands.
#[verifier::external_body]
fn asm_cmp_rr(
    a: &mut iced_x86::code_asm::CodeAssembler,
    x: iced_x86::code_asm::AsmRegister64,
    y: iced_x86::code_asm::AsmRegister64,
) -> (res: Result<(), iced_x86::IcedError>)
    ensures
        (res is Ok ==> asm_ops(*final(a)) == asm_ops(*old(a)).push(
            AsmOp::CmpRR(reg_id(x), reg_id(y)),
        ) && asm_label_count(*final(a)) == asm_label_count(*old(a))),
        (asm_ready(*old(a)) ==> res is Ok),
        (asm_ready(*old(a)) && res is Ok ==> asm_ready(*final(a))),
{
    a.cmp(x, y)
}

/// Relies on CodeAssembler::test with two 64-bit register operands.
#[verifier::external_body]
fn asm_test_rr(
    a: &mut iced_x86::code_asm::CodeAssembler,
    x: iced_x86::code_asm::AsmRegister64,
    y: iced_x86::code_asm::AsmRegister64,
) -> (res: Result<(), iced_x86::IcedError>)
    ensures
        (res is Ok ==> asm_ops(*final(a)) == asm_ops(*old(a)).push(
            AsmOp::TestRR(reg_id(x), reg_id(y)),
        ) && asm_label_count(*final(a)) == asm_label_count(*old(a))),
        (asm_ready(*old(a)) ==> res is Ok),
        (asm_ready(*old(a)) && res is Ok ==> asm_ready(*final(a))),
{
    a.test(x, y)
}

/// Relies on CodeAssembler::xor with two 64-bit register operands.
#[verifier::external_body]
fn asm_xor_rr(
    a: &mut iced_x86::code_asm::CodeAssembler,
    x: iced_x86::code_asm::AsmRegister64,
    y: iced_x86::code_asm::AsmRegister64,
) -> (res: Result<(), iced_x86::IcedError>)
    ensures
        (res is Ok ==> asm_ops(*final(a)) == asm_ops(*old(a)).push(
            AsmOp::XorRR(reg_id(x), reg_id(y)),
        ) && asm_label_count(*final(a)) == asm_label_count(*old(a))),
        (asm_ready(*old(a)) ==> res is Ok),
        (asm_ready(*old(a)) && res is Ok ==> asm_ready(*final(a))),
{
    a.xor(x, y)
}

/// Relies on CodeAssembler::call with a 64-bit register operand.
#[verifier::external_body]
fn asm_call_reg(
    a: &mut iced_x86::code_asm::CodeAssembler,
    r: iced_x86::code_asm::AsmRegister64,
) -> (res: Result<(), iced_x86::IcedError>)
    ensures
        (res is Ok ==> asm_ops(*final(a)) == asm_ops(*old(a)).push(AsmOp::CallReg(reg_id(r)))
            && asm_label_count(*final(a)) == asm_label_count(*old(a))),
        (asm_ready(*old(a)) ==> res is Ok),
        (asm_ready(*old(a)) && res is Ok ==> asm_ready(*final(a))),
{
    a.call(r)
}

/// Relies on CodeAssembler::jc.
#[verifier::external_body]
fn asm_jc(
    a: &mut iced_x86::code_asm::CodeAssembler,
    l: iced_x86::code_asm::CodeLabel,
) -> (res: Result<(), iced_x86::IcedError>)
    ensures
        (res is Ok ==> asm_ops(*final(a)) == asm_ops(*old(a)).push(AsmOp::Jc(label_id(l)))
            && asm_label_count(*final(a)) == asm_label_count(*old(a))),
        (asm_ready(*old(a)) && label_id(l) >= 1 ==> res is Ok),
        (asm_ready(*old(a)) && res is Ok ==> asm_ready(*final(a))),
{
    a.jc(l)
}

/// Relies on CodeAssembler::jb.
#[verifier::external_body]
fn asm_jb(
    a: &mut iced_x86::code_asm::CodeAssembler,
    l: iced_x86::code_asm::CodeLabel,
) -> (res: Result<(), iced_x86::IcedError>)
    ensures
        (res is Ok ==> asm_ops(*final(a)) == asm_ops(*old(a)).push(AsmOp::Jb(label_id(l)))
            && asm_label_count(*final(a)) == asm_label_count(*old(a))),
        (asm_ready(*old(a)) && label_id(l) >= 1 ==> res is Ok),
        (asm_ready(*old(a)) && res is Ok ==> asm_ready(*final(a))),
{
    a.jb(l)
}

/// Relies on CodeAssembler::jnb.
#[verifier::external_body]
fn asm_jnb(
    a: &mut iced_x86::code_asm::CodeAssembler,
    l: iced_x86::code_asm::CodeLabel,
) -> (res: Result<(), iced_x86::IcedError>)
    ensures
        (res is Ok ==> asm_ops(*final(a)) == asm_ops(*old(a)).push(AsmOp::Jnb(label_id(l)))
            && asm_label_count(*final(a)) == asm_label_count(*old(a))),
        (asm_ready(*old(a)) && label_id(l) >= 1 ==> res is Ok),
        (asm_ready(*old(a)) && res is Ok ==> asm_ready(*final(a))),
{
    a.jnb(l)
}

/// Relies on CodeAssembler::jz.
#[verifier::external_body]
fn asm_jz(
    a: &mut iced_x86::code_asm::CodeAssembler,
    l: iced_x86::code_asm::CodeLabel,
) -> (res: Result<(), iced_x86::IcedError>)
    ensures
        (res is Ok ==> asm_ops(*final(a)) == asm_ops(*old(a)).push(AsmOp::Jz(label_id(l)))
            && asm_label_count(*final(a)) == asm_label_count(*old(a))),
        (asm_ready(*old(a)) && label_id(l) >= 1 ==> res is Ok),
        (asm_ready(*old(a)) && res is Ok ==> asm_ready(*final(a))),
{
    a.jz(l)
}

/// Relies on CodeAssembler::jnz.
#[verifier::external_body]
fn asm_jnz(
    a: &mut iced_x86::code_asm::CodeAssembler,
    l: iced_x86::code_asm::CodeLabel,
) -> (res: Result<(), iced_x86::IcedError>)
    ensures
        (res is Ok ==> asm_ops(*final(a)) == asm_ops(*old(a)).push(AsmOp::Jnz(label_id(l)))
            && asm_label_count(*final(a)) == asm_label_count(*old(a))),
        (asm_ready(*old(a)) && label_id(l) >= 1 ==> res is Ok),
        (asm_ready(*old(a)) && res is Ok ==> asm_ready(*final(a))),
{
    a.jnz(l)
}

/// Relies on CodeAssembler::jmp.
#[verifier::external_body]
fn asm_jmp(
    a: &mut iced_x86::code_asm::CodeAssembler,
    l: iced_x86::code_asm::CodeLabel,
) -> (res: Result<(), iced_x86::IcedError>)
    ensures
        (res is Ok ==> asm_ops(*final(a)) == asm_ops(*old(a)).push(AsmOp::Jmp(label_id(l)))
            && asm_label_count(*final(a)) == asm_label_count(*old(a))),
        (asm_ready(*old(a)) && label_id(l) >= 1 ==> res is Ok),
        (asm_ready(*old(a)) && res is Ok ==> asm_ready(*final(a))),
{
    a.jmp(l)
}

/// Relies on CodeAssembler::assemble: encodes the recorded instruction
/// stream at the given base address; whether it succeeds, and the bytes it
/// produces, are functions of that stream and the address alone.
#[verifier::external_body]
fn asm_assemble(a: &mut iced_x86::code_asm::CodeAssembler, ip: u64) -> (res: Result<
    Vec<u8>,
    iced_x86::IcedError,
>)
    ensures
        (asm_ready(*old(a)) ==> (res is Ok <==> assembles_ok(asm_ops(*old(a)), ip))),
        (asm_ready(*old(a)) ==> (res matches Ok(bytes) ==> bytes@ == machine_code_of(
            asm_ops(*old(a)),
            ip,
        ))),
{
    a.assemble(ip)
}

/// The prologue: preserve stack alignment with one pushed qword, park the
/// session handle in r12 and the tape bounds in r13/r14, and start the cell
/// pointer rcx at the tape start.
pub open spec fn prologue_ops() -> Seq<AsmOp> {
    seq![
        AsmOp::PushReg(0),
        AsmOp::MovRR(12, 7),
        AsmOp::MovRR(13, 6),
        AsmOp::MovRR(14, 2),
        AsmOp::MovRR(1, 6),
    ]
}

/// The calling sequence of a host byte routine at `addr`: preserve rcx in
/// r15, pass the handle and the cell address, call through rax, branch to the
/// exit label (identity 2) on a non-null return, restore rcx.
pub open spec fn io_ops(addr: u64) -> Seq<AsmOp> {
    seq![
        AsmOp::MovRR(15, 1),
        AsmOp::MovRR(7, 12),
        AsmOp::MovRR(6, 1),
        AsmOp::MovRImm(0, addr),
        AsmOp::CallReg(0),
        AsmOp::TestRR(0, 0),
        AsmOp::Jnz(2),
        AsmOp::MovRR(1, 15),
    ]
}

/// The actions emitted for one instruction, given the number of labels
/// created so far and the stack of open bracket label pairs (body label,
/// end label). The overflow label has identity 1 and the exit label 2.
pub open spec fn instr_ops(
    x: BrainfuckIR,
    counter: int,
    stk: Seq<(int, int)>,
    get_addr: u64,
    put_addr: u64,
) -> Seq<AsmOp> {
    match x {
        BrainfuckIR::AddVal(v) => seq![AsmOp::AddCell(1, v)],
        BrainfuckIR::SubVal(v) => seq![AsmOp::SubCell(1, v)],
        BrainfuckIR::AddPtr(v) => seq![
            AsmOp::AddRImm(1, v),
            AsmOp::Jc(1),
            AsmOp::CmpRR(1, 14),
            AsmOp::Jnb(1),
        ],
        BrainfuckIR::SubPtr(v) => seq![
            AsmOp::SubRImm(1, v),
            AsmOp::Jc(1),
            AsmOp::CmpRR(1, 13),
            AsmOp::Jb(1),
        ],
        BrainfuckIR::PutByte => io_ops(put_addr),
        BrainfuckIR::GetByte => io_ops(get_addr),
        BrainfuckIR::Jz => seq![
            AsmOp::CmpCellImm(1, 0),
            AsmOp::Jz(counter + 2),
            AsmOp::Bind(counter + 1),
        ],
        BrainfuckIR::Jnz => if stk.len() > 0 {
            seq![
                AsmOp::CmpCellImm(1, 0),
                AsmOp::Jnz(stk.last().0),
                AsmOp::Bind(stk.last().1),
            ]
        } else {
            Seq::empty()
        },
    }
}

/// The emission state after translating the first `i` instructions: the
/// actions recorded so far, the number of labels created, and the stack of
/// open bracket label pairs.
pub open spec fn emit_state(ir: Seq<BrainfuckIR>, i: int, get_addr: u64, put_addr: u64) -> (
    Seq<AsmOp>,
    int,
    Seq<(int, int)>,
)
    decreases i,
{
    if i <= 0 {
        (prologue_ops(), 2, Seq::empty())
    } else {
        let prev = emit_state(ir, i - 1, get_addr, put_addr);
        let x = ir[i - 1];
        let ops2 = prev.0 + instr_ops(x, prev.1, prev.2, get_addr, put_addr);
        let c2 = if x is Jz {
            prev.1 + 2
        } else {
            prev.1
        };
        let stk2 = if x is Jz {
            prev.2.push((prev.1 + 1, prev.1 + 2))
        } else if x is Jnz {
            if prev.2.len() > 0 {
                prev.2.drop_last()
            } else {
                prev.2
            }
        } else {
            prev.2
        };
        (ops2, c2, stk2)
    }
}

/// The tail: null rax and jump to exit on normal completion; the shared
/// overflow path calls the host overflow routine; the exit restores the
/// saved qword and returns.
pub open spec fn tail_ops(overflow_addr: u64) -> Seq<AsmOp> {
    seq![
        AsmOp::XorRR(0, 0),
        AsmOp::Jmp(2),
        AsmOp::Bind(1),
        AsmOp::MovRImm(0, overflow_addr),
        AsmOp::CallReg(0),
        AsmOp::Bind(2),
        AsmOp::PopReg(2),
        AsmOp::Ret,
    ]
}

/// The complete action sequence for a program: prologue, one group per
/// instruction, tail.
pub open spec fn jit_ops(
    ir: Seq<BrainfuckIR>,
    get_addr: u64,
    put_addr: u64,
    overflow_addr: u64,
) -> Seq<AsmOp> {
    emit_state(ir, ir.len() as int, get_addr, put_addr).0 + tail_ops(overflow_addr)
}

/// Translates a balanced instruction sequence to x86-64 machine code.
///
/// `get_byte_addr`, `put_byte_addr` and `overflow_addr` are the absolute
/// addresses of the three host routines the generated code calls. Every
/// assembler action is accepted for the operand forms used here, so the
/// translation succeeds exactly when the assembler accepts the finished
/// action sequence (`assembles_ok`), and the returned bytes are then exactly
/// its assembly at base address 0x1000_0000. A final-assembly failure is
/// passed through as `JitError::Assemble`.
pub fn emit_code(
    code: &Vec<BrainfuckIR>,
    get_byte_addr: u64,
    put_byte_addr: u64,
    overflow_addr: u64,
) -> (r: Result<Vec<u8>, JitError>)
    requires
        balanced(code@),
        code@.len() < 0x1000_0000_0000_0000,
    ensures
        r is Ok <==> assembles_ok(
            jit_ops(code@, get_byte_addr, put_byte_addr, overflow_addr),
            0x1000_0000,
        ),
        (match r {
            Ok(bytes) => bytes@ == machine_code_of(
                jit_ops(code@, get_byte_addr, put_byte_addr, overflow_addr),
                0x1000_0000,
            ),
            Err(_) => true,
        }),
{
    let ghost cs = code@;
    let rax = reg_rax();
    let rcx = reg_rcx();
    let rdx = reg_rdx();
    let rsi = reg_rsi();
    let rdi = reg_rdi();
    let r12 = reg_r12();
    let r13 = reg_r13();
    let r14 = reg_r14();
    let r15 = reg_r15();

    let mut a = match asm_new() {
        Ok(a) => a,
        Err(e) => {
            return Err(JitError::Assemble(e));
        },
    };
    let mut overflow = asm_create_label(&mut a);
    let mut exit = asm_create_label(&mut a);

    if let Err(e) = asm_push_reg(&mut a, rax) {
        return Err(JitError::Assemble(e));
    }
    if let Err(e) = asm_mov_rr(&mut a, r12, rdi) {
        return Err(JitError::Assemble(e));
    }
    if let Err(e) = asm_mov_rr(&mut a, r13, rsi) {
        return Err(JitError::Assemble(e));
    }
    if let Err(e) = asm_mov_rr(&mut a, r14, rdx) {
        return Err(JitError::Assemble(e));
    }
    if let Err(e) = asm_mov_rr(&mut a, rcx, rsi) {
        return Err(JitError::Assemble(e));
    }
    proof {
        assert(asm_ops(a) =~= prologue_ops());
    }

    let mut stack: Vec<(iced_x86::code_asm::CodeLabel, iced_x86::code_asm::CodeLabel)> =
        Vec::new();
    let mut i: usize = 0;
    while i < code.len()
        invariant
            cs == code@,
            i <= cs.len(),
            balanced(cs),
            cs.len() < 0x1000_0000_0000_0000,
            label_id(overflow) == 1,
            label_id(exit) == 2,
            asm_ready(a),
            !label_bound(overflow),
            !label_bound(exit),
            forall|q: int| 0 <= q < stack@.len() ==> !(#[trigger] label_bound(stack@[q].1)),
            forall|q: int| 0 <= q < stack@.len() ==> label_id(#[trigger] stack@[q].0) >= 1,
            forall|q: int| 0 <= q < stack@.len() ==> label_id(#[trigger] stack@[q].1) >= 1,
            reg_id(rax) == 0,
            reg_id(rcx) == 1,
            reg_id(rdx) == 2,
            reg_id(rsi) == 6,
            reg_id(rdi) == 7,
            reg_id(r12) == 12,
            reg_id(r13) == 13,
            reg_id(r14) == 14,
            reg_id(r15) == 15,
            asm_ops(a) == emit_state(cs, i as int, get_byte_addr, put_byte_addr).0,
            asm_label_count(a) as int == emit_state(cs, i as int, get_byte_addr, put_byte_addr).1,
            emit_state(cs, i as int, get_byte_addr, put_byte_addr).1 <= 2 + 2 * (i as int),
            stack@.len() == emit_state(cs, i as int, get_byte_addr, put_byte_addr).2.len(),
            forall|q: int|
                0 <= q < stack@.len() ==> label_id(#[trigger] stack@[q].0) == emit_state(
                    cs,
                    i as int,
                    get_byte_addr,
                    put_byte_addr,
                ).2[q].0,
            forall|q: int|
                0 <= q < stack@.len() ==> label_id(#[trigger] stack@[q].1) == emit_state(
                    cs,
                    i as int,
                    get_byte_addr,
                    put_byte_addr,
                ).2[q].1,
            net(cs, 0, i as int) == emit_state(cs, i as int, get_byte_addr, put_byte_addr).2.len(),
        decreases cs.len() - i,
    {
        let ghost es = emit_state(cs, i as int, get_byte_addr, put_byte_addr);
        let ghost sk0 = stack@;
        let instr = code[i];
        match instr {
            BrainfuckIR::AddVal(v) => {
                if let Err(e) = asm_add_byte_mem(&mut a, rcx, v) {
                    return Err(JitError::Assemble(e));
                }
            },
            BrainfuckIR::SubVal(v) => {
                if let Err(e) = asm_sub_byte_mem(&mut a, rcx, v) {
                    return Err(JitError::Assemble(e));
                }
            },
            BrainfuckIR::AddPtr(v) => {
                if let Err(e) = asm_add_r_u32(&mut a, rcx, v) {
                    return Err(JitError::Assemble(e));
                }
                if let Err(e) = asm_jc(&mut a, overflow) {
                    return Err(JitError::Assemble(e));
                }
                if let Err(e) = asm_cmp_rr(&mut a, rcx, r14) {
                    return Err(JitError::Assemble(e));
                }
                if let Err(e) = asm_jnb(&mut a, overflow) {
                    return Err(JitError::Assemble(e));
                }
            },
            BrainfuckIR::SubPtr(v) => {
                if let Err(e) = asm_sub_r_u32(&mut a, rcx, v) {
                    return Err(JitError::Assemble(e));
                }
                if let Err(e) = asm_jc(&mut a, overflow) {
                    return Err(JitError::Assemble(e));
                }
                if let Err(e) = asm_cmp_rr(&mut a, rcx, r13) {
                    return Err(JitError::Assemble(e));
                }
                if let Err(e) = asm_jb(&mut a, overflow) {
                    return Err(JitError::Assemble(e));
                }
            },
            BrainfuckIR::PutByte => {
                if let Err(e) = emit_io_call(&mut a, rax, rcx, rsi, rdi, r12, r15, exit,
                    put_byte_addr) {
                    return Err(JitError::Assemble(e));
                }
            },
            BrainfuckIR::GetByte => {
                if let Err(e) = emit_io_call(&mut a, rax, rcx, rsi, rdi, r12, r15, exit,
                    get_byte_addr) {
                    return Err(JitError::Assemble(e));
                }
            },
            BrainfuckIR::Jz => {
                let mut left = asm_create_label(&mut a);
                let right = asm_create_label(&mut a);
                stack.push((left, right));
                proof {
                    assert(label_id(stack@[stack@.len() - 1].0) == es.1 + 1);
                    assert(label_id(stack@[stack@.len() - 1].1) == es.1 + 2);
                    assert(!label_bound(stack@[stack@.len() - 1].1));
                    assert(forall|q: int| 0 <= q < stack@.len() - 1 ==> stack@[q] == sk0[q]);
                }
                if let Err(e) = asm_cmp_byte_mem(&mut a, rcx, 0) {
                    return Err(JitError::Assemble(e));
                }
                if let Err(e) = asm_jz(&mut a, right) {
                    return Err(JitError::Assemble(e));
                }
                proof {
                    assert(!(asm_ops(a).last() is Bind));
                }
                if let Err(e) = asm_set_label(&mut a, &mut left) {
                    return Err(JitError::Assemble(e));
                }
            },
            BrainfuckIR::Jnz => {
                match stack.pop() {
                    Some(pair) => {
                        let left = pair.0;
                        let mut right = pair.1;
                        proof {
                            assert(stack@ == sk0.drop_last());
                            assert(forall|q: int| 0 <= q < stack@.len() ==> stack@[q] == sk0[q]);
                            assert(label_id(pair.0) == es.2.last().0);
                            assert(label_id(pair.1) == es.2.last().1);
                            assert(label_id(sk0[sk0.len() - 1].0) >= 1);
                            assert(label_id(sk0[sk0.len() - 1].1) >= 1);
                            assert(!label_bound(sk0[sk0.len() - 1].1));
                        }
                        if let Err(e) = asm_cmp_byte_mem(&mut a, rcx, 0) {
                            return Err(JitError::Assemble(e));
                        }
                        if let Err(e) = asm_jnz(&mut a, left) {
                            return Err(JitError::Assemble(e));
                        }
                        proof {
                            assert(!(asm_ops(a).last() is Bind));
                        }
                        if let Err(e) = asm_set_label(&mut a, &mut right) {
                            return Err(JitError::Assemble(e));
                        }
                    },
                    None => {
                        proof {
                            assert(net(cs, 0, (i + 1) as int) == net(cs, 0, i as int)
                                + crate::ir::delta(cs[i as int]));
                            assert(net(cs, 0, (i + 1) as int) >= 0);
                            assert(false);
                        }
                    },
                }
            },
        }
        proof {
            let es2 = emit_state(cs, (i + 1) as int, get_byte_addr, put_byte_addr);
            assert(es2.0 == es.0 + instr_ops(cs[i as int], es.1, es.2, get_byte_addr,
                put_byte_addr));
            assert(asm_ops(a) =~= es2.0);
            assert(net(cs, 0, (i + 1) as int) == net(cs, 0, i as int) + crate::ir::delta(
                cs[i as int],
            ));
            assert forall|q: int|
                0 <= q < stack@.len() implies label_id(#[trigger] stack@[q].0) == es2.2[q].0 by {
                if cs[i as int] is Jz {
                    if q < stack@.len() - 1 {
                        assert(stack@[q] == sk0[q]);
                        assert(es2.2[q] == es.2[q]);
                    } else {
                        assert(es2.2[q] == (es.1 + 1, es.1 + 2));
                    }
                } else if cs[i as int] is Jnz {
                    assert(stack@[q] == sk0[q]);
                    assert(es2.2[q] == es.2[q]);
                } else {
                    assert(stack@[q] == sk0[q]);
                    assert(es2.2[q] == es.2[q]);
                }
            }
            assert forall|q: int|
                0 <= q < stack@.len() implies !(#[trigger] label_bound(stack@[q].1)) by {
                if cs[i as int] is Jz {
                    if q < stack@.len() - 1 {
                        assert(stack@[q] == sk0[q]);
                    }
                } else {
                    assert(stack@[q] == sk0[q]);
                }
            }
            assert forall|q: int|
                0 <= q < stack@.len() implies label_id(#[trigger] stack@[q].0) >= 1 by {
                if cs[i as int] is Jz {
                    if q < stack@.len() - 1 {
                        assert(stack@[q] == sk0[q]);
                    }
                } else {
                    assert(stack@[q] == sk0[q]);
                }
            }
            assert forall|q: int|
                0 <= q < stack@.len() implies label_id(#[trigger] stack@[q].1) >= 1 by {
                if cs[i as int] is Jz {
                    if q < stack@.len() - 1 {
                        assert(stack@[q] == sk0[q]);
                    }
                } else {
                    assert(stack@[q] == sk0[q]);
                }
            }
            assert forall|q: int|
                0 <= q < stack@.len() implies label_id(#[trigger] stack@[q].1) == es2.2[q].1 by {
                if cs[i as int] is Jz {
                    if q < stack@.len() - 1 {
                        assert(stack@[q] == sk0[q]);
                        assert(es2.2[q] == es.2[q]);
                    } else {
                        assert(es2.2[q] == (es.1 + 1, es.1 + 2));
                    }
                } else if cs[i as int] is Jnz {
                    assert(stack@[q] == sk0[q]);
                    assert(es2.2[q] == es.2[q]);
                } else {
                    assert(stack@[q] == sk0[q]);
                    assert(es2.2[q] == es.2[q]);
                }
            }
        }
        i = i + 1;
    }

    if let Err(e) = asm_xor_rr(&mut a, rax, rax) {
        return Err(JitError::Assemble(e));
    }
    if let Err(e) = asm_jmp(&mut a, exit) {
        return Err(JitError::Assemble(e));
    }
    proof {
        assert(!(asm_ops(a).last() is Bind));
    }
    if let Err(e) = asm_set_label(&mut a, &mut overflow) {
        return Err(JitError::Assemble(e));
    }
    if let Err(e) = asm_mov_r_u64(&mut a, rax, overflow_addr) {
        return Err(JitError::Assemble(e));
    }
    if let Err(e) = asm_call_reg(&mut a, rax) {
        return Err(JitError::Assemble(e));
    }
    proof {
        assert(!(asm_ops(a).last() is Bind));
    }
    if let Err(e) = asm_set_label(&mut a, &mut exit) {
        return Err(JitError::Assemble(e));
    }
    if let Err(e) = asm_pop_reg(&mut a, rdx) {
        return Err(JitError::Assemble(e));
    }
    if let Err(e) = asm_ret(&mut a) {
        return Err(JitError::Assemble(e));
    }
    proof {
        assert(asm_ops(a) =~= jit_ops(cs, get_byte_addr, put_byte_addr, overflow_addr));
    }
    match asm_assemble(&mut a, 0x1000_0000) {
        Ok(bytes) => Ok(bytes),
        Err(e) => Err(JitError::Assemble(e)),
    }
}

/// Emits the shared calling sequence of a host byte routine at `addr`.
fn emit_io_call(
    a: &mut iced_x86::code_asm::CodeAssembler,
    rax: iced_x86::code_asm::AsmRegister64,
    rcx: iced_x86::code_asm::AsmRegister64,
    rsi: iced_x86::code_asm::AsmRegister64,
    rdi: iced_x86::code_asm::AsmRegister64,
    r12: iced_x86::code_asm::AsmRegister64,
    r15: iced_x86::code_asm::AsmRegister64,
    exit: iced_x86::code_asm::CodeLabel,
    addr: u64,
) -> (res: Result<(), iced_x86::IcedError>)
    requires
        reg_id(rax) == 0,
        reg_id(rcx) == 1,
        reg_id(rsi) == 6,
        reg_id(rdi) == 7,
        reg_id(r12) == 12,
        reg_id(r15) == 15,
        label_id(exit) == 2,
    ensures
        (res is Ok ==> asm_ops(*final(a)) == asm_ops(*old(a)) + io_ops(addr)
            && asm_label_count(*final(a)) == asm_label_count(*old(a))),
        (asm_ready(*old(a)) ==> res is Ok),
        (asm_ready(*old(a)) && res is Ok ==> asm_ready(*final(a))),
{
    if let Err(e) = asm_mov_rr(a, r15, rcx) {
        return Err(e);
    }
    if let Err(e) = asm_mov_rr(a, rdi, r12) {
        return Err(e);
    }
    if let Err(e) = asm_mov_rr(a, rsi, rcx) {
        return Err(e);
    }
    if let Err(e) = asm_mov_r_u64(a, rax, addr) {
        return Err(e);
    }
    if let Err(e) = asm_call_reg(a, rax) {
        return Err(e);
    }
    if let Err(e) = asm_test_rr(a, rax, rax) {
        return Err(e);
    }
    if let Err(e) = asm_jnz(a, exit) {
        return Err(e);
    }
    if let Err(e) = asm_mov_rr(a, rcx, r15) {
        return Err(e);
    }
    proof {
        assert(asm_ops(*a) =~= asm_ops(*old(a)) + io_ops(addr));
    }
    Ok(())
}

} // verus!
