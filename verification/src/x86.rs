//! x86-64 instruction decoding, reduced to the plain facts the scans read.
//!
//! Every fact comes from `iced-x86` decoding one instruction at the front of a
//! byte string in 64-bit mode at a given instruction pointer. Each fact is a
//! function of those bytes and that pointer alone, so each is named below and
//! the wrappers that read it say that they return exactly that name.
use iced_x86::{Decoder, DecoderOptions, InstructionInfoFactory, Mnemonic, OpAccess, OpKind, Register};
use vstd::prelude::*;

verus! {

/// The mnemonics the scans distinguish.
#[derive(Debug, Clone, Copy, PartialEq, Eq, Structural)]
pub enum InsnClass {
    Lea,
    Mov,
    Push,
    Pop,
    Call,
    Other,
}

/// The operand kinds the scans distinguish.
#[derive(Debug, Clone, Copy, PartialEq, Eq, Structural)]
pub enum OperandKind {
    Register,
    NearBranch16,
    NearBranch32,
    NearBranch64,
    Memory,
    Immediate8,
    Immediate16,
    Immediate32,
    Immediate64,
    Immediate8to16,
    Immediate8to32,
    Immediate8to64,
    Immediate32to64,
    Other,
}

/// A direct near branch target, of any width.
pub open spec fn is_near_branch_kind(k: OperandKind) -> bool {
    k == OperandKind::NearBranch16 || k == OperandKind::NearBranch32 || k == OperandKind::NearBranch64
}

/// How an instruction uses a register.
#[derive(Debug, Clone, Copy, PartialEq, Eq, Structural)]
pub enum RegAccess {
    NoAccess,
    Read,
    CondRead,
    Write,
    CondWrite,
    ReadWrite,
    ReadCondWrite,
    NoMemAccess,
}

/// A register an instruction uses, widened to its full register.
#[derive(Debug, Clone, Copy, PartialEq, Eq, Structural)]
pub struct RegUse {
    /// Full (64-bit for general purpose) register code.
    pub full_register: u32,
    pub access: RegAccess,
}

/// The immediate operand, read in each of its encodings.
#[derive(Debug, Clone, Copy, PartialEq, Eq, Structural)]
pub struct Immediates {
    pub imm8: u8,
    pub imm16: u16,
    pub imm32: u32,
    pub imm64: u64,
    pub imm8to16: i16,
    pub imm8to32: i32,
    pub imm8to64: i64,
    pub imm32to64: i64,
}

/// Where the displacement and immediate sit inside the instruction's bytes.
#[derive(Debug, Clone, Copy, PartialEq, Eq, Structural)]
pub struct ConstOffsets {
    pub displacement_offset: usize,
    pub displacement_size: usize,
    pub immediate_offset: usize,
    pub immediate_size: usize,
}

/// Length in bytes of the instruction decoded at the front of `bytes` at `ip`.
pub uninterp spec fn x86_length(bytes: Seq<u8>, ip: u64) -> usize;

/// Mnemonic class of that instruction.
pub uninterp spec fn x86_class(bytes: Seq<u8>, ip: u64) -> InsnClass;

/// Kind of operand `operand` of that instruction.
pub uninterp spec fn x86_operand_kind(bytes: Seq<u8>, ip: u64, operand: u32) -> OperandKind;

/// Full register of operand 0 of that instruction (register code).
pub uninterp spec fn x86_op0_full_register(bytes: Seq<u8>, ip: u64) -> u32;

/// Whether that instruction's memory operand is based on RIP.
pub uninterp spec fn x86_rip_based(bytes: Seq<u8>, ip: u64) -> bool;

/// That instruction's 64-bit memory displacement (for a RIP-based operand, the
/// absolute address it designates).
pub uninterp spec fn x86_displacement(bytes: Seq<u8>, ip: u64) -> u64;

/// That instruction's immediate operand, in each encoding.
pub uninterp spec fn x86_immediates(bytes: Seq<u8>, ip: u64) -> Immediates;

/// Offsets and sizes of that instruction's displacement and immediate.
pub uninterp spec fn x86_constant_offsets(bytes: Seq<u8>, ip: u64) -> ConstOffsets;

/// Registers that instruction uses, with their access.
pub uninterp spec fn x86_used_registers(bytes: Seq<u8>, ip: u64) -> Seq<RegUse>;

/// `iced_x86::Decoder::decode` then `Instruction::len`: the instruction's
/// length. The decoder reads at least one byte when one is available, never
/// reads past the end of its data, and never reads more than 15 bytes.
#[verifier::external_body]
fn decode_length(bytes: &[u8], ip: u64) -> (r: usize)
    ensures
        r == x86_length(bytes@, ip),
        bytes@.len() > 0 ==> 1 <= r <= bytes@.len(),
        r <= 15,
{
    Decoder::with_ip(64, bytes, ip, DecoderOptions::NONE).decode().len()
}

/// `iced_x86::Decoder::decode` then `Instruction::mnemonic`, told apart into
/// the classes the scans use.
#[verifier::external_body]
fn decode_class(bytes: &[u8], ip: u64) -> (r: InsnClass)
    ensures
        r == x86_class(bytes@, ip),
{
    match Decoder::with_ip(64, bytes, ip, DecoderOptions::NONE).decode().mnemonic() {
        Mnemonic::Lea => InsnClass::Lea,
        Mnemonic::Mov => InsnClass::Mov,
        Mnemonic::Push => InsnClass::Push,
        Mnemonic::Pop => InsnClass::Pop,
        Mnemonic::Call => InsnClass::Call,
        _ => InsnClass::Other,
    }
}

/// `iced_x86::Decoder::decode` then `Instruction::op_kind`, told apart into
/// the kinds the scans use. Operands are numbered 0 to 4.
#[verifier::external_body]
fn decode_operand_kind(bytes: &[u8], ip: u64, operand: u32) -> (r: OperandKind)
    requires
        operand <= 4,
    ensures
        r == x86_operand_kind(bytes@, ip, operand),
{
    match Decoder::with_ip(64, bytes, ip, DecoderOptions::NONE).decode().op_kind(operand) {
        OpKind::Register => OperandKind::Register,
        OpKind::NearBranch16 => OperandKind::NearBranch16,
        OpKind::NearBranch32 => OperandKind::NearBranch32,
        OpKind::NearBranch64 => OperandKind::NearBranch64,
        OpKind::Memory => OperandKind::Memory,
        OpKind::Immediate8 => OperandKind::Immediate8,
        OpKind::Immediate16 => OperandKind::Immediate16,
        OpKind::Immediate32 => OperandKind::Immediate32,
        OpKind::Immediate64 => OperandKind::Immediate64,
        OpKind::Immediate8to16 => OperandKind::Immediate8to16, OpKind::Immediate8to32 => OperandKind::Immediate8to32,
        OpKind::Immediate8to64 => OperandKind::Immediate8to64, OpKind::Immediate32to64 => OperandKind::Immediate32to64,
        _ => OperandKind::Other,
    }
}

/// `iced_x86::Decoder::decode`, `Instruction::op0_register`, then
/// `Register::full_register`, as a register code.
#[verifier::external_body]
fn decode_op0_full_register(bytes: &[u8], ip: u64) -> (r: u32)
    ensures
        r == x86_op0_full_register(bytes@, ip),
{
    Decoder::with_ip(64, bytes, ip, DecoderOptions::NONE).decode().op0_register().full_register() as u32
}

/// `iced_x86::Decoder::decode` then `Instruction::memory_base`, telling RIP
/// apart from every other base.
#[verifier::external_body]
fn decode_rip_based(bytes: &[u8], ip: u64) -> (r: bool)
    ensures
        r == x86_rip_based(bytes@, ip),
{
    matches!(Decoder::with_ip(64, bytes, ip, DecoderOptions::NONE).decode().memory_base(), Register::RIP)
}

/// `iced_x86::Decoder::decode` then `Instruction::memory_displacement64`.
#[verifier::external_body]
fn decode_displacement(bytes: &[u8], ip: u64) -> (r: u64)
    ensures
        r == x86_displacement(bytes@, ip),
{
    Decoder::with_ip(64, bytes, ip, DecoderOptions::NONE).decode().memory_displacement64()
}

/// `iced_x86::Decoder::decode` then the `Instruction::immediate*` getters.
#[verifier::external_body]
fn decode_immediates(bytes: &[u8], ip: u64) -> (r: Immediates)
    ensures
        r == x86_immediates(bytes@, ip),
{
    let i = Decoder::with_ip(64, bytes, ip, DecoderOptions::NONE).decode();
    Immediates {
        imm8: i.immediate8(),
        imm16: i.immediate16(),
        imm32: i.immediate32(),
        imm64: i.immediate64(),
        imm8to16: i.immediate8to16(),
        imm8to32: i.immediate8to32(),
        imm8to64: i.immediate8to64(),
        imm32to64: i.immediate32to64(),
    }
}

/// `iced_x86::Decoder::decode` then `Decoder::get_constant_offsets`. The
/// offsets and sizes are stored as bytes, so each is at most 255.
#[verifier::external_body]
fn decode_constant_offsets(bytes: &[u8], ip: u64) -> (r: ConstOffsets)
    ensures
        r == x86_constant_offsets(bytes@, ip),
        r.displacement_offset <= 255,
        r.displacement_size <= 255,
        r.immediate_offset <= 255,
        r.immediate_size <= 255,
{
    let mut decoder = Decoder::with_ip(64, bytes, ip, DecoderOptions::NONE);
    let i = decoder.decode();
    let c = decoder.get_constant_offsets(&i);
    ConstOffsets {
        displacement_offset: c.displacement_offset(),
        displacement_size: c.displacement_size(),
        immediate_offset: c.immediate_offset(),
        immediate_size: c.immediate_size(),
    }
}

/// `iced_x86::Decoder::decode`, `InstructionInfoFactory::info`, then
/// `InstructionInfo::used_registers`, each register widened with
/// `Register::full_register` and its access told apart.
#[verifier::external_body]
fn decode_used_registers(bytes: &[u8], ip: u64) -> (r: Vec<RegUse>)
    ensures
        r@ == x86_used_registers(bytes@, ip),
{
    let i = Decoder::with_ip(64, bytes, ip, DecoderOptions::NONE).decode();
    let mut factory = InstructionInfoFactory::new();
    factory.info(&i).used_registers().iter().map(|u| RegUse {
        full_register: u.register().full_register() as u32,
        access: match u.access() {
            OpAccess::None => RegAccess::NoAccess,
            OpAccess::Read => RegAccess::Read,
            OpAccess::CondRead => RegAccess::CondRead,
            OpAccess::Write => RegAccess::Write,
            OpAccess::CondWrite => RegAccess::CondWrite,
            OpAccess::ReadWrite => RegAccess::ReadWrite,
            OpAccess::ReadCondWrite => RegAccess::ReadCondWrite,
            _ => RegAccess::NoMemAccess,
        },
    }).collect()
}


/// One decoded instruction: where it sits and every fact the scans read.
pub struct X86Insn {
    /// Byte offset of the instruction from the start of the decoded range.
    pub offset: usize,
    /// Instruction pointer of the instruction.
    pub ip: u64,
    pub len: usize,
    pub class: InsnClass,
    pub op0: OperandKind,
    pub op1: OperandKind,
    pub op0_full_register: u32,
    pub rip_based: bool,
    pub displacement: u64,
    pub immediates: Immediates,
    pub offsets: ConstOffsets,
    pub used_registers: Vec<RegUse>,
}

/// `insn` holds the facts of the instruction decoded from the front of
/// `bytes` at `ip`.
pub open spec fn describes(insn: X86Insn, bytes: Seq<u8>, ip: u64) -> bool {
    &&& insn.ip == ip
    &&& insn.len == x86_length(bytes, ip)
    &&& insn.class == x86_class(bytes, ip)
    &&& insn.op0 == x86_operand_kind(bytes, ip, 0)
    &&& insn.op1 == x86_operand_kind(bytes, ip, 1)
    &&& insn.op0_full_register == x86_op0_full_register(bytes, ip)
    &&& insn.rip_based == x86_rip_based(bytes, ip)
    &&& insn.displacement == x86_displacement(bytes, ip)
    &&& insn.immediates == x86_immediates(bytes, ip)
    &&& insn.offsets == x86_constant_offsets(bytes, ip)
    &&& insn.used_registers@ == x86_used_registers(bytes, ip)
}

/// Offsets, from `pos` on, at which a linear sweep of `bytes` decodes an
/// instruction, the first byte of `bytes` sitting at instruction pointer `ip`.
pub open spec fn sweep_offsets(bytes: Seq<u8>, ip: u64, pos: int) -> Seq<int>
    decreases bytes.len() - pos,
{
    if pos < 0 || pos >= bytes.len() {
        Seq::empty()
    } else {
        let l = x86_length(bytes.subrange(pos, bytes.len() as int), (ip + pos) as u64);
        if l == 0 || pos + l > bytes.len() {
            Seq::empty()
        } else {
            seq![pos] + sweep_offsets(bytes, ip, pos + l)
        }
    }
}

/// `insns` is the linear sweep of `bytes` decoded from instruction pointer `ip`.
pub open spec fn is_sweep(insns: Seq<X86Insn>, bytes: Seq<u8>, ip: u64) -> bool {
    let offs = sweep_offsets(bytes, ip, 0);
    &&& insns.len() == offs.len()
    &&& forall|k: int|
        0 <= k < insns.len() ==> {
            &&& (#[trigger] insns[k]).offset == offs[k]
            &&& describes(insns[k], bytes.subrange(offs[k], bytes.len() as int), (ip + offs[k]) as u64)
        }
}

/// Every sweep offset lies inside `bytes`, and the instruction decoded there
/// is at least one byte long and ends inside `bytes`.
pub proof fn lemma_sweep_bounds(bytes: Seq<u8>, ip: u64, pos: int)
    ensures
        forall|k: int|
            0 <= k < sweep_offsets(bytes, ip, pos).len() ==> {
                let o = #[trigger] sweep_offsets(bytes, ip, pos)[k];
                let l = x86_length(bytes.subrange(o, bytes.len() as int), (ip + o) as u64);
                &&& pos <= o < bytes.len()
                &&& 1 <= l
                &&& o + l <= bytes.len()
            },
    decreases bytes.len() - pos,
{
    if 0 <= pos < bytes.len() {
        let l = x86_length(bytes.subrange(pos, bytes.len() as int), (ip + pos) as u64);
        if l != 0 && pos + l <= bytes.len() {
            lemma_sweep_bounds(bytes, ip, pos + l);
            let tail = sweep_offsets(bytes, ip, pos + l);
            assert forall|k: int| 0 <= k < sweep_offsets(bytes, ip, pos).len() implies {
                let o = #[trigger] sweep_offsets(bytes, ip, pos)[k];
                let l = x86_length(bytes.subrange(o, bytes.len() as int), (ip + o) as u64);
                &&& pos <= o < bytes.len()
                &&& 1 <= l
                &&& o + l <= bytes.len()
            } by {
                if k > 0 {
                    assert(sweep_offsets(bytes, ip, pos)[k] == tail[k - 1]);
                }
            }
        }
    }
}

/// Decode the instruction at the front of `bytes`, at instruction pointer `ip`.
pub fn decode_insn(bytes: &[u8], offset: usize, ip: u64) -> (r: X86Insn)
    ensures
        describes(r, bytes@, ip),
        r.offset == offset,
        bytes@.len() > 0 ==> 1 <= r.len <= bytes@.len(),
        r.offsets.displacement_offset <= 255,
        r.offsets.displacement_size <= 255,
        r.offsets.immediate_offset <= 255,
        r.offsets.immediate_size <= 255,
{
    X86Insn {
        offset,
        ip,
        len: decode_length(bytes, ip),
        class: decode_class(bytes, ip),
        op0: decode_operand_kind(bytes, ip, 0),
        op1: decode_operand_kind(bytes, ip, 1),
        op0_full_register: decode_op0_full_register(bytes, ip),
        rip_based: decode_rip_based(bytes, ip),
        displacement: decode_displacement(bytes, ip),
        immediates: decode_immediates(bytes, ip),
        offsets: decode_constant_offsets(bytes, ip),
        used_registers: decode_used_registers(bytes, ip),
    }
}

/// Linear sweep: decode `bytes` instruction after instruction, the first
/// byte sitting at instruction pointer `ip`.
pub fn decode_all(bytes: &[u8], ip: u64) -> (r: Vec<X86Insn>)
    requires
        ip + bytes@.len() <= u64::MAX,
    ensures
        is_sweep(r@, bytes@, ip),
{
    let n = bytes.len();
    let mut out: Vec<X86Insn> = Vec::new();
    let mut pos: usize = 0;
    let ghost all = sweep_offsets(bytes@, ip, 0);
    while pos < n
        invariant
            n == bytes@.len(),
            ip + n <= u64::MAX,
            pos <= n,
            all == sweep_offsets(bytes@, ip, 0),
            out@.len() + sweep_offsets(bytes@, ip, pos as int).len() == all.len(),
            forall|k: int| 0 <= k < sweep_offsets(bytes@, ip, pos as int).len()
                ==> #[trigger] sweep_offsets(bytes@, ip, pos as int)[k] == all[out@.len() + k],
            forall|k: int|
                0 <= k < out@.len() ==> {
                    &&& (#[trigger] out@[k]).offset == all[k]
                    &&& describes(out@[k], bytes@.subrange(all[k], n as int), (ip + all[k]) as u64)
                },
        decreases n - pos,
    {
        let rest = vstd::slice::slice_subrange(bytes, pos, n);
        let insn_ip = ip + pos as u64;
        let insn = decode_insn(rest, pos, insn_ip);
        let l = insn.len;
        proof {
            let tail = sweep_offsets(bytes@, ip, pos as int + l);
            assert(rest@ == bytes@.subrange(pos as int, n as int));
            assert(sweep_offsets(bytes@, ip, pos as int) == seq![pos as int] + tail);
            assert(sweep_offsets(bytes@, ip, pos as int)[0] == pos);
            assert(all[out@.len() as int] == pos);
            assert forall|k: int| 0 <= k < tail.len() implies #[trigger] tail[k] == all[out@.len() + 1 + k] by {
                assert(sweep_offsets(bytes@, ip, pos as int)[k + 1] == tail[k]);
            }
        }
        out.push(insn);
        pos = pos + l;
    }
    proof {
        assert(sweep_offsets(bytes@, ip, pos as int).len() == 0);
    }
    out
}

/// An instruction of a sweep starts at its offset, is at least one byte long
/// and ends inside the swept bytes.
pub proof fn lemma_sweep_insn(insns: Seq<X86Insn>, bytes: Seq<u8>, ip: u64, k: int)
    requires
        is_sweep(insns, bytes, ip),
        ip + bytes.len() <= u64::MAX,
        0 <= k < insns.len(),
    ensures
        insns[k].ip == ip + insns[k].offset,
        1 <= insns[k].len,
        insns[k].offset + insns[k].len <= bytes.len(),
{
    lemma_sweep_bounds(bytes, ip, 0);
    let o = sweep_offsets(bytes, ip, 0)[k];
    assert(insns[k].offset == o);
}

} // verus!
