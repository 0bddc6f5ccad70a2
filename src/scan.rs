use vstd::prelude::*;

use crate::elf::SurgeryEntry;
use iced_x86::{Decoder, DecoderOptions};

verus! {

/// What the first operand of an instruction is, as branch analysis sees it.
#[derive(Copy, Clone, Debug, PartialEq, Eq, Structural)]
pub enum OperandClass {
    /// A relative branch target (`NearBranch16/32/64`).
    NearBranch,
    /// A far branch target (`FarBranch16/32`).
    FarBranch,
    /// Anything else.
    Other,
}

/// One decoded instruction, as branch analysis reads it.
#[derive(Copy, Clone, Debug, PartialEq, Eq, Structural)]
pub struct DecodedInst {
    /// Length in bytes.
    pub len: usize,
    pub operand: OperandClass,
    /// Target of a near branch.
    pub near_target: u64,
    /// Width in bytes of the encoded branch displacement (1, 2 or 4), or 0
    /// when the encoding has another kind of first operand.
    pub branch_width: u8,
    /// An indirect call or jump.
    pub indirect: bool,
}

/// An instruction as iced-x86 reports it: its length, the numeric code of
/// the kind of its first operand and of the first operand of its opcode
/// (`None` where iced reports an error), the near branch target, and the
/// four indirect-branch tests.
#[derive(Copy, Clone, Debug, PartialEq, Eq, Structural)]
pub struct RawInst {
    pub len: usize,
    pub op0_kind: Option<u32>,
    pub op_code_op0_kind: Option<u32>,
    pub near_target: u64,
    pub call_far_indirect: bool,
    pub call_near_indirect: bool,
    pub jmp_far_indirect: bool,
    pub jmp_near_indirect: bool,
}

/// The instruction that iced-x86 decodes, in 64-bit mode, from the bytes
/// `data` placed at address `ip`.
pub uninterp spec fn decoded_at(data: Seq<u8>, ip: u64) -> RawInst;

/// Relies on iced_x86::Decoder::with_ip (64-bit mode) and Decoder::decode to
/// decode the instruction at `data[pos..]`, placed at `ip`; and on
/// Instruction::len (documented as 0 to 15 bytes), try_op_kind,
/// near_branch_target, op_code().try_op_kind and is_{call,jmp}_{far,near}_indirect
/// to read it. The operand kinds are passed on as their numeric codes.
#[verifier::external_body]
fn decode_one(data: &Vec<u8>, pos: usize, ip: u64) -> (r: RawInst)
    requires
        pos <= data@.len(),
    ensures
        r == decoded_at(data@.subrange(pos as int, data@.len() as int), ip),
        r.len <= 15,
{
    let inst = Decoder::with_ip(64, &data[pos..], ip, DecoderOptions::NONE).decode();
    RawInst {
        len: inst.len(),
        op0_kind: inst.try_op_kind(0).ok().map(|k| k as u32),
        op_code_op0_kind: inst.op_code().try_op_kind(0).ok().map(|k| k as u32),
        near_target: inst.near_branch_target(),
        call_far_indirect: inst.is_call_far_indirect(),
        call_near_indirect: inst.is_call_near_indirect(),
        jmp_far_indirect: inst.is_jmp_far_indirect(),
        jmp_near_indirect: inst.is_jmp_near_indirect(),
    }
}

/// iced-x86's codes of the operand kinds `NearBranch16`, `NearBranch32`,
/// `NearBranch64`, `FarBranch16` and `FarBranch32`.
pub const OP_NEAR_BRANCH16: u32 = 1;
pub const OP_NEAR_BRANCH64: u32 = 3;
pub const OP_FAR_BRANCH16: u32 = 4;
pub const OP_FAR_BRANCH32: u32 = 5;

/// iced-x86's codes of the opcode operand kinds `br16_1`, `br32_1`, `br16_2`,
/// `br32_4` and `br64_4` (`br64_1` is 97).
pub const BR16_1: u32 = 95;
pub const BR32_1: u32 = 96;
pub const BR16_2: u32 = 98;
pub const BR32_4: u32 = 99;
pub const BR64_4: u32 = 100;

/// The class of a first operand of kind code `k`.
pub open spec fn operand_class(k: Option<u32>) -> OperandClass {
    match k {
        Some(c) => if OP_NEAR_BRANCH16 <= c <= OP_NEAR_BRANCH64 {
            OperandClass::NearBranch
        } else if c == OP_FAR_BRANCH16 || c == OP_FAR_BRANCH32 {
            OperandClass::FarBranch
        } else {
            OperandClass::Other
        },
        None => OperandClass::Other,
    }
}

/// The width in bytes of a branch displacement of opcode operand kind code
/// `k`: 1, 2 or 4, and 0 for a kind that surgery does not rewrite.
pub open spec fn branch_width(k: Option<u32>) -> u8 {
    match k {
        Some(c) => if c == BR16_1 || c == BR32_1 {
            1
        } else if c == BR16_2 {
            2
        } else if c == BR32_4 || c == BR64_4 {
            4
        } else {
            0
        },
        None => 0,
    }
}

/// The instruction as branch analysis reads it.
pub open spec fn inst_of(raw: RawInst) -> DecodedInst {
    DecodedInst {
        len: raw.len,
        operand: operand_class(raw.op0_kind),
        near_target: raw.near_target,
        branch_width: branch_width(raw.op_code_op0_kind),
        indirect: raw.call_far_indirect || raw.call_near_indirect || raw.jmp_far_indirect || raw.jmp_near_indirect,
    }
}

/// Reads a decoded instruction as branch analysis needs it.
pub fn read_instruction(raw: RawInst) -> (r: DecodedInst)
    ensures
        r == inst_of(raw),
{
    let operand = match raw.op0_kind {
        Some(c) => if OP_NEAR_BRANCH16 <= c && c <= OP_NEAR_BRANCH64 {
            OperandClass::NearBranch
        } else if c == OP_FAR_BRANCH16 || c == OP_FAR_BRANCH32 {
            OperandClass::FarBranch
        } else {
            OperandClass::Other
        },
        None => OperandClass::Other,
    };
    let width: u8 = match raw.op_code_op0_kind {
        Some(c) => if c == BR16_1 || c == BR32_1 {
            1
        } else if c == BR16_2 {
            2
        } else if c == BR32_4 || c == BR64_4 {
            4
        } else {
            0
        },
        None => 0,
    };
    DecodedInst {
        len: raw.len,
        operand,
        near_target: raw.near_target,
        branch_width: width,
        indirect: raw.call_far_indirect || raw.call_near_indirect || raw.jmp_far_indirect || raw.jmp_near_indirect,
    }
}

/// Why a text section cannot be scanned.
#[derive(Copy, Clone, Debug, PartialEq, Eq, Structural)]
pub enum ScanError {
    /// A far branch, which surgery does not handle.
    FarBranch { ip: u64 },
    /// A branch to a linkage-table entry whose displacement has an unknown width.
    UnknownBranchWidth { ip: u64 },
}

/// What one instruction contributes to the scan.
#[derive(Copy, Clone, Debug, PartialEq, Eq, Structural)]
pub enum ScanStep {
    Skip,
    /// An indirect call or jump: not followed, only reported.
    Indirect,
    /// A branch to the linkage-table entry `target` (an index into the
    /// targets) with its displacement at `entry`.
    Site { target: usize, entry: SurgeryEntry },
    Fail { error: ScanError },
}

/// The first index of `x` in `s`, if any.
pub open spec fn first_index(s: Seq<u64>, x: u64) -> Option<usize> {
    if exists|j: int| 0 <= j < s.len() && s[j] == x {
        Some((choose|j: int| 0 <= j < s.len() && s[j] == x && forall|k: int| 0 <= k < j ==> s[k] != x) as usize)
    } else {
        None
    }
}

/// The step for instruction `inst` at offset `pos` of a section placed at
/// `vaddr` in memory and at `file_offset` in the file, with linkage-table
/// entries at `targets`. The displacement of a branch is the last
/// `branch_width` bytes of the instruction.
pub open spec fn step_of(inst: DecodedInst, pos: int, vaddr: u64, file_offset: u64, targets: Seq<u64>) -> ScanStep {
    let ip = (vaddr + pos) as u64;
    match inst.operand {
        OperandClass::NearBranch => match first_index(targets, inst.near_target) {
            Some(t) => if inst.branch_width == 0 || inst.len < inst.branch_width {
                ScanStep::Fail { error: ScanError::UnknownBranchWidth { ip } }
            } else {
                ScanStep::Site {
                    target: t,
                    entry: SurgeryEntry {
                        file_offset: (pos + inst.len - inst.branch_width + file_offset) as u64,
                        virtual_offset: (vaddr + pos + inst.len) as u64,
                        size: inst.branch_width,
                    },
                }
            },
            None => ScanStep::Skip,
        },
        OperandClass::FarBranch => ScanStep::Fail { error: ScanError::FarBranch { ip } },
        OperandClass::Other => if inst.indirect {
            ScanStep::Indirect
        } else {
            ScanStep::Skip
        },
    }
}

/// The surgery sites found from offset `pos` of `data` to its end, or the
/// first error.
pub open spec fn scan_from(data: Seq<u8>, vaddr: u64, file_offset: u64, targets: Seq<u64>, pos: int) -> Result<
    Seq<(usize, SurgeryEntry)>,
    ScanError,
>
    decreases data.len() - pos,
{
    if pos < 0 || pos >= data.len() {
        Ok(Seq::empty())
    } else {
        let inst = inst_of(decoded_at(data.subrange(pos, data.len() as int), (vaddr + pos) as u64));
        let stepped = pos + if inst.len == 0 {
            1
        } else {
            inst.len as int
        };
        let next = if stepped > data.len() {
            data.len() as int
        } else {
            stepped
        };
        match step_of(inst, pos, vaddr, file_offset, targets) {
            ScanStep::Fail { error } => Err(error),
            ScanStep::Site { target, entry } => match scan_from(data, vaddr, file_offset, targets, next) {
                Ok(rest) => Ok(seq![(target, entry)] + rest),
                Err(e) => Err(e),
            },
            _ => scan_from(data, vaddr, file_offset, targets, next),
        }
    }
}

/// What a scan from `pos` gives after the sites `found` before it.
pub open spec fn after_found(found: Seq<(usize, SurgeryEntry)>, rest: Result<Seq<(usize, SurgeryEntry)>, ScanError>) -> Result<
    Seq<(usize, SurgeryEntry)>,
    ScanError,
> {
    match rest {
        Ok(r) => Ok(found + r),
        Err(e) => Err(e),
    }
}

/// The index of `x` in `targets`, the first one if it occurs twice.
pub fn find_target(targets: &Vec<u64>, x: u64) -> (r: Option<usize>)
    ensures
        r == first_index(targets@, x),
{
    let mut i: usize = 0;
    while i < targets.len()
        invariant
            i <= targets@.len(),
            forall|k: int| 0 <= k < i ==> targets@[k] != x,
        decreases targets@.len() - i,
    {
        if targets[i] == x {
            proof {
                let j = choose|j: int| 0 <= j < targets@.len() && targets@[j] == x && forall|k: int| 0 <= k < j ==> targets@[k] != x;
                if j < i {
                } else if j > i {
                    assert(targets@[i as int] == x);
                }
            }
            return Some(i);
        }
        i = i + 1;
    }
    None
}

/// The step for one decoded instruction at offset `pos` of a section placed at
/// `vaddr`, stored at `file_offset`, with linkage-table entries at `targets`.
pub fn classify_instruction(inst: DecodedInst, pos: usize, vaddr: u64, file_offset: u64, targets: &Vec<u64>) -> (r: ScanStep)
    requires
        vaddr + pos + 16 <= u64::MAX,
        file_offset + pos + 16 <= u64::MAX,
        pos + 16 <= usize::MAX,
        inst.len <= 15,
    ensures
        r == step_of(inst, pos as int, vaddr, file_offset, targets@),
{
    let ip = vaddr + pos as u64;
    match inst.operand {
        OperandClass::NearBranch => match find_target(targets, inst.near_target) {
            Some(t) => {
                if inst.branch_width == 0 || inst.len < inst.branch_width as usize {
                    ScanStep::Fail { error: ScanError::UnknownBranchWidth { ip } }
                } else {
                    ScanStep::Site {
                        target: t,
                        entry: SurgeryEntry {
                            file_offset: (pos + inst.len - inst.branch_width as usize) as u64 + file_offset,
                            virtual_offset: ip + inst.len as u64,
                            size: inst.branch_width,
                        },
                    }
                }
            },
            None => ScanStep::Skip,
        },
        OperandClass::FarBranch => ScanStep::Fail { error: ScanError::FarBranch { ip } },
        OperandClass::Other => if inst.indirect {
            ScanStep::Indirect
        } else {
            ScanStep::Skip
        },
    }
}

/// Decodes the text section `data`, placed at `vaddr` and stored at
/// `file_offset`, and lists each branch to one of the linkage-table entries
/// `targets`, with the index of that entry. Also tells whether an indirect
/// call or jump was seen. Fails on a far branch.
#[verifier::rlimit(40)]
pub fn find_surgery_sites(data: &Vec<u8>, vaddr: u64, file_offset: u64, targets: &Vec<u64>) -> (r: Result<
    (Vec<(usize, SurgeryEntry)>, bool),
    ScanError,
>)
    requires
        vaddr + data@.len() + 16 <= u64::MAX,
        file_offset + data@.len() + 16 <= u64::MAX,
        data@.len() + 16 <= usize::MAX,
    ensures
        match r {
            Ok((sites, _)) => scan_from(data@, vaddr, file_offset, targets@, 0) == Ok::<Seq<(usize, SurgeryEntry)>, ScanError>(sites@),
            Err(e) => scan_from(data@, vaddr, file_offset, targets@, 0) == Err::<Seq<(usize, SurgeryEntry)>, ScanError>(e),
        },
{
    let mut sites: Vec<(usize, SurgeryEntry)> = Vec::new();
    let mut indirect_seen = false;
    let mut pos: usize = 0;
    let len = data.len();
    while pos < len
        invariant
            len == data@.len(),
            len + 16 <= usize::MAX,
            vaddr + len + 16 <= u64::MAX,
            file_offset + len + 16 <= u64::MAX,
            pos <= len + 15,
            scan_from(data@, vaddr, file_offset, targets@, 0) == after_found(sites@, scan_from(data@, vaddr, file_offset, targets@, pos as int)),
        decreases len + 16 - pos,
    {
        let inst = read_instruction(decode_one(data, pos, vaddr + pos as u64));
        let step = classify_instruction(inst, pos, vaddr, file_offset, targets);
        let ghost before = sites@;
        let next = if inst.len == 0 {
            pos + 1
        } else {
            pos + inst.len
        };
        proof {
            assert(scan_from(data@, vaddr, file_offset, targets@, next as int) == scan_from(
                data@,
                vaddr,
                file_offset,
                targets@,
                if next > len { len as int } else { next as int },
            ));
        }
        match step {
            ScanStep::Fail { error } => {
                return Err(error);
            },
            ScanStep::Site { target, entry } => {
                sites.push((target, entry));
                proof {
                    assert(sites@ =~= before + seq![(target, entry)]);
                    match scan_from(data@, vaddr, file_offset, targets@, next as int) {
                        Ok(rest) => {
                            assert(before + (seq![(target, entry)] + rest) =~= sites@ + rest);
                        },
                        Err(_) => {},
                    }
                }
            },
            ScanStep::Indirect => {
                indirect_seen = true;
            },
            ScanStep::Skip => {},
        }
        pos = next;
    }
    proof {
        assert(sites@ + Seq::<(usize, SurgeryEntry)>::empty() =~= sites@);
    }
    Ok((sites, indirect_seen))
}

/// A linkage-table entry through which the host calls an application
/// function: the function (an index into the application's symbols), and the
/// entry's place in the file and in memory.
#[derive(Copy, Clone, Debug, PartialEq, Eq, Structural)]
pub struct PltEntry {
    pub symbol: usize,
    pub file_offset: u64,
    pub vaddr: u64,
}

/// The entries for the jump-slot relocations `targets` (the symbol each one
/// names, if any) of a linkage table at `plt_address` and `plt_offset`:
/// relocation `i` fills entry `i + 1` (entry zero is the resolver stub); a
/// relocation naming one of the application symbols `app_syms` gives an entry
/// for the first such symbol.
pub open spec fn plt_spec(targets: Seq<Option<u64>>, app_syms: Seq<u64>, plt_address: u64, plt_offset: u64) -> Seq<PltEntry>
    decreases targets.len(),
{
    if targets.len() == 0 {
        Seq::empty()
    } else {
        let prev = plt_spec(targets.drop_last(), app_syms, plt_address, plt_offset);
        let step = 16 * targets.len();
        match targets.last() {
            Some(t) => match first_index(app_syms, t) {
                Some(k) => prev.push(PltEntry {
                    symbol: k,
                    file_offset: (plt_offset + step) as u64,
                    vaddr: (plt_address + step) as u64,
                }),
                None => prev,
            },
            None => prev,
        }
    }
}

/// The linkage-table entries of the application functions.
pub fn plt_entries(targets: &Vec<Option<u64>>, app_syms: &Vec<u64>, plt_address: u64, plt_offset: u64) -> (r: Vec<PltEntry>)
    requires
        plt_address + 16 * (targets@.len() + 1) <= u64::MAX,
        plt_offset + 16 * (targets@.len() + 1) <= u64::MAX,
    ensures
        r@ == plt_spec(targets@, app_syms@, plt_address, plt_offset),
{
    let mut r: Vec<PltEntry> = Vec::new();
    let mut i: usize = 0;
    while i < targets.len()
        invariant
            i <= targets@.len(),
            plt_address + 16 * (targets@.len() + 1) <= u64::MAX,
            plt_offset + 16 * (targets@.len() + 1) <= u64::MAX,
            r@ == plt_spec(targets@.subrange(0, i as int), app_syms@, plt_address, plt_offset),
        decreases targets@.len() - i,
    {
        proof {
            let pre = targets@.subrange(0, i + 1);
            assert(pre.drop_last() =~= targets@.subrange(0, i as int));
            assert(pre.last() == targets@[i as int]);
        }
        let step: u64 = 16 * (i as u64 + 1);
        match targets[i] {
            Some(t) => match find_target(app_syms, t) {
                Some(k) => {
                    r.push(PltEntry { symbol: k, file_offset: plt_offset + step, vaddr: plt_address + step });
                },
                None => {},
            },
            None => {},
        }
        i = i + 1;
    }
    assert(targets@.subrange(0, targets@.len() as int) =~= targets@);
    r
}

} // verus!
