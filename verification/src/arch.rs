//! Control registers of one hart, the interrupt switches, and the encoding of
//! the translation-control value.
//!
//! The registers are held in a `RegisterBank`, a plain record of their values.
//! The code that runs on the machine copies the record from and to the hart.

use vstd::prelude::*;
use crate::symbols::PAGE_SIZE;
use crate::KernelError;

verus! {

/// Global supervisor interrupt enable bit of `sstatus`.
pub const SSTATUS_SIE: usize = 0x2;

/// Supervisor software interrupt enable bit of `sie`.
pub const SIE_SSIE: usize = 0x2;

/// Supervisor timer interrupt enable bit of `sie`.
pub const SIE_STIE: usize = 0x20;

/// Supervisor external interrupt enable bit of `sie`.
pub const SIE_SEIE: usize = 0x200;

/// Nanoseconds per tick of the machine timer.
pub const NANOS_PER_TICK: u64 = 100;

/// The registers that the boot code reads or writes.
#[derive(Clone, Copy, Debug, PartialEq, Eq, Structural)]
pub enum Register {
    /// Supervisor status.
    Sstatus,
    /// Supervisor interrupt enable.
    Sie,
    /// Supervisor interrupt pending.
    Sip,
    /// Supervisor address translation and protection.
    Satp,
    /// Machine scratch: the address of the hart's trap-context record.
    Mscratch,
    /// Machine hart id.
    Mhartid,
    /// Thread pointer: the hart id as the firmware left it.
    Tp,
    /// Stack pointer.
    Sp,
}

/// The values of the registers of one hart.
#[derive(Clone, Copy, Debug, PartialEq, Eq, Structural)]
pub struct RegisterBank {
    pub sstatus: usize,
    pub sie: usize,
    pub sip: usize,
    pub satp: usize,
    pub mscratch: usize,
    pub mhartid: usize,
    pub tp: usize,
    pub sp: usize,
}

impl RegisterBank {
    /// The value of the register `name`.
    pub open spec fn get(self, name: Register) -> usize {
        match name {
            Register::Sstatus => self.sstatus,
            Register::Sie => self.sie,
            Register::Sip => self.sip,
            Register::Satp => self.satp,
            Register::Mscratch => self.mscratch,
            Register::Mhartid => self.mhartid,
            Register::Tp => self.tp,
            Register::Sp => self.sp,
        }
    }

    /// The bank with the register `name` set to `value`.
    pub open spec fn set(self, name: Register, value: usize) -> RegisterBank {
        match name {
            Register::Sstatus => RegisterBank { sstatus: value, ..self },
            Register::Sie => RegisterBank { sie: value, ..self },
            Register::Sip => RegisterBank { sip: value, ..self },
            Register::Satp => RegisterBank { satp: value, ..self },
            Register::Mscratch => RegisterBank { mscratch: value, ..self },
            Register::Mhartid => RegisterBank { mhartid: value, ..self },
            Register::Tp => RegisterBank { tp: value, ..self },
            Register::Sp => RegisterBank { sp: value, ..self },
        }
    }

    /// A bank with every register 0, but for the hart id in `mhartid` and `tp`.
    pub fn new(hartid: usize) -> (regs: Self)
        ensures
            regs == (RegisterBank {
                sstatus: 0,
                sie: 0,
                sip: 0,
                satp: 0,
                mscratch: 0,
                mhartid: hartid,
                tp: hartid,
                sp: 0,
            }),
    {
        RegisterBank {
            sstatus: 0,
            sie: 0,
            sip: 0,
            satp: 0,
            mscratch: 0,
            mhartid: hartid,
            tp: hartid,
            sp: 0,
        }
    }

    /// Reads the register `name`.
    pub fn read_register(&self, name: Register) -> (value: usize)
        ensures
            value == self.get(name),
    {
        match name {
            Register::Sstatus => self.sstatus,
            Register::Sie => self.sie,
            Register::Sip => self.sip,
            Register::Satp => self.satp,
            Register::Mscratch => self.mscratch,
            Register::Mhartid => self.mhartid,
            Register::Tp => self.tp,
            Register::Sp => self.sp,
        }
    }

    /// Writes `value` to the register `name` and leaves the others alone.
    pub fn write_register(&mut self, name: Register, value: usize)
        ensures
            *final(self) == old(self).set(name, value),
    {
        match name {
            Register::Sstatus => self.sstatus = value,
            Register::Sie => self.sie = value,
            Register::Sip => self.sip = value,
            Register::Satp => self.satp = value,
            Register::Mscratch => self.mscratch = value,
            Register::Mhartid => self.mhartid = value,
            Register::Tp => self.tp = value,
            Register::Sp => self.sp = value,
        }
    }
}

/// The translation-control value for an addressing mode, an address-space
/// identifier and the address of a root table: the low 4 bits of `mode` in
/// bits 60 to 63, the low 16 bits of `asid` in bits 44 to 59, and the low 44
/// bits of the root's frame number in the bits 0 to 43 that remain.
pub open spec fn satp_value(mode: int, asid: int, addr: int) -> int {
    (mode % 0x10) * 0x1000_0000_0000_0000 + (asid % 0x1_0000) * 0x1000_0000_0000 + (addr
        / 0x1000) % 0x1000_0000_0000
}

/// The addressing mode that a translation-control value holds.
pub open spec fn satp_mode(satp: int) -> int {
    satp / 0x1000_0000_0000_0000
}

/// The address-space identifier that a translation-control value holds.
pub open spec fn satp_asid(satp: int) -> int {
    (satp / 0x1000_0000_0000) % 0x1_0000
}

/// The frame number of the root table that a translation-control value holds.
pub open spec fn satp_ppn(satp: int) -> int {
    satp % 0x1000_0000_0000
}

/// A translation-control value gives back the mode, the identifier and the
/// root's frame number that it was built from, as far as each fits its field.
pub proof fn lemma_satp_fields(mode: int, asid: int, addr: int)
    requires
        0 <= mode < 0x10,
        0 <= asid < 0x1_0000,
        0 <= addr < 0x100_0000_0000_0000,
    ensures
        0 <= satp_value(mode, asid, addr) < 0x1_0000_0000_0000_0000,
        satp_mode(satp_value(mode, asid, addr)) == mode,
        satp_asid(satp_value(mode, asid, addr)) == asid,
        satp_ppn(satp_value(mode, asid, addr)) == addr / 0x1000,
        mode != 0 ==> satp_value(mode, asid, addr) != 0,
{
}

/// Builds the translation-control value from the addressing mode, the
/// address-space identifier and the address of the root table. A root that
/// does not sit on a page boundary is refused. The layout is that of a
/// 64-bit machine, and the function is for such a machine only.
pub fn build_satp(mode: usize, asid: usize, addr: usize) -> (r: Result<usize, KernelError>)
    requires
        usize::BITS == 64,
    ensures
        match r {
            Ok(satp) => addr % PAGE_SIZE == 0 && satp == satp_value(
                mode as int,
                asid as int,
                addr as int,
            ),
            Err(e) => addr % PAGE_SIZE != 0 && e == KernelError::Misaligned,
        },
{
    if addr % PAGE_SIZE != 0 {
        return Err(KernelError::Misaligned);
    }
    let ppn_mask: usize = 0xfff_ffff_ffffu64 as usize;
    let satp: usize = (mode << 60) | ((asid & 0xffff) << 44) | ((addr >> 12) & ppn_mask);
    assert(satp == (mode as u64 % 0x10) * 0x1000_0000_0000_0000 + (asid as u64 % 0x1_0000)
        * 0x1000_0000_0000 + (addr as u64 / 0x1000) % 0x1000_0000_0000) by (bit_vector)
        requires
            usize::BITS == 64,
            ppn_mask == 0xfff_ffff_ffffu64,
            satp == (mode << 60) | ((asid & 0xffff) << 44) | ((addr >> 12) & ppn_mask),
    ;
    Ok(satp)
}

/// `riscv::register::sstatus::Sstatus::from_bits` and then `Sstatus::sie`:
/// whether bit 1 of a value of `sstatus`, the supervisor interrupt enable
/// bit, is set.
#[verifier::external_body]
fn sstatus_sie(bits: usize) -> (enabled: bool)
    ensures
        enabled == (bits & SSTATUS_SIE != 0),
{
    riscv::register::sstatus::Sstatus::from_bits(bits).sie()
}

/// Enables interrupts: sets the external, software and timer enable bits of
/// `sie` and the global enable bit of `sstatus`.
pub fn intr_on(regs: &mut RegisterBank)
    ensures
        *final(regs) == (RegisterBank {
            sie: old(regs).sie | SIE_SEIE | SIE_SSIE | SIE_STIE,
            sstatus: old(regs).sstatus | SSTATUS_SIE,
            ..*old(regs)
        }),
        final(regs).sstatus & SSTATUS_SIE != 0,
        final(regs).sie & SIE_SEIE != 0,
        final(regs).sie & SIE_SSIE != 0,
        final(regs).sie & SIE_STIE != 0,
{
    let sie = regs.sie;
    let sstatus = regs.sstatus;
    regs.sie = sie | SIE_SEIE | SIE_SSIE | SIE_STIE;
    regs.sstatus = sstatus | SSTATUS_SIE;
    assert((sstatus | 0x2) & 0x2 != 0) by (bit_vector);
    assert((sie | 0x200 | 0x2 | 0x20) & 0x200 != 0 && (sie | 0x200 | 0x2 | 0x20) & 0x2 != 0 && (sie
        | 0x200 | 0x2 | 0x20) & 0x20 != 0) by (bit_vector);
}

/// Disables interrupts: clears the global enable bit of `sstatus`. The enable
/// bits of the sources in `sie` stay as they are.
pub fn intr_off(regs: &mut RegisterBank)
    ensures
        *final(regs) == (RegisterBank { sstatus: old(regs).sstatus & !SSTATUS_SIE, ..*old(regs) }),
        final(regs).sstatus & SSTATUS_SIE == 0,
{
    let sstatus = regs.sstatus;
    regs.sstatus = sstatus & !SSTATUS_SIE;
    assert((sstatus & !0x2usize) & 0x2 == 0) by (bit_vector);
}

/// Whether interrupts are enabled: the global enable bit of `sstatus`.
pub fn intr_get(regs: &RegisterBank) -> (enabled: bool)
    ensures
        enabled == (regs.sstatus & SSTATUS_SIE != 0),
{
    sstatus_sie(regs.sstatus)
}

/// Turning interrupts off and on again changes no bit of `sstatus` but the
/// global enable bit, which ends up set.
pub proof fn lemma_intr_off_on(sstatus: usize)
    ensures
        (sstatus & !SSTATUS_SIE) | SSTATUS_SIE == sstatus | SSTATUS_SIE,
{
    assert((sstatus & !0x2usize) | 0x2 == sstatus | 0x2) by (bit_vector);
}

/// The id of the hart, which the firmware left in `tp`.
pub fn hart_id(regs: &RegisterBank) -> (id: usize)
    ensures
        id == regs.tp,
{
    regs.tp
}

/// Reads `sip`.
pub fn r_sip(regs: &RegisterBank) -> (value: usize)
    ensures
        value == regs.sip,
{
    regs.sip
}

/// Writes `sip`.
pub fn w_sip(regs: &mut RegisterBank, x: usize)
    ensures
        *final(regs) == (RegisterBank { sip: x, ..*old(regs) }),
{
    regs.sip = x;
}

/// Reads `sstatus`.
pub fn r_sstatus(regs: &RegisterBank) -> (value: usize)
    ensures
        value == regs.sstatus,
{
    regs.sstatus
}

/// Reads `satp`.
pub fn r_satp(regs: &RegisterBank) -> (value: usize)
    ensures
        value == regs.satp,
{
    regs.satp
}

/// Writes `sstatus`.
pub fn w_sstatus(regs: &mut RegisterBank, x: usize)
    ensures
        *final(regs) == (RegisterBank { sstatus: x, ..*old(regs) }),
{
    regs.sstatus = x;
}

/// Reads the stack pointer.
pub fn sp(regs: &RegisterBank) -> (value: usize)
    ensures
        value == regs.sp,
{
    regs.sp
}

/// The time in nanoseconds at `mtime` ticks of the machine timer.
pub fn time(mtime: u64) -> (nanos: u64)
    requires
        mtime * NANOS_PER_TICK <= u64::MAX,
    ensures
        nanos == mtime * NANOS_PER_TICK,
{
    mtime * NANOS_PER_TICK
}

} // verus!
