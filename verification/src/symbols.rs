//! Fixed numbers of the platform and the layout of the kernel image.

use vstd::prelude::*;

verus! {

/// Number of address bits inside one page.
pub const PAGE_ORDER: usize = 12;

/// Size of one page in bytes.
pub const PAGE_SIZE: usize = 4096;

/// Number of harts that the kernel keeps a trap-context record for.
pub const NCPU: usize = 8;

/// First address of the register window of the UART.
pub const UART_BASE_ADDR: usize = 0x1000_0000;

/// First address of the window of the core-local interrupt controller.
pub const CLINT_START: usize = 0x0200_0000;

/// End of the window of the core-local interrupt controller.
pub const CLINT_END: usize = 0x0200_ffff;

/// First address of the priority and pending window of the platform
/// interrupt controller.
pub const PLIC_START: usize = 0x0c00_0000;

/// End of the priority and pending window of the platform interrupt
/// controller.
pub const PLIC_END: usize = 0x0c00_2000;

/// First address of the context window of the platform interrupt controller.
pub const PLIC_CONTEXT_START: usize = 0x0c20_0000;

/// End of the context window of the platform interrupt controller.
pub const PLIC_CONTEXT_END: usize = 0x0c20_8000;

/// The addressing mode that the kernel turns on: page-based, 39 bits.
pub const SATP_MODE_SV39: usize = 8;

/// The virtual address of the trampoline page: the topmost page of the
/// 39-bit address space.
pub open spec fn trampoline_start() -> int {
    0x3f_ffff_f000
}

/// The first address of the page that holds `addr`.
pub open spec fn page_base(addr: int) -> int {
    addr - addr % (PAGE_SIZE as int)
}

/// The virtual address of the trampoline page, which only a 64-bit machine
/// has.
pub fn trampoline_addr() -> (addr: usize)
    requires
        usize::BITS == 64,
    ensures
        addr == trampoline_start(),
{
    0x3f_ffff_f000u64 as usize
}

/// Where the sections of the kernel image and the heap lie, as the linker
/// placed them. Each section reaches from its start up to, but not including,
/// its end.
#[derive(Clone, Copy, Debug, PartialEq, Eq, Structural)]
pub struct KernelLayout {
    pub text_start: usize,
    pub text_end: usize,
    pub rodata_start: usize,
    pub rodata_end: usize,
    pub data_start: usize,
    pub data_end: usize,
    pub bss_start: usize,
    pub bss_end: usize,
    pub kernel_stack_start: usize,
    pub kernel_stack_end: usize,
    pub heap_start: usize,
    pub heap_size: usize,
    /// Where the code of the trampoline page lies in physical memory.
    pub trampoline_text_start: usize,
}

} // verus!
