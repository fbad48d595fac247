//! Early boot-time memory subsystem of a bare-metal RISC-V kernel: the
//! physical frame allocator, the construction of the kernel's address space,
//! and the per-hart register and trap-context bootstrap.
//!
//! Everything here works on explicit state that the caller owns. The code that
//! touches the real machine hands plain values in and carries the results out.

#![allow(unused_imports)]

pub mod arch;
pub mod cpu;
pub mod history;
pub mod mem;
pub mod page;
pub mod symbols;

use vstd::prelude::*;
use crate::arch::{build_satp, lemma_satp_fields, RegisterBank, satp_ppn, satp_value};
use crate::cpu::TrapFrame;
use crate::history::{Call, can_serve, first_fit, lemma_first_fit_unique, table_after};
use crate::mem::{
    align_up, Allocator, dump, fill, fits_at, lemma_allocate_takes_pages,
    lemma_allocated_run_is_live, lemma_deallocate_returns_pages, lemma_run_survives_allocate,
    lemma_run_survives_deallocate, MAX_PAGE, occupied_pages, pages_for, Run,
};
use crate::page::{
    Entry, EntryAttributes, identity_mapped, identity_step, identity_steps,
    lemma_identity_mapped_keeps, lemma_identity_mapped_resolves, Mapping, resolved, Table,
    Translation,
};
use crate::symbols::{
    CLINT_END, CLINT_START, KernelLayout, NCPU, page_base, PAGE_ORDER, PAGE_SIZE, PLIC_CONTEXT_END,
    PLIC_CONTEXT_START, PLIC_END, PLIC_START, SATP_MODE_SV39, trampoline_addr, trampoline_start,
    UART_BASE_ADDR,
};

verus! {

/// The unrecoverable conditions of the boot path. A caller on the real machine
/// reports the condition and idles forever.
#[derive(Clone, Copy, Debug, PartialEq, Eq, Structural)]
pub enum KernelError {
    /// An address that must sit on a page boundary does not.
    Misaligned,
    /// No run of free pages is long enough for the request.
    OutOfMemory,
}

/// What a hart goes on to do when its bring-up is over.
#[derive(Clone, Copy, Debug, PartialEq, Eq, Structural)]
pub enum HartState {
    /// The hart turns address translation on and enters supervisor mode.
    Supervisor,
    /// The hart idles forever.
    Parked,
}

/// The mappings `m`, and over them those of the sections of the kernel
/// image, of the UART and of the trampoline page, in the order in which
/// `kinit` makes them.
#[verifier::opaque]
pub open spec fn image_mappings(m: Map<usize, Entry>, layout: KernelLayout) -> Map<usize, Entry> {
    let m = identity_mapped(
        m,
        layout.text_start as int,
        layout.text_end as int,
        EntryAttributes::RX,
    );
    let m = identity_mapped(
        m,
        layout.rodata_start as int,
        layout.rodata_end as int,
        EntryAttributes::RX,
    );
    let m = identity_mapped(
        m,
        layout.data_start as int,
        layout.data_end as int,
        EntryAttributes::RW,
    );
    let m = identity_mapped(m, layout.bss_start as int, layout.bss_end as int, EntryAttributes::RW);
    let m = identity_mapped(
        m,
        layout.kernel_stack_start as int,
        layout.kernel_stack_end as int,
        EntryAttributes::RW,
    );
    let m = m.insert(UART_BASE_ADDR, uart_step().entry);
    m.insert(trampoline_start() as usize, trampoline_step(layout).entry)
}

/// The mappings `m`, and over them the mappings of the kernel image, the
/// UART, the trampoline, the heap and the interrupt controllers, in the order
/// in which `kinit` makes them.
#[verifier::opaque]
pub open spec fn kernel_mappings(m: Map<usize, Entry>, layout: KernelLayout) -> Map<usize, Entry> {
    let m = identity_mapped(
        image_mappings(m, layout),
        layout.heap_start as int,
        layout.heap_start + layout.heap_size,
        EntryAttributes::RW,
    );
    let m = identity_mapped(m, CLINT_START as int, CLINT_END as int, EntryAttributes::RW);
    let m = identity_mapped(m, PLIC_START as int, PLIC_END as int, EntryAttributes::RW);
    identity_mapped(m, PLIC_CONTEXT_START as int, PLIC_CONTEXT_END as int, EntryAttributes::RW)
}

/// The mappings after `kinit`: those of `kernel_mappings`, and over them the
/// page at `stack`, the kernel stack of the boot hart.
pub open spec fn boot_mappings(
    m: Map<usize, Entry>,
    layout: KernelLayout,
    stack: int,
) -> Map<usize, Entry> {
    identity_mapped(kernel_mappings(m, layout), stack, stack + PAGE_SIZE, EntryAttributes::RW)
}

/// The step that maps the register window of the UART.
pub open spec fn uart_step() -> Mapping {
    identity_step(UART_BASE_ADDR as int, EntryAttributes::RW)
}

/// The step that maps the trampoline page to the page of its code.
pub open spec fn trampoline_step(layout: KernelLayout) -> Mapping {
    Mapping {
        vaddr: trampoline_start() as usize,
        entry: Entry {
            frame: page_base(layout.trampoline_text_start as int) as usize,
            attributes: EntryAttributes::RX,
            asid: 0,
        },
    }
}

/// The steps of `image_mappings`, in order.
pub open spec fn image_steps(layout: KernelLayout) -> Seq<Mapping> {
    (identity_steps(layout.text_start as int, layout.text_end as int, EntryAttributes::RX)
        + identity_steps(layout.rodata_start as int, layout.rodata_end as int, EntryAttributes::RX)
        + identity_steps(layout.data_start as int, layout.data_end as int, EntryAttributes::RW)
        + identity_steps(layout.bss_start as int, layout.bss_end as int, EntryAttributes::RW)
        + identity_steps(
        layout.kernel_stack_start as int,
        layout.kernel_stack_end as int,
        EntryAttributes::RW,
    )).push(uart_step()).push(trampoline_step(layout))
}

/// The steps of `kernel_mappings`, in order.
pub open spec fn kernel_steps(layout: KernelLayout) -> Seq<Mapping> {
    image_steps(layout) + identity_steps(
        layout.heap_start as int,
        layout.heap_start + layout.heap_size,
        EntryAttributes::RW,
    ) + identity_steps(CLINT_START as int, CLINT_END as int, EntryAttributes::RW) + identity_steps(
        PLIC_START as int,
        PLIC_END as int,
        EntryAttributes::RW,
    ) + identity_steps(PLIC_CONTEXT_START as int, PLIC_CONTEXT_END as int, EntryAttributes::RW)
}

/// The steps of `boot_mappings`, in order.
pub open spec fn boot_steps(layout: KernelLayout, stack: int) -> Seq<Mapping> {
    kernel_steps(layout) + identity_steps(stack, stack + PAGE_SIZE, EntryAttributes::RW)
}

/// The page that holds `vaddr` starts in `[start, end)`.
pub open spec fn page_starts_in(vaddr: int, start: int, end: int) -> bool {
    start <= page_base(vaddr) < end
}

/// `vaddr` standing for itself, with `attributes`, in address space 0.
pub open spec fn itself(vaddr: int, attributes: EntryAttributes) -> Option<Translation> {
    Some(Translation { paddr: vaddr as usize, attributes, asid: 0 })
}

/// What `vaddr` resolves to under `image_mappings(m, layout)`. The mappings
/// are gone through from the last one made to the first, since a later one
/// replaces an earlier one: the trampoline page, the UART and the writable
/// sections, the sections of code and constant data, and at last what `m`
/// had.
pub open spec fn image_translation(
    m: Map<usize, Entry>,
    layout: KernelLayout,
    vaddr: int,
) -> Option<Translation> {
    if page_base(vaddr) == trampoline_start() {
        Some(
            Translation {
                paddr: (page_base(layout.trampoline_text_start as int) + vaddr % (
                PAGE_SIZE as int)) as usize,
                attributes: EntryAttributes::RX,
                asid: 0,
            },
        )
    } else if page_base(vaddr) == UART_BASE_ADDR || page_starts_in(
        vaddr,
        layout.kernel_stack_start as int,
        layout.kernel_stack_end as int,
    ) || page_starts_in(vaddr, layout.bss_start as int, layout.bss_end as int) || page_starts_in(
        vaddr,
        layout.data_start as int,
        layout.data_end as int,
    ) {
        itself(vaddr, EntryAttributes::RW)
    } else if page_starts_in(vaddr, layout.rodata_start as int, layout.rodata_end as int)
        || page_starts_in(vaddr, layout.text_start as int, layout.text_end as int) {
        itself(vaddr, EntryAttributes::RX)
    } else {
        resolved(m, vaddr)
    }
}

/// What `vaddr` resolves to under `kernel_mappings(m, layout)`: itself where
/// its page starts in a window of an interrupt controller or in the heap,
/// which are mapped last, and else what `image_translation` says.
pub open spec fn kernel_translation(
    m: Map<usize, Entry>,
    layout: KernelLayout,
    vaddr: int,
) -> Option<Translation> {
    if page_starts_in(vaddr, PLIC_CONTEXT_START as int, PLIC_CONTEXT_END as int) || page_starts_in(
        vaddr,
        PLIC_START as int,
        PLIC_END as int,
    ) || page_starts_in(vaddr, CLINT_START as int, CLINT_END as int) || page_starts_in(
        vaddr,
        layout.heap_start as int,
        layout.heap_start + layout.heap_size,
    ) {
        itself(vaddr, EntryAttributes::RW)
    } else {
        image_translation(m, layout, vaddr)
    }
}

/// What `vaddr` resolves to under `boot_mappings(m, layout, stack)`.
pub open spec fn boot_translation(
    m: Map<usize, Entry>,
    layout: KernelLayout,
    stack: int,
    vaddr: int,
) -> Option<Translation> {
    if page_starts_in(vaddr, stack, stack + PAGE_SIZE) {
        itself(vaddr, EntryAttributes::RW)
    } else {
        kernel_translation(m, layout, vaddr)
    }
}

/// Whether an identity mapping of `[start, end)` decides what `vaddr`
/// resolves to, or leaves it as it was.
proof fn lemma_identity_mapped_decides(
    m: Map<usize, Entry>,
    start: int,
    end: int,
    attributes: EntryAttributes,
    vaddr: usize,
)
    ensures
        resolved(identity_mapped(m, start, end, attributes), vaddr as int) == if page_starts_in(
            vaddr as int,
            start,
            end,
        ) {
            itself(vaddr as int, attributes)
        } else {
            resolved(m, vaddr as int)
        },
{
    if page_starts_in(vaddr as int, start, end) {
        lemma_identity_mapped_resolves(m, start, end, attributes, vaddr);
    } else {
        lemma_identity_mapped_keeps(m, start, end, attributes, vaddr);
    }
}

/// Whether one step decides what `vaddr` resolves to, or leaves it as it was.
proof fn lemma_step_decides(m: Map<usize, Entry>, step: Mapping, vaddr: usize)
    ensures
        resolved(m.insert(step.vaddr, step.entry), vaddr as int) == if page_base(vaddr as int)
            == step.vaddr {
            Some(
                Translation {
                    paddr: (step.entry.frame + vaddr % PAGE_SIZE) as usize,
                    attributes: step.entry.attributes,
                    asid: step.entry.asid,
                },
            )
        } else {
            resolved(m, vaddr as int)
        },
{
}

/// Every address resolves under the mappings of the image to what
/// `image_translation` says, for every layout and whatever was mapped before.
pub proof fn lemma_image_mappings_resolve(m: Map<usize, Entry>, layout: KernelLayout, vaddr: usize)
    requires
        usize::BITS == 64,
    ensures
        resolved(image_mappings(m, layout), vaddr as int) == image_translation(
            m,
            layout,
            vaddr as int,
        ),
{
    reveal(image_mappings);
    let rx = EntryAttributes::RX;
    let rw = EntryAttributes::RW;
    let m1 = identity_mapped(m, layout.text_start as int, layout.text_end as int, rx);
    let m2 = identity_mapped(m1, layout.rodata_start as int, layout.rodata_end as int, rx);
    let m3 = identity_mapped(m2, layout.data_start as int, layout.data_end as int, rw);
    let m4 = identity_mapped(m3, layout.bss_start as int, layout.bss_end as int, rw);
    let m5 = identity_mapped(
        m4,
        layout.kernel_stack_start as int,
        layout.kernel_stack_end as int,
        rw,
    );
    let m6 = m5.insert(UART_BASE_ADDR, uart_step().entry);
    lemma_identity_mapped_decides(m, layout.text_start as int, layout.text_end as int, rx, vaddr);
    lemma_identity_mapped_decides(
        m1,
        layout.rodata_start as int,
        layout.rodata_end as int,
        rx,
        vaddr,
    );
    lemma_identity_mapped_decides(m2, layout.data_start as int, layout.data_end as int, rw, vaddr);
    lemma_identity_mapped_decides(m3, layout.bss_start as int, layout.bss_end as int, rw, vaddr);
    lemma_identity_mapped_decides(
        m4,
        layout.kernel_stack_start as int,
        layout.kernel_stack_end as int,
        rw,
        vaddr,
    );
    lemma_step_decides(m5, uart_step(), vaddr);
    lemma_step_decides(m6, trampoline_step(layout), vaddr);
}

/// Every address resolves under the mappings of the kernel to what
/// `kernel_translation` says, for every layout and whatever was mapped before.
pub proof fn lemma_kernel_mappings_resolve(m: Map<usize, Entry>, layout: KernelLayout, vaddr: usize)
    requires
        usize::BITS == 64,
    ensures
        resolved(kernel_mappings(m, layout), vaddr as int) == kernel_translation(
            m,
            layout,
            vaddr as int,
        ),
{
    reveal(kernel_mappings);
    let rw = EntryAttributes::RW;
    let m0 = image_mappings(m, layout);
    let m1 = identity_mapped(m0, layout.heap_start as int, layout.heap_start + layout.heap_size, rw);
    let m2 = identity_mapped(m1, CLINT_START as int, CLINT_END as int, rw);
    let m3 = identity_mapped(m2, PLIC_START as int, PLIC_END as int, rw);
    lemma_image_mappings_resolve(m, layout, vaddr);
    lemma_identity_mapped_decides(
        m0,
        layout.heap_start as int,
        layout.heap_start + layout.heap_size,
        rw,
        vaddr,
    );
    lemma_identity_mapped_decides(m1, CLINT_START as int, CLINT_END as int, rw, vaddr);
    lemma_identity_mapped_decides(m2, PLIC_START as int, PLIC_END as int, rw, vaddr);
    lemma_identity_mapped_decides(m3, PLIC_CONTEXT_START as int, PLIC_CONTEXT_END as int, rw, vaddr);
}

/// Every address resolves under the mappings after `kinit` to what
/// `boot_translation` says, for every layout and whatever was mapped before.
pub proof fn lemma_boot_mappings_resolve(
    m: Map<usize, Entry>,
    layout: KernelLayout,
    stack: int,
    vaddr: usize,
)
    requires
        usize::BITS == 64,
    ensures
        resolved(boot_mappings(m, layout, stack), vaddr as int) == boot_translation(
            m,
            layout,
            stack,
            vaddr as int,
        ),
{
    lemma_kernel_mappings_resolve(m, layout, vaddr);
    lemma_identity_mapped_decides(
        kernel_mappings(m, layout),
        stack,
        stack + PAGE_SIZE,
        EntryAttributes::RW,
        vaddr,
    );
}

/// The sections of `layout` start on page boundaries, follow one another
/// in the order text, constant data, data, zeroed data, stack, heap, and lie
/// above the device windows and below the trampoline page.
pub open spec fn well_laid_out(layout: KernelLayout) -> bool {
    &&& layout.text_start % PAGE_SIZE == 0
    &&& layout.rodata_start % PAGE_SIZE == 0
    &&& layout.data_start % PAGE_SIZE == 0
    &&& layout.bss_start % PAGE_SIZE == 0
    &&& layout.kernel_stack_start % PAGE_SIZE == 0
    &&& layout.heap_start % PAGE_SIZE == 0
    &&& UART_BASE_ADDR + PAGE_SIZE <= layout.text_start <= layout.text_end
    &&& layout.text_end <= layout.rodata_start <= layout.rodata_end
    &&& layout.rodata_end <= layout.data_start <= layout.data_end
    &&& layout.data_end <= layout.bss_start <= layout.bss_end
    &&& layout.bss_end <= layout.kernel_stack_start <= layout.kernel_stack_end
    &&& layout.kernel_stack_end <= layout.heap_start
    &&& layout.heap_start + layout.heap_size <= trampoline_start()
}

/// What is asked of `vaddr` once the kernel is mapped: an address in a
/// section of the image, in the heap or in a device window stands for itself,
/// with the permissions of its section; an address in the trampoline page
/// stands for the same offset in the page of the trampoline's code; all for
/// address space 0. For any other address nothing is asked.
pub open spec fn expected_translation(layout: KernelLayout, vaddr: int) -> Option<Translation> {
    if layout.text_start <= vaddr < layout.text_end {
        itself(vaddr, EntryAttributes::RX)
    } else if layout.rodata_start <= vaddr < layout.rodata_end {
        itself(vaddr, EntryAttributes::RX)
    } else if layout.data_start <= vaddr < layout.data_end {
        itself(vaddr, EntryAttributes::RW)
    } else if layout.bss_start <= vaddr < layout.bss_end {
        itself(vaddr, EntryAttributes::RW)
    } else if layout.kernel_stack_start <= vaddr < layout.kernel_stack_end {
        itself(vaddr, EntryAttributes::RW)
    } else if layout.heap_start <= vaddr < layout.heap_start + layout.heap_size {
        itself(vaddr, EntryAttributes::RW)
    } else if UART_BASE_ADDR <= vaddr < UART_BASE_ADDR + PAGE_SIZE {
        itself(vaddr, EntryAttributes::RW)
    } else if CLINT_START <= vaddr < CLINT_END {
        itself(vaddr, EntryAttributes::RW)
    } else if PLIC_START <= vaddr < PLIC_END {
        itself(vaddr, EntryAttributes::RW)
    } else if PLIC_CONTEXT_START <= vaddr < PLIC_CONTEXT_END {
        itself(vaddr, EntryAttributes::RW)
    } else if trampoline_start() <= vaddr < trampoline_start() + PAGE_SIZE {
        Some(
            Translation {
                paddr: (page_base(layout.trampoline_text_start as int) + vaddr % (
                PAGE_SIZE as int)) as usize,
                attributes: EntryAttributes::RX,
                asid: 0,
            },
        )
    } else {
        None
    }
}

/// The mappings of the kernel are complete: with a layout whose sections are
/// in order, every address of every section, of the heap, of the device
/// windows and of the trampoline page resolves to what is asked of it,
/// whatever was mapped before. The same holds after `kinit` has mapped the
/// stack of the boot hart at the start of the heap.
pub proof fn lemma_kernel_mappings_complete(
    m: Map<usize, Entry>,
    layout: KernelLayout,
    vaddr: usize,
)
    requires
        usize::BITS == 64,
        well_laid_out(layout),
        expected_translation(layout, vaddr as int) is Some,
    ensures
        resolved(kernel_mappings(m, layout), vaddr as int) == expected_translation(
            layout,
            vaddr as int,
        ),
        PAGE_SIZE <= layout.heap_size ==> resolved(
            boot_mappings(m, layout, layout.heap_start as int),
            vaddr as int,
        ) == expected_translation(layout, vaddr as int),
{
    lemma_kernel_mappings_resolve(m, layout, vaddr);
    lemma_boot_mappings_resolve(m, layout, layout.heap_start as int, vaddr);
}

/// The table of an allocator with every page free.
pub open spec fn free_table() -> Seq<usize> {
    Seq::new(MAX_PAGE as nat, |k: int| 0usize)
}

/// Steps that follow a log can be taken together with the steps before them.
proof fn lemma_steps_follow(log: Seq<Mapping>, done: Seq<Mapping>, next: Seq<Mapping>)
    ensures
        (log + done) + next == log + (done + next),
{
    assert((log + done) + next =~= log + (done + next));
}

/// One step that follows a log can be taken together with the steps before it.
proof fn lemma_step_follows(log: Seq<Mapping>, done: Seq<Mapping>, next: Mapping)
    ensures
        (log + done).push(next) == log + done.push(next),
{
    assert((log + done).push(next) =~= log + done.push(next));
}

/// Maps the sections of the kernel image, the UART and the trampoline page.
fn map_image(pgtable: &mut Table, layout: &KernelLayout)
    requires
        usize::BITS == 64,
        old(pgtable).wf(),
    ensures
        final(pgtable).wf(),
        final(pgtable).root() == old(pgtable).root(),
        final(pgtable)@ == image_mappings(old(pgtable)@, *layout),
        final(pgtable).log() == old(pgtable).log() + image_steps(*layout),
{
    reveal(image_mappings);
    let ghost log = pgtable.log();
    let ghost rx = EntryAttributes::RX;
    let ghost rw = EntryAttributes::RW;
    pgtable.id_map_range(layout.text_start, layout.text_end, EntryAttributes::RX);
    let ghost done = identity_steps(layout.text_start as int, layout.text_end as int, rx);
    pgtable.id_map_range(layout.rodata_start, layout.rodata_end, EntryAttributes::RX);
    proof {
        let next = identity_steps(layout.rodata_start as int, layout.rodata_end as int, rx);
        lemma_steps_follow(log, done, next);
        done = done + next;
    }
    pgtable.id_map_range(layout.data_start, layout.data_end, EntryAttributes::RW);
    proof {
        let next = identity_steps(layout.data_start as int, layout.data_end as int, rw);
        lemma_steps_follow(log, done, next);
        done = done + next;
    }
    pgtable.id_map_range(layout.bss_start, layout.bss_end, EntryAttributes::RW);
    proof {
        let next = identity_steps(layout.bss_start as int, layout.bss_end as int, rw);
        lemma_steps_follow(log, done, next);
        done = done + next;
    }
    pgtable.id_map_range(layout.kernel_stack_start, layout.kernel_stack_end, EntryAttributes::RW);
    proof {
        let next = identity_steps(
            layout.kernel_stack_start as int,
            layout.kernel_stack_end as int,
            rw,
        );
        lemma_steps_follow(log, done, next);
        done = done + next;
    }
    pgtable.map(UART_BASE_ADDR, UART_BASE_ADDR, EntryAttributes::RW, 0);
    proof {
        lemma_step_follows(log, done, uart_step());
        done = done.push(uart_step());
    }
    pgtable.map(trampoline_addr(), layout.trampoline_text_start, EntryAttributes::RX, 0);
    proof {
        lemma_step_follows(log, done, trampoline_step(*layout));
    }
}

/// Maps the image, the heap and the windows of the interrupt controllers.
fn map_kernel(pgtable: &mut Table, layout: &KernelLayout)
    requires
        usize::BITS == 64,
        layout.heap_start + layout.heap_size <= usize::MAX,
        old(pgtable).wf(),
    ensures
        final(pgtable).wf(),
        final(pgtable).root() == old(pgtable).root(),
        final(pgtable)@ == kernel_mappings(old(pgtable)@, *layout),
        final(pgtable).log() == old(pgtable).log() + kernel_steps(*layout),
{
    reveal(kernel_mappings);
    let ghost log = pgtable.log();
    let ghost rw = EntryAttributes::RW;
    map_image(pgtable, layout);
    let ghost done = image_steps(*layout);
    pgtable.id_map_range(
        layout.heap_start,
        layout.heap_start + layout.heap_size,
        EntryAttributes::RW,
    );
    proof {
        let next = identity_steps(
            layout.heap_start as int,
            layout.heap_start + layout.heap_size,
            rw,
        );
        lemma_steps_follow(log, done, next);
        done = done + next;
    }
    pgtable.id_map_range(CLINT_START, CLINT_END, EntryAttributes::RW);
    proof {
        let next = identity_steps(CLINT_START as int, CLINT_END as int, rw);
        lemma_steps_follow(log, done, next);
        done = done + next;
    }
    pgtable.id_map_range(PLIC_START, PLIC_END, EntryAttributes::RW);
    proof {
        let next = identity_steps(PLIC_START as int, PLIC_END as int, rw);
        lemma_steps_follow(log, done, next);
        done = done + next;
    }
    pgtable.id_map_range(PLIC_CONTEXT_START, PLIC_CONTEXT_END, EntryAttributes::RW);
    proof {
        let next = identity_steps(PLIC_CONTEXT_START as int, PLIC_CONTEXT_END as int, rw);
        lemma_steps_follow(log, done, next);
    }
}

/// Brings up the boot hart.
///
/// Resets the allocator to the heap of `layout`, maps the kernel image, the
/// devices, the trampoline and the heap, and builds the translation-control
/// value for the root of `pgtable`. A root that does not sit on a page
/// boundary ends the bring-up at this point, before any register is written.
/// Otherwise `scratch`, the address of the boot hart's trap-context record,
/// goes to `mscratch`; a page is allocated and mapped as the hart's kernel
/// stack; the record gets the translation-control value, the top of the stack
/// and hart id 0; and the translation-control value goes to `satp`.
///
/// The top of the stack is the address behind the stack's page. It resolves,
/// as the page below it does, where the heap goes on behind the stack's page.
///
/// The heap and the pool of the allocator have to end below the top of the
/// address space, on a 64-bit machine.
pub fn kinit(
    layout: &KernelLayout,
    scratch: usize,
    alloc: &mut Allocator,
    pgtable: &mut Table,
    frames: &mut [TrapFrame; NCPU],
    regs: &mut RegisterBank,
) -> (r: Result<HartState, KernelError>)
    requires
        usize::BITS == 64,
        layout.heap_start + layout.heap_size <= usize::MAX,
        layout.heap_start + (PAGE_SIZE - 1) + MAX_PAGE * PAGE_SIZE <= usize::MAX,
        old(pgtable).wf(),
    ensures
        final(alloc).wf(),
        final(alloc).base_addr == align_up(layout.heap_start as int, PAGE_ORDER as nat),
        layout.heap_start <= final(alloc).base_addr < layout.heap_start + PAGE_SIZE,
        final(pgtable).wf(),
        final(pgtable).root() == old(pgtable).root(),
        match r {
            Ok(next) => {
                let stack = final(alloc).base_addr;
                let satp = satp_value(SATP_MODE_SV39 as int, 0, old(pgtable).root() as int);
                &&& next == HartState::Supervisor
                &&& old(pgtable).root() % PAGE_SIZE == 0
                &&& final(alloc).slots() == fill(free_table(), 0, 1, 1)
                &&& final(pgtable)@ == boot_mappings(old(pgtable)@, *layout, stack as int)
                &&& final(pgtable).log() == old(pgtable).log() + boot_steps(*layout, stack as int)
                &&& final(regs).satp == satp
                &&& satp != 0
                &&& *final(regs) == (RegisterBank {
                    mscratch: scratch,
                    satp: final(regs).satp,
                    ..*old(regs)
                })
                &&& final(frames)@ == old(frames)@.update(
                    0,
                    TrapFrame {
                        satp: final(regs).satp,
                        sp: (stack + PAGE_SIZE) as usize,
                        hartid: 0,
                    },
                )
                &&& old(pgtable).root() < 0x100_0000_0000_0000 ==> satp_ppn(satp)
                    == old(pgtable).root() / PAGE_SIZE
                &&& resolved(final(pgtable)@, stack + PAGE_SIZE - 1) == itself(
                    stack + PAGE_SIZE - 1,
                    EntryAttributes::RW,
                )
                &&& stack + PAGE_SIZE < layout.heap_start + layout.heap_size ==> resolved(
                    final(pgtable)@,
                    stack + PAGE_SIZE,
                ) == itself(stack + PAGE_SIZE, EntryAttributes::RW)
            },
            Err(e) => {
                &&& e == KernelError::Misaligned
                &&& old(pgtable).root() % PAGE_SIZE != 0
                &&& final(alloc).slots() == free_table()
                &&& final(pgtable)@ == kernel_mappings(old(pgtable)@, *layout)
                &&& final(pgtable).log() == old(pgtable).log() + kernel_steps(*layout)
                &&& final(frames)@ == old(frames)@
                &&& *final(regs) == *old(regs)
            },
        },
{
    mem::init(alloc, layout.heap_start);
    let ghost log = pgtable.log();
    map_kernel(pgtable, layout);

    let satp_val = match build_satp(SATP_MODE_SV39, 0, pgtable.root()) {
        Ok(satp) => satp,
        Err(e) => {
            return Err(e);
        },
    };
    regs.mscratch = scratch;
    assert(pages_for(1) == 1);
    assert(fits_at(alloc.slots(), 0, 1));
    let stack_addr = match alloc.allocate(1) {
        Ok(addr) => addr,
        Err(e) => {
            // A pool that was reset a moment ago has a free page.
            assert(false);
            return Err(e);
        },
    };
    frames[0] = TrapFrame { satp: satp_val, sp: stack_addr + PAGE_SIZE, hartid: 0 };
    pgtable.id_map_range(stack_addr, stack_addr + PAGE_SIZE, EntryAttributes::RW);
    regs.satp = satp_val;
    proof {
        lemma_steps_follow(
            log,
            kernel_steps(*layout),
            identity_steps(stack_addr as int, stack_addr + PAGE_SIZE, EntryAttributes::RW),
        );
        lemma_boot_mappings_resolve(
            old(pgtable)@,
            *layout,
            stack_addr as int,
            (stack_addr + PAGE_SIZE - 1) as usize,
        );
        lemma_boot_mappings_resolve(
            old(pgtable)@,
            *layout,
            stack_addr as int,
            (stack_addr + PAGE_SIZE) as usize,
        );
        if pgtable.root() < 0x100_0000_0000_0000 {
            lemma_satp_fields(SATP_MODE_SV39 as int, 0, pgtable.root() as int);
        }
    }
    Ok(HartState::Supervisor)
}

/// Brings up a hart other than the boot hart: `scratch`, the address of the
/// hart's trap-context record, goes to `mscratch`, and the record gets the
/// hart's id. The translation-control value and the stack of the record stay
/// as they are, and the hart parks.
pub fn kinit_hart(
    hartid: usize,
    scratch: usize,
    frames: &mut [TrapFrame; NCPU],
    regs: &mut RegisterBank,
) -> (next: HartState)
    requires
        hartid < NCPU,
    ensures
        next == HartState::Parked,
        final(frames)@ == old(frames)@.update(
            hartid as int,
            TrapFrame { hartid, ..old(frames)@[hartid as int] },
        ),
        *final(regs) == (RegisterBank { mscratch: scratch, ..*old(regs) }),
{
    regs.mscratch = scratch;
    let frame = frames[hartid];
    frames[hartid] = TrapFrame { hartid, ..frame };
    HartState::Parked
}


/// The outcome of the allocator's exercise on the table `s0`: whether every
/// request could be served, and the table that is left. The exercise stops at
/// the first request that cannot be served.
pub open spec fn exercised(s0: Seq<usize>) -> (bool, Seq<usize>) {
    let one = Call::Allocate { pages: 1 };
    if !can_serve(s0, Call::Allocate { pages: 64 }) {
        (false, s0)
    } else {
        let s1 = table_after(s0, Call::Allocate { pages: 64 });
        if !can_serve(s1, one) {
            (false, s1)
        } else {
            let s2 = table_after(s1, one);
            if !can_serve(s2, one) {
                (false, s2)
            } else {
                let s3 = table_after(s2, one);
                if !can_serve(s3, one) {
                    (false, s3)
                } else {
                    let s4 = table_after(s3, one);
                    let s5 = table_after(s4, Call::Deallocate { index: first_fit(s3, 1) });
                    if !can_serve(s5, one) {
                        (false, s5)
                    } else {
                        let s6 = table_after(s5, one);
                        if !can_serve(s6, one) {
                            (false, s6)
                        } else {
                            let s7 = table_after(s6, one);
                            if !can_serve(s7, one) {
                                (false, s7)
                            } else {
                                let s8 = table_after(s7, one);
                                (true, table_after(s8, Call::Deallocate { index: first_fit(s2, 1) }))
                            }
                        }
                    }
                }
            }
        }
    }
}

/// Serves one request of the exercise and ties the outcome to `can_serve`
/// and `table_after`.
fn request(alloc: &mut Allocator, size: usize, Ghost(pages): Ghost<int>) -> (r: Result<
    usize,
    KernelError,
>)
    requires
        old(alloc).wf(),
        pages == pages_for(size as int),
        1 <= pages,
    ensures
        final(alloc).wf(),
        final(alloc).base_addr == old(alloc).base_addr,
        match r {
            Ok(addr) => {
                &&& can_serve(old(alloc).slots(), Call::Allocate { pages })
                &&& final(alloc).slots() == table_after(
                    old(alloc).slots(),
                    Call::Allocate { pages },
                )
                &&& addr == old(alloc).addr_of(first_fit(old(alloc).slots(), pages))
                &&& fits_at(old(alloc).slots(), first_fit(old(alloc).slots(), pages), pages)
            },
            Err(e) => {
                &&& e == KernelError::OutOfMemory
                &&& !can_serve(old(alloc).slots(), Call::Allocate { pages })
                &&& final(alloc).slots() == old(alloc).slots()
            },
        },
{
    let r = alloc.allocate(size);
    proof {
        if let Ok(addr) = r {
            lemma_first_fit_unique(old(alloc).slots(), old(alloc).page_of(addr as int), pages);
        }
    }
    r
}

/// Exercises the allocator: takes a run of 64 pages and three single pages,
/// frees the third single page, takes three more single pages, frees the
/// second single page, and lists the runs that are then allocated. In the end
/// 68 pages more are taken than before. Where a request cannot be served the
/// exercise stops there.
pub fn test_alloc(alloc: &mut Allocator) -> (r: Result<Vec<Run>, KernelError>)
    requires
        old(alloc).wf(),
    ensures
        final(alloc).wf(),
        final(alloc).base_addr == old(alloc).base_addr,
        final(alloc).slots() == exercised(old(alloc).slots()).1,
        r is Ok <==> exercised(old(alloc).slots()).0,
        match r {
            Ok(runs) => {
                &&& runs@ == dump(final(alloc).slots(), final(alloc).base_addr as int, 0)
                &&& occupied_pages(final(alloc).slots(), 0) == occupied_pages(
                    old(alloc).slots(),
                    0,
                ) + 68
            },
            Err(e) => e == KernelError::OutOfMemory,
        },
{
    assert(pages_for(262144) == 64 && pages_for(1) == 1);
    let ghost s0 = alloc.slots();
    match request(alloc, 64 * 4096, Ghost(64)) {
        Ok(_) => {},
        Err(e) => {
            return Err(e);
        },
    }
    let ghost s1 = alloc.slots();
    match request(alloc, 1, Ghost(1)) {
        Ok(_) => {},
        Err(e) => {
            return Err(e);
        },
    }
    let ghost s2 = alloc.slots();
    let ptr2 = match request(alloc, 1, Ghost(1)) {
        Ok(ptr) => ptr,
        Err(e) => {
            return Err(e);
        },
    };
    let ghost s3 = alloc.slots();
    let ghost kept = first_fit(s2, 1);
    let ptr = match request(alloc, 1, Ghost(1)) {
        Ok(ptr) => ptr,
        Err(e) => {
            return Err(e);
        },
    };
    let ghost s4 = alloc.slots();
    let ghost freed = first_fit(s3, 1);
    proof {
        lemma_allocated_run_is_live(s2, kept, 1);
        lemma_run_survives_allocate(s3, kept, freed, 1);
        lemma_allocated_run_is_live(s3, freed, 1);
        lemma_run_survives_deallocate(s4, kept, freed);
    }
    alloc.deallocate(ptr);
    let ghost s5 = alloc.slots();
    match request(alloc, 1, Ghost(1)) {
        Ok(_) => {},
        Err(e) => {
            return Err(e);
        },
    }
    let ghost s6 = alloc.slots();
    match request(alloc, 1, Ghost(1)) {
        Ok(_) => {},
        Err(e) => {
            return Err(e);
        },
    }
    let ghost s7 = alloc.slots();
    match request(alloc, 1, Ghost(1)) {
        Ok(_) => {},
        Err(e) => {
            return Err(e);
        },
    }
    let ghost s8 = alloc.slots();
    proof {
        lemma_run_survives_allocate(s5, kept, first_fit(s5, 1), 1);
        lemma_run_survives_allocate(s6, kept, first_fit(s6, 1), 1);
        lemma_run_survives_allocate(s7, kept, first_fit(s7, 1), 1);
        lemma_allocate_takes_pages(s0, first_fit(s0, 64), 64);
        lemma_allocate_takes_pages(s1, first_fit(s1, 1), 1);
        lemma_allocate_takes_pages(s2, kept, 1);
        lemma_allocate_takes_pages(s3, freed, 1);
        lemma_deallocate_returns_pages(s4, freed);
        lemma_allocate_takes_pages(s5, first_fit(s5, 1), 1);
        lemma_allocate_takes_pages(s6, first_fit(s6, 1), 1);
        lemma_allocate_takes_pages(s7, first_fit(s7, 1), 1);
        lemma_deallocate_returns_pages(s8, kept);
    }
    alloc.deallocate(ptr2);
    Ok(alloc.debug())
}

} // verus!
