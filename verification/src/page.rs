//! The kernel's address space as the boot code builds it: which page of
//! virtual memory is mapped to which frame of physical memory, and with what
//! permissions.

use std::collections::HashMap;
use vstd::prelude::*;
use crate::mem::page_down;
use crate::symbols::{page_base, PAGE_SIZE};

verus! {

broadcast use vstd::std_specs::hash::group_hash_axioms;

/// The permission bundles that a mapping can carry. A caller picks the bundle
/// that fits the use of the memory; there is no other way to compose one.
#[derive(Clone, Copy, Debug, PartialEq, Eq, Structural)]
pub enum EntryAttributes {
    /// Read and execute: code and constant data.
    RX,
    /// Read and write: data, stacks, the heap and device windows.
    RW,
}

impl EntryAttributes {
    /// Whether the bundle lets the page be read.
    pub open spec fn can_read(self) -> bool {
        true
    }

    /// Whether the bundle lets the page be written.
    pub open spec fn can_write(self) -> bool {
        self == EntryAttributes::RW
    }

    /// Whether the bundle lets code be fetched from the page.
    pub open spec fn can_execute(self) -> bool {
        self == EntryAttributes::RX
    }

    /// The permission bits of a page-table entry: read is bit 1, write is bit
    /// 2, execute is bit 3.
    pub open spec fn spec_bits(self) -> usize {
        match self {
            EntryAttributes::RX => 0xa,
            EntryAttributes::RW => 0x6,
        }
    }

    /// The permission bits of a page-table entry.
    pub fn bits(self) -> (b: usize)
        ensures
            b == self.spec_bits(),
            (b & 0x2 != 0) == self.can_read(),
            (b & 0x4 != 0) == self.can_write(),
            (b & 0x8 != 0) == self.can_execute(),
    {
        assert(0xausize & 0x2 != 0 && 0xausize & 0x4 == 0 && 0xausize & 0x8 != 0) by (bit_vector);
        assert(0x6usize & 0x2 != 0 && 0x6usize & 0x4 != 0 && 0x6usize & 0x8 == 0) by (bit_vector);
        match self {
            EntryAttributes::RX => 0xa,
            EntryAttributes::RW => 0x6,
        }
    }
}

/// What one page is mapped to.
#[derive(Clone, Copy, Debug, PartialEq, Eq, Structural)]
pub struct Entry {
    /// The first address of the frame.
    pub frame: usize,
    /// What the mapping permits.
    pub attributes: EntryAttributes,
    /// The address space that the mapping was made for.
    pub asid: usize,
}

/// What a virtual address resolves to.
#[derive(Clone, Copy, Debug, PartialEq, Eq, Structural)]
pub struct Translation {
    /// The physical address.
    pub paddr: usize,
    /// What the mapping permits.
    pub attributes: EntryAttributes,
    /// The address space that the mapping was made for.
    pub asid: usize,
}

/// One step in the making of a table: the page at `vaddr` gets `entry`.
#[derive(Clone, Copy, Debug, PartialEq, Eq, Structural)]
pub struct Mapping {
    /// The first address of the page.
    pub vaddr: usize,
    /// What the page is mapped to.
    pub entry: Entry,
}

/// The mappings that result when the steps of `log` are made in order, a
/// later step replacing an earlier one for the same page.
pub open spec fn replayed(log: Seq<Mapping>) -> Map<usize, Entry>
    decreases log.len(),
{
    if log.len() == 0 {
        Map::empty()
    } else {
        replayed(log.drop_last()).insert(log.last().vaddr, log.last().entry)
    }
}

/// The step that maps the page at `vaddr` to the frame at the same address,
/// for address space 0.
pub open spec fn identity_step(vaddr: int, attributes: EntryAttributes) -> Mapping {
    Mapping {
        vaddr: vaddr as usize,
        entry: Entry { frame: vaddr as usize, attributes, asid: 0 },
    }
}

/// The identity steps for `count` pages in a row, the first one at `first`.
pub open spec fn identity_run(first: int, count: int, attributes: EntryAttributes) -> Seq<Mapping> {
    Seq::new(count as nat, |k: int| identity_step(first + k * PAGE_SIZE, attributes))
}

/// The first page boundary that is not below `start`.
pub open spec fn first_page(start: int) -> int {
    page_base(start + PAGE_SIZE - 1)
}

/// The number of pages that start in `[start, end)`.
pub open spec fn page_count(start: int, end: int) -> int {
    if first_page(start) < end {
        (end - first_page(start) - 1) / (PAGE_SIZE as int) + 1
    } else {
        0
    }
}

/// The identity steps for the pages that start in `[start, end)`, from the
/// lowest page up.
pub open spec fn identity_steps(start: int, end: int, attributes: EntryAttributes) -> Seq<Mapping> {
    identity_run(first_page(start), page_count(start, end), attributes)
}

/// The mappings `m`, and over them an identity mapping with `attributes` for
/// every page that starts in `[start, end)`.
pub open spec fn identity_mapped(
    m: Map<usize, Entry>,
    start: int,
    end: int,
    attributes: EntryAttributes,
) -> Map<usize, Entry> {
    Map::new(
        |va: usize| m.contains_key(va) || (start <= va < end && va % PAGE_SIZE == 0),
        |va: usize|
            if start <= va < end && va % PAGE_SIZE == 0 {
                Entry { frame: va, attributes, asid: 0 }
            } else {
                m[va]
            },
    )
}

/// What `vaddr` resolves to under the mappings `m`: the frame that its page
/// is mapped to, at the same offset inside the page.
pub open spec fn resolved(m: Map<usize, Entry>, vaddr: int) -> Option<Translation> {
    let va = page_base(vaddr) as usize;
    if m.contains_key(va) {
        Some(
            Translation {
                paddr: (m[va].frame + vaddr % (PAGE_SIZE as int)) as usize,
                attributes: m[va].attributes,
                asid: m[va].asid,
            },
        )
    } else {
        None
    }
}

/// An identity mapping of a range resolves every address whose page starts
/// in the range to itself, with the attributes of the mapping and for address
/// space 0. Where the range starts on a page boundary these are all its
/// addresses.
pub proof fn lemma_identity_mapped_resolves(
    m: Map<usize, Entry>,
    start: int,
    end: int,
    attributes: EntryAttributes,
    vaddr: usize,
)
    requires
        start <= page_base(vaddr as int) < end,
    ensures
        resolved(identity_mapped(m, start, end, attributes), vaddr as int) == Some(
            Translation { paddr: vaddr, attributes, asid: 0 },
        ),
        start % (PAGE_SIZE as int) == 0 ==> forall|a: int|
            start <= a < end ==> start <= #[trigger] page_base(a) < end,
{
}

/// An identity mapping of a range changes nothing for an address whose page
/// does not start in the range.
pub proof fn lemma_identity_mapped_keeps(
    m: Map<usize, Entry>,
    start: int,
    end: int,
    attributes: EntryAttributes,
    vaddr: usize,
)
    requires
        !(start <= page_base(vaddr as int) < end),
    ensures
        resolved(identity_mapped(m, start, end, attributes), vaddr as int) == resolved(
            m,
            vaddr as int,
        ),
{
}

/// One more page at the upper end of an identity mapping.
proof fn lemma_identity_mapped_grows(
    m: Map<usize, Entry>,
    start: int,
    va: usize,
    attributes: EntryAttributes,
)
    requires
        va % PAGE_SIZE == 0,
        start <= va,
    ensures
        identity_mapped(m, start, va as int, attributes).insert(
            va,
            Entry { frame: va, attributes, asid: 0 },
        ) == identity_mapped(m, start, va + PAGE_SIZE, attributes),
{
    assert(identity_mapped(m, start, va as int, attributes).insert(
        va,
        Entry { frame: va, attributes, asid: 0 },
    ) =~= identity_mapped(m, start, va + PAGE_SIZE, attributes));
}

/// Where no page starts in `[start, end)` an identity mapping of that range
/// changes nothing and has no steps.
proof fn lemma_no_page(m: Map<usize, Entry>, start: usize, end: usize, attributes: EntryAttributes)
    requires
        start >= end || start > usize::MAX - (PAGE_SIZE - 1) || first_page(start as int) >= end,
    ensures
        identity_mapped(m, start as int, end as int, attributes) == m,
        identity_steps(start as int, end as int, attributes) == Seq::<Mapping>::empty(),
{
    assert(first_page(start as int) >= end);
    assert(identity_mapped(m, start as int, end as int, attributes) =~= m);
    assert(identity_steps(start as int, end as int, attributes) =~= Seq::<Mapping>::empty());
}

/// An identity mapping reaches as far as the last page that starts in it.
proof fn lemma_all_pages(m: Map<usize, Entry>, start: int, end: int, attributes: EntryAttributes)
    requires
        first_page(start) < end,
    ensures
        identity_mapped(
            m,
            start,
            first_page(start) + page_count(start, end) * PAGE_SIZE,
            attributes,
        ) == identity_mapped(m, start, end, attributes),
{
    let reach = first_page(start) + page_count(start, end) * PAGE_SIZE;
    assert(reach % (PAGE_SIZE as int) == 0 && reach - PAGE_SIZE < end <= reach);
    assert(identity_mapped(m, start, reach, attributes) =~= identity_mapped(
        m,
        start,
        end,
        attributes,
    ));
}

/// One more step at the end of a run of identity steps.
proof fn lemma_identity_run_grows(first: int, count: int, attributes: EntryAttributes)
    requires
        0 <= count,
    ensures
        identity_run(first, count, attributes).push(
            identity_step(first + count * PAGE_SIZE, attributes),
        ) == identity_run(first, count + 1, attributes),
{
    assert(identity_run(first, count, attributes).push(
        identity_step(first + count * PAGE_SIZE, attributes),
    ) =~= identity_run(first, count + 1, attributes));
}

/// The root table of an address space.
pub struct Table {
    root: usize,
    entries: HashMap<usize, Entry>,
    log: Vec<Mapping>,
}

impl Table {
    /// The mappings, from the first address of a page to what it is mapped to.
    pub closed spec fn view(&self) -> Map<usize, Entry> {
        self.entries@
    }

    /// The physical address of the root table.
    pub closed spec fn spec_root(&self) -> usize {
        self.root
    }

    /// The physical address of the root table.
    #[verifier::when_used_as_spec(spec_root)]
    pub fn root(&self) -> (addr: usize)
        ensures
            addr == self.root(),
    {
        self.root
    }

    /// The steps by which the table was made, in order.
    pub closed spec fn log(&self) -> Seq<Mapping> {
        self.log@
    }

    /// Every mapped page and every frame starts on a page boundary, and the
    /// mappings are what the steps of the log give.
    pub open spec fn wf(&self) -> bool {
        &&& forall|va: usize| #[trigger]
            self@.contains_key(va) ==> va % PAGE_SIZE == 0 && self@[va].frame % PAGE_SIZE == 0
        &&& self@ == replayed(self.log())
    }

    /// A table at the physical address `root` that maps nothing.
    pub fn new(root: usize) -> (table: Self)
        ensures
            table.wf(),
            table.root() == root,
            table@ == Map::<usize, Entry>::empty(),
    {
        Table { root, entries: HashMap::new(), log: Vec::new() }
    }

    /// The steps by which the table was made. Whoever writes the table that
    /// the hardware walks makes them again there, in this order.
    pub fn mappings(&self) -> (log: &Vec<Mapping>)
        requires
            self.wf(),
        ensures
            log@ == self.log(),
            replayed(log@) == self@,
    {
        &self.log
    }

    /// Notes the step and makes it.
    fn insert(&mut self, vaddr: usize, entry: Entry)
        requires
            old(self).wf(),
            vaddr % PAGE_SIZE == 0,
            entry.frame % PAGE_SIZE == 0,
        ensures
            final(self).wf(),
            final(self).root() == old(self).root(),
            final(self)@ == old(self)@.insert(vaddr, entry),
            final(self).log() == old(self).log().push(Mapping { vaddr, entry }),
    {
        self.entries.insert(vaddr, entry);
        self.log.push(Mapping { vaddr, entry });
        assert(self.log@.drop_last() =~= old(self).log@);
    }

    /// Maps the page that holds `vaddr` to the frame that holds `paddr`, in
    /// place of what that page was mapped to before.
    pub fn map(&mut self, vaddr: usize, paddr: usize, attributes: EntryAttributes, asid: usize)
        requires
            old(self).wf(),
        ensures
            final(self).wf(),
            final(self).root() == old(self).root(),
            final(self)@ == old(self)@.insert(
                page_base(vaddr as int) as usize,
                Entry { frame: page_base(paddr as int) as usize, attributes, asid },
            ),
            final(self).log() == old(self).log().push(
                Mapping {
                    vaddr: page_base(vaddr as int) as usize,
                    entry: Entry { frame: page_base(paddr as int) as usize, attributes, asid },
                },
            ),
    {
        let va = page_down(vaddr);
        let frame = page_down(paddr);
        self.insert(va, Entry { frame, attributes, asid });
    }

    /// Maps every page that starts in `[start, end)` to the frame at the same
    /// address, for address space 0.
    pub fn id_map_range(&mut self, start: usize, end: usize, attributes: EntryAttributes)
        requires
            old(self).wf(),
        ensures
            final(self).wf(),
            final(self).root() == old(self).root(),
            final(self)@ == identity_mapped(old(self)@, start as int, end as int, attributes),
            final(self).log() == old(self).log() + identity_steps(
                start as int,
                end as int,
                attributes,
            ),
    {
        let ghost before = self@;
        let ghost steps = self.log();
        if start >= end || start > usize::MAX - (PAGE_SIZE - 1) {
            proof {
                lemma_no_page(before, start, end, attributes);
                assert(steps =~= steps + Seq::<Mapping>::empty());
            }
            return ;
        }
        let first = page_down(start + (PAGE_SIZE - 1));
        assert(first == first_page(start as int));
        if first >= end {
            proof {
                lemma_no_page(before, start, end, attributes);
                assert(steps =~= steps + Seq::<Mapping>::empty());
            }
            return ;
        }
        let count = (end - first - 1) / PAGE_SIZE + 1;
        let mut k: usize = 0;
        proof {
            lemma_no_page(before, start, first, attributes);
            assert(steps =~= steps + identity_run(first as int, 0, attributes));
        }
        while k < count
            invariant
                k <= count,
                first % PAGE_SIZE == 0,
                start <= first < end,
                count == (end - first - 1) / (PAGE_SIZE as int) + 1,
                self.wf(),
                self.root() == old(self).root(),
                self@ == identity_mapped(before, start as int, first + k * PAGE_SIZE, attributes),
                self.log() == steps + identity_run(first as int, k as int, attributes),
            decreases count - k,
        {
            let va = first + k * PAGE_SIZE;
            self.insert(va, Entry { frame: va, attributes, asid: 0 });
            proof {
                lemma_identity_mapped_grows(before, start as int, va, attributes);
                lemma_identity_run_grows(first as int, k as int, attributes);
                assert(self.log() =~= steps + identity_run(first as int, k + 1, attributes));
            }
            k += 1;
        }
        proof {
            lemma_all_pages(before, start as int, end as int, attributes);
        }
    }

    /// Resolves a virtual address: the physical address that it stands for,
    /// what its mapping permits and the address space it was made for, or
    /// `None` where its page is not mapped.
    pub fn resolve(&self, vaddr: usize) -> (r: Option<Translation>)
        requires
            self.wf(),
        ensures
            r == resolved(self@, vaddr as int),
    {
        let va = page_down(vaddr);
        assert(va == page_base(vaddr as int));
        match self.entries.get(&va) {
            Some(entry) => {
                let frame = entry.frame;
                let offset = vaddr - va;
                assert(self@.contains_key(va) && self@[va] == *entry);
                assert(offset == vaddr % PAGE_SIZE);
                assert(frame % 4096 == 0 && offset < 4096 ==> frame + offset == (frame
                    | offset) as int) by (bit_vector);
                Some(
                    Translation {
                        paddr: frame + offset,
                        attributes: entry.attributes,
                        asid: entry.asid,
                    },
                )
            },
            None => None,
        }
    }
}

} // verus!
