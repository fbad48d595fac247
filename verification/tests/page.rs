use kernel::page::Entry;
use kernel::page::EntryAttributes;
use kernel::page::Mapping;
use kernel::page::Table;
use kernel::page::Translation;

#[test]
fn new_table_maps_nothing() {
    let table = Table::new(0x8020_0000);
    assert_eq!(table.root(), 0x8020_0000);
    assert_eq!(table.resolve(0), None);
    assert_eq!(table.resolve(0x8000_0000), None);
}

#[test]
fn map_maps_one_page_to_one_frame() {
    let mut table = Table::new(0);
    table.map(0x3f_ffff_f000, 0x8000_1000, EntryAttributes::RX, 0);
    assert_eq!(
        table.resolve(0x3f_ffff_f000),
        Some(Translation { paddr: 0x8000_1000, attributes: EntryAttributes::RX, asid: 0 })
    );
    assert_eq!(
        table.resolve(0x3f_ffff_f123),
        Some(Translation { paddr: 0x8000_1123, attributes: EntryAttributes::RX, asid: 0 })
    );
    assert_eq!(
        table.resolve(0x3f_ffff_ffff),
        Some(Translation { paddr: 0x8000_1fff, attributes: EntryAttributes::RX, asid: 0 })
    );
    assert_eq!(table.resolve(0x3f_ffff_efff), None);
    assert_eq!(table.resolve(0x40_0000_0000), None);
    assert_eq!(table.resolve(0x8000_1000), None);
}

#[test]
fn map_takes_the_page_and_the_frame_that_hold_the_addresses() {
    let mut table = Table::new(0);
    table.map(0x1000_0123, 0x2000_0456, EntryAttributes::RW, 0);
    assert_eq!(
        table.resolve(0x1000_0000),
        Some(Translation { paddr: 0x2000_0000, attributes: EntryAttributes::RW, asid: 0 })
    );
    assert_eq!(
        table.resolve(0x1000_0fff),
        Some(Translation { paddr: 0x2000_0fff, attributes: EntryAttributes::RW, asid: 0 })
    );
}

#[test]
fn map_replaces_an_earlier_mapping_of_the_page() {
    let mut table = Table::new(0);
    table.map(0x5000, 0x9000, EntryAttributes::RW, 0);
    table.map(0x5000, 0xa000, EntryAttributes::RX, 0);
    assert_eq!(
        table.resolve(0x5010),
        Some(Translation { paddr: 0xa010, attributes: EntryAttributes::RX, asid: 0 })
    );
}

#[test]
fn id_map_range_maps_each_page_to_itself() {
    let mut table = Table::new(0);
    table.id_map_range(0x8000_0000, 0x8000_3000, EntryAttributes::RX);
    assert_eq!(table.resolve(0x7fff_ffff), None);
    for addr in [0x8000_0000usize, 0x8000_0001, 0x8000_0fff, 0x8000_1000, 0x8000_2abc, 0x8000_2fff] {
        assert_eq!(
            table.resolve(addr),
            Some(Translation { paddr: addr, attributes: EntryAttributes::RX, asid: 0 })
        );
    }
    assert_eq!(table.resolve(0x8000_3000), None);
}

#[test]
fn id_map_range_maps_the_pages_that_start_inside_the_range() {
    let mut table = Table::new(0);
    table.id_map_range(0x0200_0000, 0x0200_ffff, EntryAttributes::RW);
    assert_eq!(
        table.resolve(0x0200_f000),
        Some(Translation { paddr: 0x0200_f000, attributes: EntryAttributes::RW, asid: 0 })
    );
    assert_eq!(
        table.resolve(0x0200_ffff),
        Some(Translation { paddr: 0x0200_ffff, attributes: EntryAttributes::RW, asid: 0 })
    );
    assert_eq!(table.resolve(0x0201_0000), None);

    let mut table = Table::new(0);
    table.id_map_range(0x5001, 0x7001, EntryAttributes::RW);
    assert_eq!(table.resolve(0x5001), None);
    assert_eq!(table.resolve(0x5fff), None);
    assert_eq!(
        table.resolve(0x6000),
        Some(Translation { paddr: 0x6000, attributes: EntryAttributes::RW, asid: 0 })
    );
    assert_eq!(
        table.resolve(0x7000),
        Some(Translation { paddr: 0x7000, attributes: EntryAttributes::RW, asid: 0 })
    );
    assert_eq!(
        table.resolve(0x7fff),
        Some(Translation { paddr: 0x7fff, attributes: EntryAttributes::RW, asid: 0 })
    );
    assert_eq!(table.resolve(0x8000), None);
}

#[test]
fn id_map_range_of_an_empty_range_maps_nothing() {
    let mut table = Table::new(0);
    table.id_map_range(0x5000, 0x5000, EntryAttributes::RW);
    table.id_map_range(0x6000, 0x5000, EntryAttributes::RW);
    table.id_map_range(0x5001, 0x5fff, EntryAttributes::RW);
    table.id_map_range(usize::MAX - 10, usize::MAX, EntryAttributes::RW);
    for addr in [0x4fffusize, 0x5000, 0x5001, 0x5fff, 0x6000, usize::MAX - 10, usize::MAX] {
        assert_eq!(table.resolve(addr), None);
    }
}

#[test]
fn id_map_range_reaches_the_last_page_of_the_address_space() {
    let mut table = Table::new(0);
    table.id_map_range(usize::MAX - 0x1fff, usize::MAX, EntryAttributes::RW);
    assert_eq!(
        table.resolve(usize::MAX - 0x1fff),
        Some(Translation { paddr: usize::MAX - 0x1fff, attributes: EntryAttributes::RW, asid: 0 })
    );
    assert_eq!(
        table.resolve(usize::MAX),
        Some(Translation { paddr: usize::MAX, attributes: EntryAttributes::RW, asid: 0 })
    );
    assert_eq!(table.resolve(usize::MAX - 0x2000), None);
}

#[test]
fn later_mapping_wins_over_earlier_one() {
    let mut table = Table::new(0);
    table.id_map_range(0x1000, 0x4000, EntryAttributes::RX);
    table.id_map_range(0x2000, 0x3000, EntryAttributes::RW);
    assert_eq!(table.resolve(0x1000).unwrap().attributes, EntryAttributes::RX);
    assert_eq!(table.resolve(0x2000).unwrap().attributes, EntryAttributes::RW);
    assert_eq!(table.resolve(0x3000).unwrap().attributes, EntryAttributes::RX);
}

#[test]
fn attribute_bits_name_the_permissions() {
    assert_eq!(EntryAttributes::RX.bits(), 0b1010);
    assert_eq!(EntryAttributes::RW.bits(), 0b0110);
}

#[test]
fn resolve_reports_the_address_space_of_the_mapping() {
    let mut table = Table::new(0);
    table.map(0x5000, 0x9000, EntryAttributes::RW, 7);
    table.id_map_range(0x6000, 0x7000, EntryAttributes::RX);
    assert_eq!(
        table.resolve(0x5004),
        Some(Translation { paddr: 0x9004, attributes: EntryAttributes::RW, asid: 7 })
    );
    assert_eq!(
        table.resolve(0x6004),
        Some(Translation { paddr: 0x6004, attributes: EntryAttributes::RX, asid: 0 })
    );
}

#[test]
fn mappings_list_the_steps_in_order() {
    let mut table = Table::new(0);
    assert!(table.mappings().is_empty());
    table.id_map_range(0x1000, 0x3000, EntryAttributes::RX);
    table.map(0x2123, 0x9456, EntryAttributes::RW, 3);
    let rx = EntryAttributes::RX;
    assert_eq!(
        table.mappings(),
        &vec![
            Mapping { vaddr: 0x1000, entry: Entry { frame: 0x1000, attributes: rx, asid: 0 } },
            Mapping { vaddr: 0x2000, entry: Entry { frame: 0x2000, attributes: rx, asid: 0 } },
            Mapping {
                vaddr: 0x2000,
                entry: Entry { frame: 0x9000, attributes: EntryAttributes::RW, asid: 3 },
            },
        ]
    );
}

#[test]
fn mappings_made_again_give_the_same_table() {
    let mut table = Table::new(0);
    table.id_map_range(0x1000, 0x9000, EntryAttributes::RX);
    table.id_map_range(0x4000, 0x6000, EntryAttributes::RW);
    table.map(0x3f_ffff_f000, 0x2000, EntryAttributes::RX, 0);
    table.map(0x5000, 0x7000, EntryAttributes::RX, 1);
    let mut again = Table::new(0);
    for step in table.mappings() {
        again.map(step.vaddr, step.entry.frame, step.entry.attributes, step.entry.asid);
    }
    for page in 0..12usize {
        assert_eq!(again.resolve(page * 0x1000 + 5), table.resolve(page * 0x1000 + 5));
    }
    assert_eq!(again.resolve(0x3f_ffff_f010), table.resolve(0x3f_ffff_f010));
    assert_eq!(again.mappings(), table.mappings());
}
