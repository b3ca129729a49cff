use os_exercises::page_table::{
    PageTableNode, Sv39PageTable, TranslateResult, PAGE_SIZE, PTE_R, PTE_V, PTE_W, PTE_X,
    PT_ENTRIES,
};

#[test]
fn test_extract_vpn() {
    // VA = 0x0000_003F_FFFF_F000 (the last page boundary of the 39-bit space)
    let va: u64 = 0x7FFFFFF000;
    assert_eq!(Sv39PageTable::extract_vpn(va, 2), 0x1FF);
    assert_eq!(Sv39PageTable::extract_vpn(va, 1), 0x1FF);
    assert_eq!(Sv39PageTable::extract_vpn(va, 0), 0x1FF);
}

#[test]
fn test_extract_vpn_simple() {
    let va: u64 = 0x1000;
    assert_eq!(Sv39PageTable::extract_vpn(va, 2), 0);
    assert_eq!(Sv39PageTable::extract_vpn(va, 1), 0);
    assert_eq!(Sv39PageTable::extract_vpn(va, 0), 1);
}

#[test]
fn test_extract_vpn_level2() {
    let va: u64 = 0x40000000;
    assert_eq!(Sv39PageTable::extract_vpn(va, 2), 1);
    assert_eq!(Sv39PageTable::extract_vpn(va, 1), 0);
    assert_eq!(Sv39PageTable::extract_vpn(va, 0), 0);
}

#[test]
fn test_map_and_translate_single() {
    let mut pt = Sv39PageTable::new();
    pt.map_page(0x1000, 0x80001000, PTE_V | PTE_R);

    let result = pt.translate(0x1000);
    assert_eq!(result, TranslateResult::Mapped(0x80001000));
}

#[test]
fn test_translate_with_offset() {
    let mut pt = Sv39PageTable::new();
    pt.map_page(0x2000, 0x90000000, PTE_V | PTE_R | PTE_W);

    let result = pt.translate(0x2ABC);
    assert_eq!(result, TranslateResult::Mapped(0x90000ABC));
}

#[test]
fn test_translate_page_fault() {
    let pt = Sv39PageTable::new();
    assert_eq!(pt.translate(0x1000), TranslateResult::PageFault);
}

#[test]
fn test_multiple_mappings() {
    let mut pt = Sv39PageTable::new();
    pt.map_page(0x0000_1000, 0x8000_1000, PTE_V | PTE_R);
    pt.map_page(0x0000_2000, 0x8000_5000, PTE_V | PTE_R | PTE_W);
    pt.map_page(0x0040_0000, 0x9000_0000, PTE_V | PTE_R);

    assert_eq!(pt.translate(0x1234), TranslateResult::Mapped(0x80001234));
    assert_eq!(pt.translate(0x2000), TranslateResult::Mapped(0x80005000));
    assert_eq!(pt.translate(0x400100), TranslateResult::Mapped(0x90000100));
}

#[test]
fn test_map_overwrite() {
    let mut pt = Sv39PageTable::new();
    pt.map_page(0x1000, 0x80001000, PTE_V | PTE_R);
    assert_eq!(pt.translate(0x1000), TranslateResult::Mapped(0x80001000));

    pt.map_page(0x1000, 0x90002000, PTE_V | PTE_R);
    assert_eq!(pt.translate(0x1000), TranslateResult::Mapped(0x90002000));
}

#[test]
fn test_superpage_mapping() {
    let mut pt = Sv39PageTable::new();
    pt.map_superpage(0x200000, 0x80200000, PTE_V | PTE_R | PTE_W);

    assert_eq!(pt.translate(0x200000), TranslateResult::Mapped(0x80200000));
    assert_eq!(pt.translate(0x200ABC), TranslateResult::Mapped(0x80200ABC));
    assert_eq!(pt.translate(0x2FF000), TranslateResult::Mapped(0x802FF000));
}

#[test]
fn test_superpage_and_normal_coexist() {
    let mut pt = Sv39PageTable::new();
    pt.map_superpage(0x0, 0x80000000, PTE_V | PTE_R);
    pt.map_page(0x40000000, 0x90001000, PTE_V | PTE_R);

    assert_eq!(pt.translate(0x100), TranslateResult::Mapped(0x80000100));
    assert_eq!(pt.translate(0x40000000), TranslateResult::Mapped(0x90001000));
}

// ---- further cases ----

#[test]
fn test_constants() {
    assert_eq!(PAGE_SIZE, 4096);
    assert_eq!(PT_ENTRIES, 512);
    assert_eq!(PTE_V, 1);
    assert_eq!(PTE_R, 2);
    assert_eq!(PTE_W, 4);
    assert_eq!(PTE_X, 8);
}

#[test]
fn test_node_new_and_default_are_empty() {
    let node = PageTableNode::new();
    assert!(node.entries.iter().all(|e| *e == 0));
    let node = PageTableNode::default();
    assert_eq!(node.entries.len(), 512);
    assert!(node.entries.iter().all(|e| *e == 0));
}

#[test]
fn test_new_table_root_and_default() {
    let pt = Sv39PageTable::new();
    assert_eq!(pt.root_ppn, 0x80000);
    let pt = Sv39PageTable::default();
    assert_eq!(pt.root_ppn, 0x80000);
    // A fresh table faults everywhere.
    for va in [0u64, 0x1000, 0x200000, 0x40000000, 0x7F_FFFF_F000, u64::MAX] {
        assert_eq!(pt.translate(va), TranslateResult::PageFault);
    }
}

#[test]
fn test_extract_vpn_mixed_levels() {
    // VPN[2] = 0x1A5, VPN[1] = 0x0F0, VPN[0] = 0x10B, offset 0x123.
    let va: u64 = (0x1A5 << 30) | (0x0F0 << 21) | (0x10B << 12) | 0x123;
    assert_eq!(Sv39PageTable::extract_vpn(va, 2), 0x1A5);
    assert_eq!(Sv39PageTable::extract_vpn(va, 1), 0x0F0);
    assert_eq!(Sv39PageTable::extract_vpn(va, 0), 0x10B);
    // Bits above bit 38 do not belong to any level-2 index.
    assert_eq!(Sv39PageTable::extract_vpn(va | (1 << 39), 2), 0x1A5);
    // Levels above 2 read the higher bits.
    assert_eq!(Sv39PageTable::extract_vpn(1 << 39, 3), 1);
}

#[test]
fn test_other_pages_still_fault() {
    let mut pt = Sv39PageTable::new();
    pt.map_page(0x5000, 0xA000_0000, PTE_V | PTE_R);
    assert_eq!(pt.translate(0x4FFF), TranslateResult::PageFault);
    assert_eq!(pt.translate(0x6000), TranslateResult::PageFault);
    assert_eq!(pt.translate(0x5FFF), TranslateResult::Mapped(0xA000_0FFF));
    // Same page numbers, different bits above bit 38: the same page.
    assert_eq!(pt.translate(0x5010 | (1 << 40)), TranslateResult::Mapped(0xA000_0010));
}

#[test]
fn test_mapping_without_rwx_faults() {
    let mut pt = Sv39PageTable::new();
    pt.map_page(0x3000, 0x8000_3000, PTE_V);
    assert_eq!(pt.translate(0x3000), TranslateResult::PageFault);
}

#[test]
fn test_pa_offset_bits_are_dropped() {
    let mut pt = Sv39PageTable::new();
    // The low 12 bits of the physical address do not reach the entry.
    pt.map_page(0x7000, 0x8000_7FFF, PTE_V | PTE_X);
    assert_eq!(pt.translate(0x7001), TranslateResult::Mapped(0x8000_7001));
}

#[test]
fn test_high_flag_bits_join_the_page_number() {
    let mut pt = Sv39PageTable::new();
    // Bit 10 of the flags is bit 0 of the page number.
    pt.map_page(0x1000, 0x8000_0000, PTE_V | PTE_R | (1 << 10));
    assert_eq!(pt.translate(0x1004), TranslateResult::Mapped(0x8000_1004));
}

#[test]
fn test_superpage_then_page_elsewhere_in_same_root_entry() {
    let mut pt = Sv39PageTable::new();
    pt.map_superpage(0x0, 0x8000_0000, PTE_V | PTE_R | PTE_W);
    // Another 2 MiB region under the same level-2 entry.
    pt.map_page(0x20_0000, 0x9000_0000, PTE_V | PTE_R);
    assert_eq!(pt.translate(0x1F_FFFF), TranslateResult::Mapped(0x801F_FFFF));
    assert_eq!(pt.translate(0x20_0123), TranslateResult::Mapped(0x9000_0123));
    assert_eq!(pt.translate(0x20_1000), TranslateResult::PageFault);
}

#[test]
fn test_superpage_replaces_pages_below_it() {
    let mut pt = Sv39PageTable::new();
    pt.map_page(0x40_1000, 0x9000_1000, PTE_V | PTE_R);
    pt.map_superpage(0x40_0000, 0xA020_0000, PTE_V | PTE_R);
    assert_eq!(pt.translate(0x40_1000), TranslateResult::Mapped(0xA020_1000));
}

#[test]
fn test_distinct_pages_commute() {
    let mut a = Sv39PageTable::new();
    a.map_page(0x1000, 0x8000_1000, PTE_V | PTE_R);
    a.map_page(0x2000, 0x8000_2000, PTE_V | PTE_W);
    let mut b = Sv39PageTable::new();
    b.map_page(0x2000, 0x8000_2000, PTE_V | PTE_W);
    b.map_page(0x1000, 0x8000_1000, PTE_V | PTE_R);
    for va in [0x1000u64, 0x1ABC, 0x2000, 0x2FFF, 0x3000] {
        assert_eq!(a.translate(va), b.translate(va));
    }
}

#[test]
fn test_last_mapping_wins_for_any_address_in_page() {
    let mut pt = Sv39PageTable::new();
    pt.map_page(0x9000, 0x1111_1000, PTE_V | PTE_R);
    pt.map_page(0x9FFF, 0x2222_2000, PTE_V | PTE_R);
    assert_eq!(pt.translate(0x9000), TranslateResult::Mapped(0x2222_2000));
}

#[test]
fn test_root_ppn_getter() {
    let mut pt = Sv39PageTable::new();
    assert_eq!(pt.root_ppn(), 0x80000);
    pt.map_page(0x1000, 0x8000_1000, PTE_V | PTE_R);
    pt.map_superpage(0x40_0000, 0x8020_0000, PTE_V | PTE_R);
    assert_eq!(pt.root_ppn(), 0x80000);
    assert_eq!(pt.root_ppn(), pt.root_ppn);
}

#[test]
fn test_map_page_ignores_low_bits() {
    let mut a = Sv39PageTable::new();
    a.map_page(0x3ABC, 0x8000_5DEF, PTE_V | PTE_R);
    let mut b = Sv39PageTable::new();
    b.map_page(0x3000, 0x8000_5000, PTE_V | PTE_R);
    for va in [0x3000u64, 0x3ABC, 0x3FFF, 0x4000, 0x2FFF] {
        assert_eq!(a.translate(va), b.translate(va));
    }
}
