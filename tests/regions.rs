use memmap_reconcile::coalesce::merge_consecutive_flash_regions;
use memmap_reconcile::model::{
    Access, MemoryDescriptor, MemoryKind, MemoryRegion, RegionAccess, RegionKind,
};
use memmap_reconcile::ordering::sort_by_address;
use memmap_reconcile::reconcile::build_memory_map;
use memmap_reconcile::region::build_region;

fn desc(name: &str, address: u64, size: u64, kind: MemoryKind) -> MemoryDescriptor {
    MemoryDescriptor { name: name.to_string(), address, size, kind, access: None }
}

fn cores() -> Vec<String> {
    vec!["main".to_string()]
}

fn nvm(name: &str, start: u64, end: u64) -> MemoryRegion {
    MemoryRegion {
        kind: RegionKind::Nvm,
        name: Some(name.to_string()),
        start,
        end,
        access: None,
        cores: vec![],
        is_alias: false,
    }
}

#[test]
fn split_bank_is_coalesced_and_gap_kept_apart() {
    let ds = vec![
        desc("BANK1_REGION_0", 0x0800_0000, 0x4000, MemoryKind::Flash),
        desc("BANK1_REGION_1", 0x0800_4000, 0x4000, MemoryKind::Flash),
        desc("BANK1_REGION_2", 0x0800_9000, 0x1000, MemoryKind::Flash),
    ];
    let map = build_memory_map(&ds, "STM32F405RGTx", &cores());
    assert_eq!(map.len(), 2);
    assert_eq!(map[0].kind, RegionKind::Nvm);
    assert_eq!(map[0].name.as_deref(), Some("BANK1"));
    assert_eq!((map[0].start, map[0].end), (0x0800_0000, 0x0800_8000));
    assert_eq!(map[1].start, 0x0800_9000);
    assert_eq!(map[1].end, 0x0800_A000);
}

#[test]
fn coalescing_stops_at_ram_and_other_banks() {
    let mut map = vec![
        nvm("BANK1_REGION_0", 0, 0x100),
        MemoryRegion {
            kind: RegionKind::Ram,
            name: Some("BANK1_REGION_1".to_string()),
            start: 0x100,
            end: 0x200,
            access: None,
            cores: vec![],
            is_alias: false,
        },
        nvm("BANK2_REGION_0", 0x200, 0x300),
        nvm("BANK3_REGION_0", 0x300, 0x400),
        nvm("FLASH", 0x400, 0x500),
    ];
    merge_consecutive_flash_regions(&mut map);
    let names: Vec<Option<String>> = map.iter().map(|r| r.name.clone()).collect();
    assert_eq!(
        names,
        vec![
            Some("BANK1".to_string()),
            Some("BANK1_REGION_1".to_string()),
            Some("BANK2".to_string()),
            Some("BANK3".to_string()),
            Some("FLASH".to_string()),
        ]
    );
    assert_eq!(map[0].end, 0x100);
}

#[test]
fn unnamed_region_does_not_extend_a_bank() {
    let mut map = vec![nvm("B_REGION_0", 0, 0x10), nvm("B_REGION_1", 0x10, 0x20)];
    map.push(MemoryRegion { name: None, ..nvm("x", 0x20, 0x30) });
    merge_consecutive_flash_regions(&mut map);
    assert_eq!(map.len(), 2);
    assert_eq!(map[0].name.as_deref(), Some("B"));
    assert_eq!(map[0].end, 0x20);
    assert_eq!(map[1].name, None);
}

#[test]
fn secondary_sram_dropped_on_wireless_family_only() {
    let d = desc("SRAM2A", 0x2003_0000, 0x2800, MemoryKind::Ram);
    assert!(build_region(&d, "STM32WB55RGVx", &cores()).is_none());
    let r = build_region(&d, "STM32F405RGTx", &cores()).unwrap();
    assert_eq!(r.kind, RegionKind::Ram);
    assert_eq!(r.name.as_deref(), Some("SRAM2A"));
    assert_eq!((r.start, r.end), (0x2003_0000, 0x2003_2800));
    assert_eq!(r.cores, cores());
    for name in ["SRAM2B", "SRAM2A_ICODE", "SRAM2B_ICODE"] {
        let d = desc(name, 0x1000, 0x10, MemoryKind::Ram);
        assert!(build_region(&d, "STM32WB55RGVx", &cores()).is_none());
    }
    let d = desc("SRAM1", 0x2000_0000, 0x10, MemoryKind::Ram);
    assert!(build_region(&d, "STM32WB55RGVx", &cores()).is_some());
}

#[test]
fn eeprom_yields_no_region() {
    let d = desc("EEPROM", 0x0808_0000, 0x1800, MemoryKind::Eeprom);
    assert!(build_region(&d, "STM32L151C8Tx", &cores()).is_none());
}

#[test]
fn flash_and_otp_access() {
    let f = build_region(&desc("BANK_1", 0x0800_0000, 0x1000, MemoryKind::Flash), "X", &cores()).unwrap();
    assert_eq!(f.kind, RegionKind::Nvm);
    assert_eq!(f.access, Some(RegionAccess { read: true, write: false, execute: true, boot: true }));
    assert!(!f.is_alias);
    let o = build_region(&desc("OTP", 0x1FFF_7800, 0x200, MemoryKind::Flash), "X", &cores()).unwrap();
    assert_eq!(o.access, Some(RegionAccess { read: true, write: false, execute: false, boot: false }));
}

#[test]
fn ram_access_default_and_explicit() {
    let r = build_region(&desc("SRAM", 0x2000_0000, 0x1000, MemoryKind::Ram), "X", &cores()).unwrap();
    assert_eq!(r.access, Some(RegionAccess { read: true, write: true, execute: true, boot: false }));
    let mut d = desc("SRAM", 0x2000_0000, 0x1000, MemoryKind::Ram);
    d.access = Some(Access { read: true, write: false, execute: false });
    let r = build_region(&d, "X", &cores()).unwrap();
    assert_eq!(r.access, Some(RegionAccess { read: true, write: false, execute: false, boot: false }));
}

#[test]
fn regions_follow_address_order_interleaved() {
    let ds = vec![
        desc("SRAM", 0x2000_0000, 0x100, MemoryKind::Ram),
        desc("BANK_1", 0x0800_0000, 0x100, MemoryKind::Flash),
        desc("CCM", 0x1000_0000, 0x100, MemoryKind::Ram),
    ];
    let sorted = sort_by_address(&ds);
    let names: Vec<&str> = sorted.iter().map(|d| d.name.as_str()).collect();
    assert_eq!(names, vec!["BANK_1", "CCM", "SRAM"]);
    let map = build_memory_map(&sorted, "X", &cores());
    let kinds: Vec<RegionKind> = map.iter().map(|r| r.kind).collect();
    assert_eq!(kinds, vec![RegionKind::Nvm, RegionKind::Ram, RegionKind::Ram]);
}

#[test]
fn sort_keeps_source_order_for_equal_addresses() {
    let ds = vec![
        desc("B", 0x10, 1, MemoryKind::Ram),
        desc("A1", 0x0, 1, MemoryKind::Ram),
        desc("A2", 0x0, 1, MemoryKind::Flash),
    ];
    let sorted = sort_by_address(&ds);
    let names: Vec<&str> = sorted.iter().map(|d| d.name.as_str()).collect();
    assert_eq!(names, vec!["A1", "A2", "B"]);
}
