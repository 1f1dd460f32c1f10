use memmap_reconcile::model::{
    ChipVariant, DiagnosticKind, FamilyConfig, FamilyDataset, MemoryDescriptor, MemoryKind,
    SourceChip,
};
use memmap_reconcile::reconcile::{
    add_package_variants, chip_from_variant, family_group, deduplicate_package_variants, deduplicate_variants,
    preprocess_family, reconcile_family, remove_unknown_variants, trim_packaging_suffix,
    reconcile_devices, update_variant,
};
use memmap_reconcile::naming::Device;

fn variant(name: &str, index: usize) -> ChipVariant {
    ChipVariant {
        name: name.to_string(),
        cores: vec!["main".to_string()],
        memory_map: vec![],
        package_variants: vec![],
        baseline_index: index,
    }
}

fn family(names: &[&str]) -> FamilyDataset {
    FamilyDataset {
        family_name: "STM32F4_Series".to_string(),
        variants: names.iter().enumerate().map(|(i, n)| variant(n, i)).collect(),
    }
}

fn chip(name: &str, packages: &[&str]) -> SourceChip {
    SourceChip {
        name: name.to_string(),
        packages: packages.iter().map(|p| p.to_string()).collect(),
        memories: vec![
            MemoryDescriptor {
                name: "SRAM".to_string(),
                address: 0x2000_0000,
                size: 0x2_0000,
                kind: MemoryKind::Ram,
                access: None,
            },
            MemoryDescriptor {
                name: "BANK_1".to_string(),
                address: 0x0800_0000,
                size: 0x10_0000,
                kind: MemoryKind::Flash,
                access: None,
            },
        ],
    }
}

fn no_filter() -> FamilyConfig {
    FamilyConfig { allow_prefixes: None, deny_prefixes: None, single_variant: false }
}

#[test]
fn source_chip_missing_from_baseline_is_reported_not_applied() {
    let mut fam = family(&["STM32F405RG"]);
    let mut chips = vec![chip("STM32F405RG", &["STM32F405RGTx"]), chip("STM32F407VG", &["STM32F407VGTx"])];
    let d = reconcile_family(&mut fam, &mut chips, &no_filter());
    assert!(d
        .iter()
        .any(|x| x.kind == DiagnosticKind::MissingFromBaseline && x.name == "STM32F407VG"));
    assert_eq!(fam.variants.len(), 1);
    assert_eq!(fam.variants[0].name, "STM32F405RG");
    assert_eq!(fam.variants[0].package_variants, vec!["STM32F405RGTx".to_string()]);
    assert_eq!(chips.len(), 1);
}

#[test]
fn update_of_absent_variant_changes_nothing() {
    let mut fam = family(&["A", "B"]);
    let found = update_variant(&mut fam, "C", "C", &vec![]);
    assert!(!found);
    let names: Vec<&str> = fam.variants.iter().map(|v| v.name.as_str()).collect();
    assert_eq!(names, vec!["A", "B"]);
    assert!(fam.variants.iter().all(|v| v.memory_map.is_empty()));
}

#[test]
fn update_renames_and_rebuilds_sorted_map() {
    let mut fam = family(&["A", "B"]);
    fam.variants[1].package_variants.push("P".to_string());
    let c = chip("B", &[]);
    let mut mems = c.memories;
    mems.sort_by_key(|m| m.address);
    assert!(update_variant(&mut fam, "B", "B2", &mems));
    assert_eq!(fam.variants[1].name, "B2");
    assert_eq!(fam.variants[1].package_variants, vec!["P".to_string()]);
    let names: Vec<Option<String>> = fam.variants[1].memory_map.iter().map(|r| r.name.clone()).collect();
    assert_eq!(names, vec![Some("BANK_1".to_string()), Some("SRAM".to_string())]);
    assert_eq!(fam.variants[1].memory_map[0].end, 0x0810_0000);
    assert!(fam.variants[0].memory_map.is_empty());
}

#[test]
fn reconciled_family_has_unique_names_and_packages() {
    let mut fam = family(&["STM32F405RGTx", "STM32F405RG", "STM32F405RGTxTR", "STM32F415RG"]);
    fam.variants[1].package_variants = vec!["STM32F405RGTx".to_string(), "OLD".to_string()];
    let mut chips = vec![chip("STM32F405RG", &["STM32F405RGTx", "STM32F405RGTx"]), chip("STM32F415RG", &[])];
    let d = reconcile_family(&mut fam, &mut chips, &no_filter());
    let names: Vec<&str> = fam.variants.iter().map(|v| v.name.as_str()).collect();
    assert_eq!(names, vec!["STM32F405RG", "STM32F415RG"]);
    assert_eq!(fam.variants[0].baseline_index, 0);
    assert_eq!(fam.variants[0].package_variants, vec!["STM32F405RGTx".to_string()]);
    assert!(!d.iter().any(|x| x.kind == DiagnosticKind::RemovedUnknown && x.name == "OLD"));
    assert_eq!(fam.variants[1].memory_map.len(), 2);
}

#[test]
fn unknown_package_variants_removed_and_reported() {
    let mut fam = family(&["A", "B"]);
    fam.variants[0].package_variants = vec!["AT".to_string(), "ZZ".to_string()];
    fam.variants[1].package_variants = vec!["YY".to_string(), "A".to_string()];
    let chips = vec![chip("A", &["AT"])];
    let removed = remove_unknown_variants(&mut fam, &chips);
    assert_eq!(removed, vec!["ZZ".to_string(), "YY".to_string()]);
    assert_eq!(fam.variants[0].package_variants, vec!["AT".to_string()]);
    assert_eq!(fam.variants[1].package_variants, vec!["A".to_string()]);
}

#[test]
fn reconcile_reports_removed_unknown_packages() {
    let mut fam = family(&["A"]);
    fam.variants[0].package_variants = vec!["GONE".to_string()];
    let mut chips = vec![chip("A", &["AT"])];
    let d = reconcile_family(&mut fam, &mut chips, &no_filter());
    assert!(d.iter().any(|x| x.kind == DiagnosticKind::RemovedUnknown && x.name == "GONE"));
    assert_eq!(fam.variants[0].package_variants, vec!["AT".to_string()]);
}

#[test]
fn package_dedup_keeps_first_occurrence() {
    let mut fam = family(&["A"]);
    fam.variants[0].package_variants =
        vec!["x".to_string(), "y".to_string(), "x".to_string(), "z".to_string(), "y".to_string()];
    deduplicate_package_variants(&mut fam);
    assert_eq!(fam.variants[0].package_variants, vec!["x".to_string(), "y".to_string(), "z".to_string()]);
}

#[test]
fn variant_dedup_keeps_first_occurrence() {
    let mut fam = family(&["A", "B", "A", "C", "B"]);
    deduplicate_variants(&mut fam);
    let got: Vec<(&str, usize)> = fam.variants.iter().map(|v| (v.name.as_str(), v.baseline_index)).collect();
    assert_eq!(got, vec![("A", 0), ("B", 1), ("C", 3)]);
}

#[test]
fn package_attachment_goes_to_named_variant() {
    let mut fam = family(&["A", "B"]);
    assert!(add_package_variants(&mut fam, "B", &vec!["B1".to_string(), "B2".to_string()]));
    assert_eq!(fam.variants[1].package_variants, vec!["B1".to_string(), "B2".to_string()]);
    assert!(fam.variants[0].package_variants.is_empty());
    assert!(!add_package_variants(&mut fam, "Q", &vec!["Q1".to_string()]));
}

#[test]
fn packaging_suffix_stripped_repeatedly() {
    assert_eq!(trim_packaging_suffix("STM32F405RGTxTR"), "STM32F405RGTx");
    assert_eq!(trim_packaging_suffix("ABTRTR"), "AB");
    assert_eq!(trim_packaging_suffix("STM32F405RG"), "STM32F405RG");
    assert_eq!(trim_packaging_suffix("TR"), "");
}

#[test]
fn chip_lookup_by_name_or_package() {
    let chips = vec![chip("A", &["AT", "AU"]), chip("B", &["AU"])];
    assert_eq!(chip_from_variant(&chips, "A"), Some(0));
    assert_eq!(chip_from_variant(&chips, "AU"), Some(0));
    assert_eq!(chip_from_variant(&chips, "B"), Some(1));
    assert_eq!(chip_from_variant(&chips, "C"), None);
}

#[test]
fn preprocess_renames_and_reports() {
    let mut fam = family(&["STM32F405RGTxTR", "STM32F405RGTx", "UNKNOWNTR"]);
    let mut chips = vec![chip("STM32F405RG", &["STM32F405RGTx"]), chip("STM32F999", &[])];
    let d = preprocess_family(&mut fam, &mut chips);
    let names: Vec<&str> = fam.variants.iter().map(|v| v.name.as_str()).collect();
    assert_eq!(names, vec!["STM32F405RG", "UNKNOWNTR"]);
    assert_eq!(chips.len(), 1);
    let got: Vec<(DiagnosticKind, &str)> = d.iter().map(|x| (x.kind, x.name.as_str())).collect();
    assert_eq!(
        got,
        vec![
            (DiagnosticKind::MissingFromSource, "UNKNOWN"),
            (DiagnosticKind::MissingFromBaseline, "STM32F999"),
        ]
    );
}

#[test]
fn prefix_filters_skip_devices() {
    let mut fam = family(&["A1", "B1"]);
    let mut chips = vec![chip("A1", &[]), chip("B1", &[])];
    let config = FamilyConfig { allow_prefixes: Some(vec!["A".to_string()]), deny_prefixes: None, single_variant: false };
    reconcile_family(&mut fam, &mut chips, &config);
    assert_eq!(fam.variants[0].memory_map.len(), 2);
    assert!(fam.variants[1].memory_map.is_empty());

    let mut fam = family(&["A1", "B1"]);
    let mut chips = vec![chip("A1", &[]), chip("B1", &[])];
    let config = FamilyConfig { allow_prefixes: None, deny_prefixes: Some(vec!["A".to_string()]), single_variant: false };
    reconcile_family(&mut fam, &mut chips, &config);
    assert!(fam.variants[0].memory_map.is_empty());
    assert_eq!(fam.variants[1].memory_map.len(), 2);
}

#[test]
fn source_families_grouped() {
    assert_eq!(family_group("STM32L4+", "STM32L4R5ZI"), "STM32L4");
    assert_eq!(family_group("STM32H7", "STM32H7R3L8"), "STM32H7RS");
    assert_eq!(family_group("STM32H7", "STM32H7S7L8"), "STM32H7RS");
    assert_eq!(family_group("STM32H7", "STM32H743ZI"), "STM32H7");
    assert_eq!(family_group("STM32F4", "STM32H7R3L8"), "STM32F4");
}

fn legacy_device(root: &str, id: &str, suffixes: &[&str]) -> Device {
    Device {
        part_number_root: root.to_string(),
        device_id: id.to_string(),
        variant_suffixes: suffixes.iter().map(|s| s.to_string()).collect(),
    }
}

#[test]
fn legacy_devices_build_under_derived_names() {
    let mut fam = family(&["STM32F405RETx", "STM32F405RGTx", "STM32F407VGTx"]);
    let devices = vec![legacy_device("STM32F405R-Tx", "STM32F405", &["E", "G", "Z"])];
    let memories = vec![chip("x", &[]).memories];
    let config = FamilyConfig { allow_prefixes: None, deny_prefixes: None, single_variant: false };
    let d = reconcile_devices(&mut fam, &devices, &memories, &config);
    let names: Vec<&str> = fam.variants.iter().map(|v| v.name.as_str()).collect();
    assert_eq!(names, vec!["STM32F405", "STM32F407VGTx"]);
    assert_eq!(
        fam.variants[0].package_variants,
        vec!["STM32F405RETx".to_string(), "STM32F405RGTx".to_string(), "STM32F405RZTx".to_string()]
    );
    assert_eq!(fam.variants[0].memory_map.len(), 2);
    let got: Vec<(DiagnosticKind, &str)> = d.iter().map(|x| (x.kind, x.name.as_str())).collect();
    assert_eq!(got, vec![(DiagnosticKind::MissingFromBaseline, "STM32F405RZTx")]);
}

#[test]
fn single_variant_family_builds_under_device_id() {
    let mut fam = family(&["STM32C011"]);
    let devices = vec![legacy_device("STM32C011-", "STM32C011", &["F4"])];
    let memories = vec![chip("x", &[]).memories];
    let config = FamilyConfig { allow_prefixes: None, deny_prefixes: None, single_variant: true };
    let d = reconcile_devices(&mut fam, &devices, &memories, &config);
    assert!(d.is_empty());
    assert_eq!(fam.variants[0].name, "STM32C011");
    assert_eq!(fam.variants[0].memory_map.len(), 2);
    assert!(fam.variants[0].package_variants.is_empty());
}

#[test]
fn reconcile_diagnostics_come_in_order() {
    let mut fam = family(&["A", "UNKNOWNTR"]);
    fam.variants[0].package_variants = vec!["GONE".to_string()];
    let mut chips = vec![chip("A", &["AT"]), chip("Z", &[])];
    let d = reconcile_family(&mut fam, &mut chips, &no_filter());
    let got: Vec<(DiagnosticKind, &str)> = d.iter().map(|x| (x.kind, x.name.as_str())).collect();
    assert_eq!(
        got,
        vec![
            (DiagnosticKind::MissingFromSource, "UNKNOWN"),
            (DiagnosticKind::MissingFromBaseline, "Z"),
            (DiagnosticKind::RemovedUnknown, "GONE"),
        ]
    );
    assert_eq!(fam.variants[0].package_variants, vec!["AT".to_string()]);
    assert!(fam.variants[1].memory_map.is_empty());
}
