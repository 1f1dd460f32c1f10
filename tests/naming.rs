use memmap_reconcile::naming::{derive_names, package_names, variant_name, Device};

#[test]
fn placeholder_replaced_by_suffix() {
    assert_eq!(variant_name("STM32F405R-Tx", "G"), "STM32F405RGTx");
}

#[test]
fn suffix_appended_without_placeholder() {
    assert_eq!(variant_name("STM32F405RG", "Tx"), "STM32F405RGTx");
}

#[test]
fn every_placeholder_replaced() {
    assert_eq!(variant_name("A-B-", "xy"), "AxyBxy");
}

#[test]
fn names_derived_for_each_suffix() {
    let d = Device {
        part_number_root: "STM32F405R-Tx".to_string(),
        device_id: "STM32F405".to_string(),
        variant_suffixes: vec!["E".to_string(), "G".to_string()],
    };
    let r = derive_names(&d);
    let got: Vec<(&str, &str)> = r.iter().map(|n| (n.device_id.as_str(), n.full_name.as_str())).collect();
    assert_eq!(got, vec![("STM32F405", "STM32F405RETx"), ("STM32F405", "STM32F405RGTx")]);
}

#[test]
fn package_names_concatenate_literally() {
    let r = package_names("STM32F4-05", &vec!["T6".to_string(), "".to_string()]);
    let got: Vec<(&str, &str)> = r.iter().map(|n| (n.device_id.as_str(), n.full_name.as_str())).collect();
    assert_eq!(got, vec![("STM32F4-05", "STM32F4-05T6"), ("STM32F4-05", "STM32F4-05")]);
}
