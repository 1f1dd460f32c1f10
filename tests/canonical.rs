use memmap_reconcile::canonical::{canonicalize, indentation, keeps_line, trim_spaces, unquote_line};

fn lines(text: &str) -> Vec<String> {
    text.lines().map(|l| l.to_string()).collect()
}

const DOC: &str = "name: STM32F4_Series
manufacturer:
  id: 0x20
  cc: 0x0
generated_from_pack: false
pack_file_release: null
variants:
- name: STM32F405RG
  cores:
  - name: main
    type: armv7em
  memory_map:
  - !Nvm
    name: BANK_1
    range:
      start: '0x8000000'
      end: '0x8100000'
    access:
      write: false
      boot: true
    cores:
    - main
  - !Ram
    name: SRAM
    range:
      start: '0x20000000'
      end: '0x20020000'
    access:
      read: true
      write: true
      execute: true
    cores:
    - main
  rtt_scan_ranges: []
  flash_algorithms: []
  package_variants: []
  jtag: {}
";

const EXPECTED: &str = "name: STM32F4_Series
manufacturer:
  id: 0x20
  cc: 0x0
variants:
- name: STM32F405RG
  cores:
  - name: main
    type: armv7em
  memory_map:
  - !Nvm
    name: BANK_1
    range:
      start: 0x8000000
      end: 0x8100000
    access:
      write: false
      boot: true
    cores:
    - main
  - !Ram
    name: SRAM
    range:
      start: 0x20000000
      end: 0x20020000
    cores:
    - main
  rtt_scan_ranges: []";

#[test]
fn document_canonical_form() {
    let out = canonicalize(&lines(DOC));
    assert_eq!(out.join("\n"), EXPECTED);
}

#[test]
fn canonical_form_is_stable() {
    let once = canonicalize(&lines(DOC));
    let twice = canonicalize(&once);
    assert_eq!(once, twice);
}

#[test]
fn access_header_with_remaining_child_kept() {
    let input = lines("a:\n  access:\n    read: false\n  b: 1");
    assert_eq!(canonicalize(&input), lines("a:\n  access:\n    read: false\n  b: 1"));
}

#[test]
fn trailing_access_header_dropped() {
    let input = lines("a:\n  access:\n    execute: true");
    assert_eq!(canonicalize(&input), lines("a:"));
}

#[test]
fn line_rules() {
    assert!(!keeps_line("  x: null"));
    assert!(!keeps_line("  x: {}"));
    assert!(!keeps_line("  x: []"));
    assert!(!keeps_line("  x: false"));
    assert!(keeps_line("  rtt_scan_ranges: []"));
    assert!(keeps_line("      read: false"));
    assert!(keeps_line("      write: false"));
    assert!(keeps_line("      execute: false"));
    assert!(!keeps_line("      read: true"));
    assert!(!keeps_line("      write: true"));
    assert!(!keeps_line("      execute: true"));
    assert!(keeps_line("      boot: true"));
    assert!(keeps_line("  name: x"));
}

#[test]
fn hex_quotes_removed() {
    assert_eq!(unquote_line("  start: '0x8000000'"), "  start: 0x8000000");
    assert_eq!(unquote_line("  start: '0X1F'"), "  start: 0X1F");
    assert_eq!(unquote_line("  name: 'abc'"), "  name: 'abc'");
    assert_eq!(unquote_line("  start: '0x10' # c"), "  start: '0x10' # c");
}

#[test]
fn spaces_and_indentation() {
    assert_eq!(trim_spaces("   a b  "), "a b");
    assert_eq!(trim_spaces("    "), "");
    assert_eq!(indentation("    x"), 4);
    assert_eq!(indentation("x  "), 0);
}
