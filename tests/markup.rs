use memmap_reconcile::markup::{parse_events, parse_markup, tokenize, MalformedMarkup, MarkupError, MarkupEvent};

fn open(n: &str) -> MarkupEvent {
    MarkupEvent::Open(n.to_string())
}
fn close(n: &str) -> MarkupEvent {
    MarkupEvent::Close(n.to_string())
}
fn text(t: &str) -> MarkupEvent {
    MarkupEvent::Text(t.to_string())
}

fn device(part: &str, variants: &str) -> Vec<MarkupEvent> {
    vec![
        open("device"),
        open("part_number"),
        text(part),
        close("part_number"),
        open("variants"),
        text(variants),
        close("variants"),
        close("device"),
    ]
}

#[test]
fn devices_read_in_document_order() {
    let mut es = vec![MarkupEvent::Other, open("family"), open("name"), text("STM32F4"), close("name"), open("devices")];
    es.extend(device("STM32F405R-Tx,STM32F405", "E,G"));
    es.extend(device("STM32F407V-Tx,X,STM32F407", "G"));
    es.extend(vec![close("devices"), close("family")]);
    let doc = parse_events(&es).unwrap();
    assert_eq!(doc.family_name, "STM32F4");
    assert_eq!(doc.devices.len(), 2);
    assert_eq!(doc.devices[0].part_number_root, "STM32F405R-Tx");
    assert_eq!(doc.devices[0].device_id, "STM32F405");
    assert_eq!(doc.devices[0].variant_suffixes, vec!["E".to_string(), "G".to_string()]);
    assert_eq!(doc.devices[1].part_number_root, "STM32F407V-Tx");
    assert_eq!(doc.devices[1].device_id, "STM32F407");
    assert_eq!(doc.devices[1].variant_suffixes, vec!["G".to_string()]);
}

#[test]
fn same_tag_name_at_other_depth_is_not_the_family_name() {
    let mut es = vec![open("family"), open("devices")];
    es.extend(vec![open("device"), open("name"), text("NOT_FAMILY"), close("name"), close("device")]);
    es.extend(vec![close("devices"), close("family")]);
    let doc = parse_events(&es).unwrap();
    assert_eq!(doc.family_name, "");
    assert_eq!(doc.devices.len(), 1);
    assert_eq!(doc.devices[0].device_id, "");
}

#[test]
fn mismatched_close_is_malformed() {
    let es = vec![open("family"), open("name"), close("family")];
    assert_eq!(parse_events(&es).unwrap_err(), MalformedMarkup { position: 2 });
    let es = vec![close("family")];
    assert_eq!(parse_events(&es).unwrap_err(), MalformedMarkup { position: 0 });
}

#[test]
fn unclosed_tags_are_malformed() {
    let es = vec![open("family"), open("name")];
    assert_eq!(parse_events(&es).unwrap_err(), MalformedMarkup { position: 2 });
}

#[test]
fn parsing_twice_gives_the_same_result() {
    let mut es = vec![open("family"), open("devices")];
    es.extend(device("A-B,ID", "1,2"));
    es.extend(vec![close("devices"), close("family")]);
    let a = parse_events(&es).unwrap();
    let b = parse_events(&es).unwrap();
    assert_eq!(a.devices[0].variant_suffixes, b.devices[0].variant_suffixes);
    assert_eq!(a.devices[0].device_id, b.devices[0].device_id);
}

const LEGACY: &str = "<?xml version=\"1.0\"?>
<!-- generated -->
<family>
  <name> STM32F4 </name>
  <devices>
    <device>
      <part_number>STM32F405R-Tx,STM32F405</part_number>
      <variants>E,G</variants>
      <note/>
    </device>
    <device kind=\"x\">
      <part_number>STM32F407VG,STM32F407</part_number>
      <variants>Tx</variants>
    </device>
  </devices>
</family>
";

#[test]
fn markup_text_read_into_devices() {
    let doc = parse_markup(LEGACY).unwrap();
    assert_eq!(doc.family_name, "STM32F4");
    assert_eq!(doc.devices.len(), 2);
    assert_eq!(doc.devices[0].part_number_root, "STM32F405R-Tx");
    assert_eq!(doc.devices[0].device_id, "STM32F405");
    assert_eq!(doc.devices[0].variant_suffixes, vec!["E".to_string(), "G".to_string()]);
    assert_eq!(doc.devices[1].device_id, "STM32F407");
    assert_eq!(doc.devices[1].variant_suffixes, vec!["Tx".to_string()]);
}

#[test]
fn tokens_of_small_text() {
    let es = tokenize("<a x=\"1\">\n hi there \n<b/></a >").unwrap();
    let shown: Vec<String> = es
        .iter()
        .map(|e| match e {
            MarkupEvent::Open(n) => format!("+{n}"),
            MarkupEvent::Close(n) => format!("-{n}"),
            MarkupEvent::Text(t) => format!("t{t}"),
            MarkupEvent::Other => "o".to_string(),
        })
        .collect();
    assert_eq!(shown, vec!["+a", "thi there", "+b", "-b", "-a"]);
}

#[test]
fn unterminated_tag_reported_at_its_offset() {
    assert_eq!(tokenize("<a>x</a").unwrap_err(), 4);
    assert_eq!(parse_markup("<a>x</a").unwrap_err(), MarkupError::UnterminatedTag { offset: 4 });
}

#[test]
fn mismatched_markup_text_is_malformed() {
    assert_eq!(
        parse_markup("<family><name>x</family>").unwrap_err(),
        MarkupError::Malformed(MalformedMarkup { position: 3 })
    );
}
