use network::{LinkParserError, LinkValue, Links};
use std::io::Write;

fn doc() -> Vec<u8> {
    let mut text = String::new();
    text.push_str("<?xml version=\"1.0\" encoding=\"utf-8\"?>\n<network>\n <links>\n");
    text.push_str("  <link id=\"linkE\" length=\"100.5\"></link>\n");
    text.push_str("  <link id=\"linkW\" length=\"102\"></link>\n");
    text.push_str(" </links>\n</network>\n");
    text.into_bytes()
}

fn gzip(data: &[u8]) -> Vec<u8> {
    let mut enc = flate2::write::GzEncoder::new(Vec::new(), flate2::Compression::default());
    enc.write_all(data).unwrap();
    enc.finish().unwrap()
}

fn as_f32(v: LinkValue) -> f32 {
    let sign = if v.neg { -1.0f32 } else { 1.0f32 };
    if v.exp10 >= 0 {
        sign * v.mant as f32 * 10f32.powi(v.exp10 as i32)
    } else {
        sign * v.mant as f32 / 10f32.powi((-v.exp10) as i32)
    }
}

fn expect_err(r: Result<Links, LinkParserError>) -> LinkParserError {
    match r {
        Ok(_) => panic!("expected the extraction to fail"),
        Err(e) => e,
    }
}

fn same_links(a: &Links, b: &Links) {
    assert_eq!(a.lengths, b.lengths);
    for i in 0..a.lengths.len() {
        assert_eq!(a.indexer.get_key(i), b.indexer.get_key(i));
    }
    assert_eq!(a.indexer.get_key(a.lengths.len()), None);
    assert_eq!(b.indexer.get_key(a.lengths.len()), None);
}

#[test]
fn two_links_scenario() {
    let links = Links::from_xml_bytes(doc(), false).unwrap();
    assert_eq!(links.count(), 2);
    assert_eq!(links.lengths.len(), 2);
    assert_eq!(links.get(0), LinkValue { neg: false, mant: 1005, exp10: -1 });
    assert_eq!(links.get(1), LinkValue { neg: false, mant: 102, exp10: 0 });
    assert_eq!(as_f32(links.get(0)), 100.5);
    assert_eq!(as_f32(links.get(1)), 102.);
    assert_eq!(links.indexer.get_key(0), Some("linkE".to_string()));
    assert_eq!(links.indexer.get_key(1), Some("linkW".to_string()));
    assert_eq!(links.indexer.get_key(2), None);
}

#[test]
fn empty_document_yields_empty_container() {
    let links = Links::from_xml_bytes(b"<network></network>".to_vec(), false).unwrap();
    assert_eq!(links.count(), 0);
    assert_eq!(links.indexer.get_key(0), None);
    let links = Links::from_xml_bytes(Vec::new(), false).unwrap();
    assert_eq!(links.count(), 0);
}

#[test]
fn self_closed_elements_are_not_start_events() {
    // The pass reacts to element-start events alone, as the original loop does.
    let links =
        Links::from_xml_bytes(b"<n><link id=\"a\" length=\"1\"/></n>".to_vec(), false).unwrap();
    assert_eq!(links.count(), 0);
}

#[test]
fn value_attribute_found_in_any_position() {
    // The length attribute stands first here; it is still found, and the
    // identifier is taken from the first attribute by convention.
    let links =
        Links::from_xml_bytes(b"<n><link length=\"7\" id=\"x\"></link></n>".to_vec(), false)
            .unwrap();
    assert_eq!(links.count(), 1);
    assert_eq!(links.get(0), LinkValue { neg: false, mant: 7, exp10: 0 });
    assert_eq!(links.indexer.get_key(0), Some("7".to_string()));

    let links =
        Links::from_xml_bytes(b"<n><link id=\"x\" foo=\"1\" length=\"7\"></link></n>".to_vec(),
            false).unwrap();
    assert_eq!(links.count(), 1);
    assert_eq!(links.get(0), LinkValue { neg: false, mant: 7, exp10: 0 });
    assert_eq!(links.indexer.get_key(0), Some("x".to_string()));
}

#[test]
fn missing_value_attribute_fails() {
    let r = Links::from_xml_bytes(b"<n><link id=\"x\"></link></n>".to_vec(), false);
    assert_eq!(expect_err(r), LinkParserError::MissingValue);
}

#[test]
fn missing_identifier_fails() {
    let r = Links::from_xml_bytes(b"<n><link></link></n>".to_vec(), false);
    assert_eq!(expect_err(r), LinkParserError::MissingIdentifier);
}

#[test]
fn non_numeric_value_fails() {
    let r = Links::from_xml_bytes(b"<n><link id=\"x\" length=\"abc\"></link></n>".to_vec(), false);
    assert_eq!(expect_err(r), LinkParserError::InvalidNumber);
}

#[test]
fn non_utf8_value_fails_with_encoding_error() {
    let mut data = b"<n><link id=\"x\" length=\"".to_vec();
    data.push(0xff);
    data.extend_from_slice(b"\"></link></n>");
    let r = Links::from_xml_bytes(data, false);
    assert_eq!(expect_err(r), LinkParserError::InvalidEncoding);
}

#[test]
fn non_utf8_identifier_fails_with_encoding_error() {
    let mut data = b"<n><link id=\"".to_vec();
    data.push(0xff);
    data.extend_from_slice(b"\" length=\"1\"></link></n>");
    let r = Links::from_xml_bytes(data, false);
    assert_eq!(expect_err(r), LinkParserError::InvalidEncoding);
}

#[test]
fn truncated_markup_fails_structurally() {
    let r = Links::from_xml_bytes(b"<n><!-- a comment the stream cuts off".to_vec(), false);
    assert_eq!(expect_err(r), LinkParserError::StructuralParse);
}

#[test]
fn corrupt_attribute_list_fails_structurally() {
    let r = Links::from_xml_bytes(b"<n><link id=\"x\" length=5></link></n>".to_vec(), false);
    assert_eq!(expect_err(r), LinkParserError::StructuralParse);
}

#[test]
fn bad_gzip_stream_fails_acquisition() {
    let r = Links::from_xml_bytes(b"this is not a gzip stream".to_vec(), true);
    assert_eq!(expect_err(r), LinkParserError::Acquisition);
}

#[test]
fn compressed_and_plain_inputs_agree() {
    let plain = Links::from_xml_bytes(doc(), false).unwrap();
    let packed = Links::from_xml_bytes(gzip(&doc()), true).unwrap();
    same_links(&plain, &packed);
    assert_eq!(packed.count(), 2);
    assert_eq!(packed.get(0), LinkValue { neg: false, mant: 1005, exp10: -1 });
}

#[test]
fn extraction_is_repeatable() {
    let a = Links::from_xml_bytes(doc(), false).unwrap();
    let b = Links::from_xml_bytes(doc(), false).unwrap();
    same_links(&a, &b);
}

#[test]
fn duplicate_identifiers_keep_every_value() {
    let mut text = String::from("<n><link id=\"a\" length=\"1\"></link>");
    text.push_str("<link id=\"a\" length=\"2\"></link></n>");
    let data = text.into_bytes();
    let links = Links::from_xml_bytes(data, false).unwrap();
    assert_eq!(links.count(), 2);
    assert_eq!(links.get(0), LinkValue { neg: false, mant: 1, exp10: 0 });
    assert_eq!(links.get(1), LinkValue { neg: false, mant: 2, exp10: 0 });
    assert_eq!(links.indexer.get_key(0), Some("a".to_string()));
    assert_eq!(links.indexer.get_key(1), Some("a".to_string()));
}

#[test]
fn other_elements_and_text_are_ignored() {
    let mut text = String::from("<network><nodes><node id=\"n1\"></node></nodes>");
    text.push_str("<!-- note --><links>text<link id=\"a\" length=\"3e2\"></link></links></network>");
    let data = text.into_bytes();
    let links = Links::from_xml_bytes(data, false).unwrap();
    assert_eq!(links.count(), 1);
    assert_eq!(links.get(0), LinkValue { neg: false, mant: 3, exp10: 2 });
}

#[test]
fn reader_and_extractor_compose() {
    let src = network::reader::from_bytes(doc(), false).unwrap();
    let links = Links::from_reader(src).unwrap();
    assert_eq!(links.count(), 2);
    assert_eq!(links.indexer.get_key(0), Some("linkE".to_string()));
}

#[test]
fn default_containers_are_empty() {
    let links = Links::default();
    assert_eq!(links.count(), 0);
    assert_eq!(links.indexer.get_key(0), None);
}
