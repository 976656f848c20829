use yml_feed::offers::filter_offers;

const HEAD: &str = "<yml_catalog><shop><offers>";
const TAIL: &str = "</offers></shop></yml_catalog>";

#[test]
fn filter_copies_offers() {
    let doc = "<yml>\n<offers>\n<offer id=\"1\">\n<price>10</price>\n</offer>\n</offers>\n<offer id=\"2\">";
    let out = filter_offers(doc.as_bytes());
    assert!(out.complete);
    let expected = format!("{}{}{}", HEAD, "<offer id=\"1\"><price>10</price></offer>", TAIL);
    assert_eq!(String::from_utf8(out.file).unwrap(), expected);
}

#[test]
fn filter_trims_unicode_white_space() {
    let doc = "<offers>\u{a0}<offer id=\"1\">\u{3000} text </offer> </offers>";
    let out = filter_offers(doc.as_bytes());
    assert!(out.complete);
    let expected = format!("{}{}{}", HEAD, "<offer id=\"1\"></offer>", TAIL);
    assert_eq!(String::from_utf8(out.file).unwrap(), expected);
}

#[test]
fn filter_without_offers_list() {
    let out = filter_offers(b"<shop><offer id=\"1\">x</offer></shop>");
    assert!(out.complete);
    assert_eq!(String::from_utf8(out.file).unwrap(), format!("{}{}", HEAD, TAIL));
}

#[test]
fn filter_stops_on_invalid_utf8() {
    let mut doc = b"<offers><offer id=\"1\">".to_vec();
    doc.extend_from_slice(&[0xff, b'<', b'/', b'o', b'>']);
    doc.extend_from_slice(b"</offers>");
    let out = filter_offers(&doc);
    assert!(!out.complete);
    assert_eq!(
        String::from_utf8(out.file).unwrap(),
        format!("{}{}", HEAD, "<offer id=\"1\">")
    );
}

#[test]
fn filter_of_empty_feed() {
    let out = filter_offers(b"");
    assert!(out.complete);
    assert_eq!(String::from_utf8(out.file).unwrap(), format!("{}{}", HEAD, TAIL));
}
