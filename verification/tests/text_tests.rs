use yml_feed::query::export_file_query;
use yml_feed::text::{s, us};

#[test]
fn s_copies_the_text() {
    assert_eq!(s("yml_catalog"), String::from("yml_catalog"));
    assert_eq!(s(""), String::new());
}

#[test]
fn us_reads_utf8() {
    assert_eq!(us(b"<shop>"), "<shop>");
    assert_eq!(us("Цена".as_bytes()), "Цена");
}

#[test]
fn us_gives_empty_text_for_invalid_utf8() {
    assert_eq!(us(&[0x3c, 0xff, 0x3e]), "");
    assert_eq!(us(&[0xe2, 0x82]), "");
}

#[test]
fn us_reads_back_what_was_written() {
    for t in ["", "offer", "цена 10 ₽", "a\u{0}b"] {
        assert_eq!(us(s(t).as_bytes()), t);
    }
}

#[test]
fn export_file_query_splices_the_file_name() {
    let body = export_file_query("80549.xml");
    assert_eq!(
        body,
        r#"{"query": "{ allExportFiles(page:0, perPage: 1, filter: { filename: \"80549.xml\" }) { filename, shop { id }, merchants { id }, isThrough, categories { legacyCategories { ymlId }}, legacyCategories { ymlId }, parkedDomain { name }, partnerTrackCode }}"}"#
    );
}
