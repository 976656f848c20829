use yml_feed::feed::{
    copy_documents, create_tag, end_handler, end_tag, read_one, set_value, start_handler,
    start_tag, text_handler, DocStatus, TextOutcome,
};
use yml_feed::xml::{catalog_bytes, catalog_writer, plain_writer};

fn text_of(bytes: Vec<u8>) -> String {
    String::from_utf8(bytes).unwrap()
}

/// Rewrites `doc` into a writer that does not indent; the status, the
/// number of prices and the bytes written.
fn rewrite_plain(doc: &str, tag: &[u8]) -> (DocStatus, usize, String) {
    let mut w = plain_writer();
    let r = read_one(doc.as_bytes(), tag, vec!["756"], &mut w);
    (r.status, r.prices, text_of(catalog_bytes(w)))
}

#[test]
fn tags_and_values() {
    let mut w = catalog_writer();
    start_tag(b"yml_catalog", &mut w);
    start_tag(b"shop", &mut w);
    assert!(set_value("a < b & \"c\"", &mut w).is_ok());
    end_tag(b"shop", &mut w);
    end_tag(b"yml_catalog", &mut w);
    assert_eq!(
        text_of(catalog_bytes(w)),
        "<yml_catalog>\n  <shop><![CDATA[a &lt; b &amp; &quot;c&quot;]]></shop>\n</yml_catalog>"
    );
}

#[test]
fn indentation_follows_the_nesting() {
    let mut w = catalog_writer();
    start_tag(b"a", &mut w);
    start_tag(b"b", &mut w);
    start_tag(b"c", &mut w);
    end_tag(b"c", &mut w);
    end_tag(b"b", &mut w);
    start_tag(b"d", &mut w);
    end_tag(b"d", &mut w);
    end_tag(b"a", &mut w);
    assert_eq!(
        text_of(catalog_bytes(w)),
        "<a>\n  <b>\n    <c>\n    </c>\n  </b>\n  <d>\n  </d>\n</a>"
    );
}

#[test]
fn plain_writer_adds_no_layout() {
    let mut w = plain_writer();
    start_tag(b"a", &mut w);
    start_tag(b"b", &mut w);
    assert!(set_value("x", &mut w).is_ok());
    end_tag(b"b", &mut w);
    end_tag(b"a", &mut w);
    assert_eq!(text_of(catalog_bytes(w)), "<a><b><![CDATA[x]]></b></a>");
}

#[test]
fn create_tag_wraps_text() {
    let mut w = catalog_writer();
    assert!(create_tag(b"name", "x'y", &mut w).is_ok());
    assert_eq!(text_of(catalog_bytes(w)), "<name><![CDATA[x&apos;y]]></name>");
}

#[test]
fn handlers_rename_pictures() {
    let mut w = catalog_writer();
    start_handler(b"picture", b"picture size=\"1\"", &mut w);
    let t = text_handler(b"picture", b"http://x/p.jpg", &mut w);
    assert!(matches!(t, TextOutcome::Written));
    end_handler(b"picture", &mut w);
    assert_eq!(text_of(catalog_bytes(w)), "<bibi><![CDATA[test]]></bibi>");
}

#[test]
fn handlers_drop_url_attributes_and_move_the_link() {
    let mut w = catalog_writer();
    start_handler(b"url", b"url kind=\"a\"", &mut w);
    let t = text_handler(b"url", b"http://a?x=1&amp;y=&lt;2", &mut w);
    assert!(matches!(t, TextOutcome::Written));
    end_handler(b"url", &mut w);
    assert_eq!(
        text_of(catalog_bytes(w)),
        "<url>\n  <destination-url-do-not-send-traffic><![CDATA[http://a?x=1&amp;y=&lt;2]]></destination-url-do-not-send-traffic>\n</url>"
    );
}

#[test]
fn handlers_copy_other_tags() {
    let mut w = catalog_writer();
    start_handler(b"name", b"name lang=\"ru\"", &mut w);
    assert!(matches!(text_handler(b"name", b"A&amp;B", &mut w), TextOutcome::Written));
    end_handler(b"name", &mut w);
    assert_eq!(text_of(catalog_bytes(w)), "<name lang=\"ru\">A&amp;B</name>");
}

#[test]
fn picture_text_becomes_test() {
    let mut w = plain_writer();
    let t = text_handler(b"picture", b"http://x/1.jpg", &mut w);
    assert!(matches!(t, TextOutcome::Written));
    assert_eq!(text_of(catalog_bytes(w)), "<![CDATA[test]]>");
}

#[test]
fn link_text_moves_into_its_own_tag() {
    let mut w = plain_writer();
    let t = text_handler(b"url", b"http://x/a", &mut w);
    assert!(matches!(t, TextOutcome::Written));
    assert_eq!(
        text_of(catalog_bytes(w)),
        "<destination-url-do-not-send-traffic><![CDATA[http://x/a]]></destination-url-do-not-send-traffic>"
    );
}

#[test]
fn other_text_is_copied_escaped_as_it_was() {
    let mut w = plain_writer();
    let t = text_handler(b"title", b"a &amp; b", &mut w);
    assert!(matches!(t, TextOutcome::Written));
    assert_eq!(text_of(catalog_bytes(w)), "a &amp; b");
}

#[test]
fn price_text_is_reported_not_written() {
    let mut w = catalog_writer();
    let t = text_handler(b"price", b"100", &mut w);
    assert!(matches!(t, TextOutcome::Price));
    assert_eq!(text_of(catalog_bytes(w)), "");
}

#[test]
fn unreadable_link_panics() {
    let mut w = catalog_writer();
    let t = text_handler(b"url", b"http://a?&bogus;", &mut w);
    assert!(matches!(t, TextOutcome::UnreadableLink));
    let t = text_handler(b"url", &[0xff], &mut w);
    assert!(matches!(t, TextOutcome::UnreadableLink));
    assert_eq!(text_of(catalog_bytes(w)), "");
}

#[test]
fn read_one_copies_the_first_element() {
    let doc = "<root><offer id=\"1\"><name>A&amp;B</name><picture>http://x/p.jpg</picture><url>http://a?x=1&amp;y=2</url><price>10</price></offer><offer id=\"2\"><name>B</name></offer></root>";
    let mut w = catalog_writer();
    let r = read_one(doc.as_bytes(), b"offer", vec!["756"], &mut w);
    assert!(matches!(r.status, DocStatus::Finished));
    assert_eq!(r.prices, 1);
    assert_eq!(
        text_of(catalog_bytes(w)),
        "<offer id=\"1\">\n  <name>A&amp;B</name>\n  <bibi><![CDATA[test]]></bibi>\n  <url>\n    <destination-url-do-not-send-traffic><![CDATA[http://a?x=1&amp;y=2]]></destination-url-do-not-send-traffic>\n  </url>\n  <price>\n  </price>\n</offer>"
    );
}

#[test]
fn read_one_keeps_empty_elements_and_cdata() {
    let doc = "<category id=\"3\"><img src=\"a\"/><![CDATA[x<y]]></category>";
    let mut w = catalog_writer();
    let r = read_one(doc.as_bytes(), b"category", vec![], &mut w);
    assert!(matches!(r.status, DocStatus::Finished));
    assert_eq!(r.prices, 0);
    assert_eq!(
        text_of(catalog_bytes(w)),
        "<category id=\"3\">\n  <img src=\"a\"/>x&lt;y</category>"
    );
}

#[test]
fn read_one_without_the_element_writes_nothing() {
    let mut w = catalog_writer();
    let r = read_one(b"<shop><offer/></shop>", b"category", vec![], &mut w);
    assert!(matches!(r.status, DocStatus::Finished));
    assert_eq!(r.prices, 0);
    assert_eq!(text_of(catalog_bytes(w)), "");
}

#[test]
fn read_one_fails_on_malformed_document() {
    let mut w = catalog_writer();
    let r = read_one(b"<offer><a></b></offer>", b"offer", vec![], &mut w);
    assert!(matches!(r.status, DocStatus::Failed));
    assert_eq!(text_of(catalog_bytes(w)), "<offer>\n  <a>");
}

#[test]
fn read_one_gives_up_on_unreadable_link() {
    let mut w = catalog_writer();
    let r = read_one(b"<offer><url>&bogus;</url><price>1</price></offer>", b"offer", vec![], &mut w);
    assert!(matches!(r.status, DocStatus::Panicked));
    assert_eq!(r.prices, 0);
    assert_eq!(text_of(catalog_bytes(w)), "<offer>\n  <url>");
}

#[test]
fn plain_copy_of_the_first_offer() {
    let (status, prices, out) = rewrite_plain(
        "<r><a>0</a><offer id='1'><b>1</b></offer><offer id='2'><b>2</b></offer></r>",
        b"offer",
    );
    assert!(matches!(status, DocStatus::Finished));
    assert_eq!(prices, 0);
    assert_eq!(out, "<offer id='1'><b>1</b></offer>");
}

#[test]
fn plain_copy_stops_at_a_mismatched_end_tag() {
    let (status, _, out) = rewrite_plain("<offer><b>1</c></offer>", b"offer");
    assert!(matches!(status, DocStatus::Failed));
    assert_eq!(out, "<offer><b>1");
}

#[test]
fn plain_copy_renames_pictures() {
    let (status, _, out) =
        rewrite_plain("<offer><picture>http://x/1.jpg</picture></offer>", b"offer");
    assert!(matches!(status, DocStatus::Finished));
    assert_eq!(out, "<offer><bibi><![CDATA[test]]></bibi></offer>");
}

#[test]
fn plain_copy_moves_links() {
    let (status, _, out) = rewrite_plain("<offer><url>http://x/a</url></offer>", b"offer");
    assert!(matches!(status, DocStatus::Finished));
    assert_eq!(
        out,
        "<offer><url><destination-url-do-not-send-traffic><![CDATA[http://x/a]]></destination-url-do-not-send-traffic></url></offer>"
    );
}

#[test]
fn plain_copy_drops_prices() {
    let (status, prices, out) = rewrite_plain("<offer><price>5</price></offer>", b"offer");
    assert!(matches!(status, DocStatus::Finished));
    assert_eq!(prices, 1);
    assert_eq!(out, "<offer><price></price></offer>");
}

#[test]
fn plain_copy_keeps_self_closing_children() {
    let (status, _, out) = rewrite_plain("<offer><picture/><url/><x a='1'/></offer>", b"offer");
    assert!(matches!(status, DocStatus::Finished));
    assert_eq!(out, "<offer><picture/><url/><x a='1'/></offer>");
}

#[test]
fn plain_copy_drops_comments_and_unwraps_cdata() {
    let (status, _, out) = rewrite_plain("<offer><!--c--><d><![CDATA[hi]]></d></offer>", b"offer");
    assert!(matches!(status, DocStatus::Finished));
    assert_eq!(out, "<offer><d>hi</d></offer>");
}

#[test]
fn plain_copy_skips_a_self_closing_offer() {
    let (status, _, out) = rewrite_plain("<r><offer id='1'/><offer id='2'>x</offer></r>", b"offer");
    assert!(matches!(status, DocStatus::Finished));
    assert_eq!(out, "<offer id='2'>x</offer>");
}

#[test]
fn writing_more_only_appends() {
    let mut a = catalog_writer();
    start_tag(b"shop", &mut a);
    assert!(set_value("x", &mut a).is_ok());
    let mut b = catalog_writer();
    start_tag(b"shop", &mut b);
    assert!(set_value("x", &mut b).is_ok());
    end_tag(b"shop", &mut b);
    let a = catalog_bytes(a);
    let b = catalog_bytes(b);
    assert!(b.len() > a.len());
    assert_eq!(&b[..a.len()], a.as_slice());
}

#[test]
fn documents_are_wrapped_in_turn() {
    let docs: Vec<Vec<u8>> = vec![
        b"<r><category id=\"1\">a</category></r>".to_vec(),
        b"<r><x/></r>".to_vec(),
        b"<category>b</category>".to_vec(),
    ];
    let mut w = plain_writer();
    let reports = copy_documents(b"categories", b"category", &docs, &mut w);
    assert_eq!(reports.len(), 3);
    assert!(reports.iter().all(|r| matches!(r.status, DocStatus::Finished)));
    assert_eq!(
        text_of(catalog_bytes(w)),
        "<categories><category id=\"1\">a</category><category>b</category></categories>"
    );
}

#[test]
fn documents_are_wrapped_with_indentation() {
    let docs: Vec<Vec<u8>> = vec![b"<offer>a</offer>".to_vec()];
    let mut w = catalog_writer();
    let reports = copy_documents(b"offers", b"offer", &docs, &mut w);
    assert_eq!(reports.len(), 1);
    assert_eq!(text_of(catalog_bytes(w)), "<offers>\n  <offer>a</offer>\n</offers>");
}

#[test]
fn an_unreadable_link_ends_the_documents() {
    let docs: Vec<Vec<u8>> = vec![
        b"<offer><price>1</price></offer>".to_vec(),
        b"<offer><url>&bogus;</url></offer>".to_vec(),
        b"<offer>c</offer>".to_vec(),
    ];
    let mut w = plain_writer();
    let reports = copy_documents(b"offers", b"offer", &docs, &mut w);
    assert_eq!(reports.len(), 2);
    assert!(matches!(reports[0].status, DocStatus::Finished));
    assert_eq!(reports[0].prices, 1);
    assert!(matches!(reports[1].status, DocStatus::Panicked));
    assert_eq!(text_of(catalog_bytes(w)), "<offers><offer><price></price></offer><offer><url>");
}

#[test]
fn a_well_formed_copy_is_balanced() {
    let (status, _, out) = rewrite_plain(
        "<r><offer a='1'><picture>p</picture><g><url>http://x</url><h/></g>t</offer></r>",
        b"offer",
    );
    assert!(matches!(status, DocStatus::Finished));
    assert_eq!(
        out,
        "<offer a='1'><bibi><![CDATA[test]]></bibi><g><url><destination-url-do-not-send-traffic><![CDATA[http://x]]></destination-url-do-not-send-traffic></url><h/></g><destination-url-do-not-send-traffic><![CDATA[t]]></destination-url-do-not-send-traffic></offer>"
    );
}
