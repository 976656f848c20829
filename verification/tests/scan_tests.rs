use yml_feed::scan::{scan_categories, scan_offers, scan_settings};

fn has(set: &Vec<Vec<u8>>, x: &[u8]) -> bool {
    set.iter().any(|v| v.as_slice() == x)
}

#[test]
fn settings_collect_ids_once() {
    let body = b"<data><shop><id>42</id></shop><merchants><id>7</id><id>42</id></merchants><legacyCategories><ymlId>756</ymlId><ymlId>12</ymlId></legacyCategories></data>";
    let st = scan_settings(body);
    assert_eq!(st.ids.len(), 2);
    assert!(has(&st.ids, b"42"));
    assert!(has(&st.ids, b"7"));
    assert_eq!(st.yml_ids.len(), 2);
    assert!(has(&st.yml_ids, b"756"));
    assert!(has(&st.yml_ids, b"12"));
    assert!(!st.id);
    assert!(!st.yml_id);
}

#[test]
fn settings_text_is_the_chunk_before_the_marker() {
    // the text is what precedes the closing marker in its chunk
    let st = scan_settings(b"<id>\n 5 </id><id/>");
    assert_eq!(st.ids, vec![b"\n 5 ".to_vec()]);
    // an empty element leaves the section open
    assert!(st.id);
}

#[test]
fn settings_of_empty_answer() {
    let st = scan_settings(b"");
    assert!(st.ids.is_empty());
    assert!(st.yml_ids.is_empty());
}

#[test]
fn categories_keep_known_ids() {
    let doc = b"<shop><categories>\n<category id=\"5\" parentId=\"1\">Books</category>\n<category id=\"9\">Toys";
    let ymls = vec![b"5".to_vec()];
    let st = scan_categories(doc, &ymls, false).ok().unwrap();
    assert!(st.categories);
    // category 9 is not among the YML ids
    assert!(!st.category);
    assert!(!st.stopped);
    assert!(!st.id);

    let ymls = vec![b"9".to_vec()];
    let st = scan_categories(doc, &ymls, false).ok().unwrap();
    assert!(st.category);
}

#[test]
fn categories_stop_at_the_end_of_the_list() {
    let doc = b"<categories><category id=\"5\">A</category></categories><category id=\"5\">";
    let st = scan_categories(doc, &vec![b"5".to_vec()], false).ok().unwrap();
    assert!(st.stopped);
    assert!(!st.categories);
    assert!(!st.category);
}

#[test]
fn categories_attribute_too_short_panics() {
    let doc = b"<categories><category id\" >";
    assert!(scan_categories(doc, &vec![], false).is_err());
    let doc = b"<categories><category id=\" x\">";
    assert!(scan_categories(doc, &vec![], false).is_err());
}

#[test]
fn categories_only_read_a_leading_id() {
    // the value of `id` is read only when it is the first attribute
    let doc = b"<categories><category parentId=\"1\" id=\"5\">";
    let st = scan_categories(doc, &vec![], false).ok().unwrap();
    assert!(st.category);
}

#[test]
fn offers_track_fields() {
    let doc = b"<offers><offer id=\"1\"><url>http://x</url><price>10</price><picture>p";
    let st = scan_offers(doc);
    assert!(st.offers);
    assert!(st.offer);
    assert!(!st.url);
    assert!(!st.price);
    assert!(st.picture);
    assert!(!st.stopped);
}

#[test]
fn offers_stop_at_the_end_of_the_list() {
    let doc = b"<offers><offer id=\"1\"></offer></offers><offers><offer id=\"2\">";
    let st = scan_offers(doc);
    assert!(st.stopped);
    assert!(!st.offers);
    assert!(!st.offer);
}
